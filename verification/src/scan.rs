//! Building an index from a candidate file list.
//!
//! The scan is handed the scanned roots and every candidate file with its
//! raw content (discovery and reading stay outside the library). It
//! stores each file's digest, then parses each file's comment-stripped
//! text for directives, resolves the tokens against the candidate set,
//! and records every resolved pair as a forward and a reverse edge. An
//! index is always rebuilt from scratch, never merged.

use vstd::prelude::*;
use crate::digest::digest_spec;
use crate::digest::file_digest;
use crate::graph::Index;
use crate::graph::map_add;
use crate::impact::step;
use crate::order::sort_unique;
use crate::order::sorted_strict;
use crate::parse::IncludeKind;
use crate::parse::dirs_view;
use crate::parse::scan_directives;
use crate::parse::text_directives;
use crate::resolve::resolve;
use crate::resolve::resolve_spec;
use crate::strip::strip_comments;
use crate::strip::strip_spec;

verus! {

/// The view of a candidate file list: path and raw content.
pub open spec fn files_view(o: Seq<(Vec<u8>, Vec<u8>)>) -> Seq<(Seq<u8>, Seq<u8>)> {
    Seq::new(o.len(), |i: int| (o[i].0@, o[i].1@))
}

/// The digest table of a file list: each path maps to the digest of its
/// content, the last occurrence winning.
pub open spec fn hashes_of(fs: Seq<(Seq<u8>, Seq<u8>)>) -> Map<Seq<u8>, u64>
    decreases fs.len(),
{
    if fs.len() == 0 {
        Map::empty()
    } else {
        hashes_of(fs.drop_last()).insert(
            fs.last().0,
            digest_spec(fs.last().0, fs.last().1),
        )
    }
}

/// The directives of file `i`, parsed from its comment-stripped text.
pub open spec fn file_dirs(fs: Seq<(Seq<u8>, Seq<u8>)>, i: int) -> Seq<(IncludeKind, Seq<u8>)> {
    text_directives(strip_spec(fs[i].1))
}

/// Directive `d` of file `i` yields the edge from `a` to `b`.
pub open spec fn edge_at(
    fs: Seq<(Seq<u8>, Seq<u8>)>,
    roots: Seq<Seq<u8>>,
    known: Set<Seq<u8>>,
    i: int,
    d: int,
    a: Seq<u8>,
    b: Seq<u8>,
) -> bool {
    &&& 0 <= i < fs.len()
    &&& 0 <= d < file_dirs(fs, i).len()
    &&& fs[i].0 == a
    &&& resolve_spec(a, file_dirs(fs, i)[d].0, file_dirs(fs, i)[d].1, roots, known) == Some(b)
}

/// Some directive of some file yields the edge from `a` to `b`.
pub open spec fn scan_edge(
    fs: Seq<(Seq<u8>, Seq<u8>)>,
    roots: Seq<Seq<u8>>,
    known: Set<Seq<u8>>,
    a: Seq<u8>,
    b: Seq<u8>,
) -> bool {
    exists|i: int, d: int| edge_at(fs, roots, known, i, d, a, b)
}

/// The edges contributed by the files before `i`, and by the directives
/// of file `i` before `d`.
pub open spec fn scan_edge_upto(
    fs: Seq<(Seq<u8>, Seq<u8>)>,
    roots: Seq<Seq<u8>>,
    known: Set<Seq<u8>>,
    a: Seq<u8>,
    b: Seq<u8>,
    i: int,
    d: int,
) -> bool {
    exists|i2: int, d2: int|
        (i2 < i || (i2 == i && d2 < d)) && edge_at(fs, roots, known, i2, d2, a, b)
}

/// Adding one pair to a table adds exactly that step.
pub proof fn lemma_map_add_step(
    m: Map<Seq<u8>, Set<Seq<u8>>>,
    k: Seq<u8>,
    v: Seq<u8>,
    a: Seq<u8>,
    b: Seq<u8>,
)
    ensures
        step(map_add(m, k, v), a, b) == (step(m, a, b) || (a == k && b == v)),
{
    let m2 = map_add(m, k, v);
    if a == k {
        assert(m2.dom().contains(a));
        if m.dom().contains(k) {
            assert(m2[a] == m[k].insert(v));
        } else {
            assert(m2[a] == Set::<Seq<u8>>::empty().insert(v));
        }
    } else {
        assert(m2.dom().contains(a) == m.dom().contains(a));
        if m.dom().contains(a) {
            assert(m2[a] == m[a]);
        }
    }
}


/// Everything `build_index` promises of its result, over the views of
/// its inputs: well-formedness, sorted roots holding exactly the given
/// roots, the digest table, both edge tables pinned by the step relation,
/// and no key mapped to an empty set.
pub open spec fn scan_post(idx: Index, roots: Seq<Seq<u8>>, fs: Seq<(Seq<u8>, Seq<u8>)>) -> bool {
    &&& idx.wf()
    &&& sorted_strict(idx.roots.deep_view())
    &&& idx.roots.deep_view().to_set() == roots.to_set()
    &&& idx.hashes@ == hashes_of(fs)
    &&& forall|a: Seq<u8>, b: Seq<u8>|
        #![trigger step(idx.fwd@, a, b)]
        step(idx.fwd@, a, b) <==> scan_edge(fs, idx.roots.deep_view(), idx.hashes@.dom(), a, b)
    &&& forall|a: Seq<u8>, b: Seq<u8>|
        #![trigger step(idx.rev@, b, a)]
        step(idx.rev@, b, a) <==> scan_edge(fs, idx.roots.deep_view(), idx.hashes@.dom(), a, b)
    &&& forall|a: Seq<u8>|
        #[trigger] idx.fwd@.dom().contains(a) ==> exists|b: Seq<u8>| idx.fwd@[a].contains(b)
    &&& forall|a: Seq<u8>|
        #[trigger] idx.rev@.dom().contains(a) ==> exists|b: Seq<u8>| idx.rev@[a].contains(b)
}

/// Builds an index over `roots` from the candidate files and their
/// contents: the roots are stored sorted, every file's digest is stored,
/// and the forward and reverse tables hold exactly the resolved
/// directive pairs, mirrored.
#[verifier::rlimit(100)]
pub fn build_index(roots: &Vec<Vec<u8>>, files: &Vec<(Vec<u8>, Vec<u8>)>) -> (idx: Index)
    ensures
        idx.wf(),
        sorted_strict(idx.roots.deep_view()),
        idx.roots.deep_view().to_set() == roots.deep_view().to_set(),
        idx.hashes@ == hashes_of(files_view(files@)),
        forall|a: Seq<u8>, b: Seq<u8>|
            #![trigger step(idx.fwd@, a, b)]
            step(idx.fwd@, a, b) <==> scan_edge(
                files_view(files@),
                idx.roots.deep_view(),
                idx.hashes@.dom(),
                a,
                b,
            ),
        forall|a: Seq<u8>, b: Seq<u8>|
            #![trigger step(idx.rev@, b, a)]
            step(idx.rev@, b, a) <==> scan_edge(
                files_view(files@),
                idx.roots.deep_view(),
                idx.hashes@.dom(),
                a,
                b,
            ),
        forall|a: Seq<u8>|
            #[trigger] idx.fwd@.dom().contains(a) ==> exists|b: Seq<u8>| idx.fwd@[a].contains(b),
        forall|a: Seq<u8>|
            #[trigger] idx.rev@.dom().contains(a) ==> exists|b: Seq<u8>| idx.rev@[a].contains(b),
        scan_post(idx, roots.deep_view(), files_view(files@)),
{
    let ghost fs = files_view(files@);
    let sorted_roots = sort_unique(roots);
    let mut idx = Index::new();
    idx.roots = sorted_roots;
    // first pass: digests
    let mut i: usize = 0;
    proof {
        assert(fs.subrange(0, 0) =~= Seq::<(Seq<u8>, Seq<u8>)>::empty());
        assert(idx.hashes@ =~= hashes_of(fs.subrange(0, 0)));
    }
    while i < files.len()
        invariant
            0 <= i <= files@.len(),
            fs == files_view(files@),
            idx.wf(),
            sorted_strict(idx.roots.deep_view()),
            idx.roots.deep_view().to_set() == roots.deep_view().to_set(),
            idx.hashes@ == hashes_of(fs.subrange(0, i as int)),
            idx.fwd@ == Map::<Seq<u8>, Set<Seq<u8>>>::empty(),
            idx.rev@ == Map::<Seq<u8>, Set<Seq<u8>>>::empty(),
        decreases files@.len() - i,
    {
        proof {
            assert(fs[i as int] == (files@[i as int].0@, files@[i as int].1@));
        }
        let p = files[i].0.clone();
        proof {
            assert(p@ == fs[i as int].0);
        }
        let d = file_digest(&p, &files[i].1);
        idx.set_hash(p, d);
        proof {
            assert(fs.subrange(0, i + 1).drop_last() =~= fs.subrange(0, i as int));
            assert(fs.subrange(0, i + 1).last() == fs[i as int]);
        }
        i = i + 1;
    }
    proof {
        assert(fs.subrange(0, fs.len() as int) =~= fs);
    }
    let ghost known = idx.hashes@.dom();
    let ghost rv = idx.roots.deep_view();
    // second pass: edges
    let mut i2: usize = 0;
    proof {
        assert forall|a: Seq<u8>, b: Seq<u8>| !step(idx.fwd@, a, b) by {}
        assert forall|a: Seq<u8>, b: Seq<u8>| !step(idx.rev@, b, a) by {}
    }
    while i2 < files.len()
        invariant
            0 <= i2 <= files@.len(),
            fs == files_view(files@),
            idx.wf(),
            sorted_strict(idx.roots.deep_view()),
            rv == idx.roots.deep_view(),
            idx.roots.deep_view().to_set() == roots.deep_view().to_set(),
            idx.hashes@ == hashes_of(fs),
            known == idx.hashes@.dom(),
            forall|a: Seq<u8>, b: Seq<u8>|
                #![trigger step(idx.fwd@, a, b)]
                step(idx.fwd@, a, b) <==> scan_edge_upto(fs, rv, known, a, b, i2 as int, 0),
            forall|a: Seq<u8>, b: Seq<u8>|
                #![trigger step(idx.rev@, b, a)]
                step(idx.rev@, b, a) <==> scan_edge_upto(fs, rv, known, a, b, i2 as int, 0),
            forall|a: Seq<u8>|
                #[trigger] idx.fwd@.dom().contains(a) ==> exists|b: Seq<u8>|
                    idx.fwd@[a].contains(b),
            forall|a: Seq<u8>|
                #[trigger] idx.rev@.dom().contains(a) ==> exists|b: Seq<u8>|
                    idx.rev@[a].contains(b),
        decreases files@.len() - i2,
    {
        proof {
            assert(fs[i2 as int] == (files@[i2 as int].0@, files@[i2 as int].1@));
        }
        let path = files[i2].0.clone();
        proof {
            assert(path@ == fs[i2 as int].0);
        }
        let stripped = strip_comments(&files[i2].1);
        let ds = scan_directives(&stripped);
        proof {
            assert(dirs_view(ds@) == file_dirs(fs, i2 as int));
        }
        let mut d: usize = 0;
        while d < ds.len()
            invariant
                0 <= d <= ds@.len(),
                fs == files_view(files@),
                idx.wf(),
                rv == idx.roots.deep_view(),
                sorted_strict(idx.roots.deep_view()),
                idx.roots.deep_view().to_set() == roots.deep_view().to_set(),
                idx.hashes@ == hashes_of(fs),
                known == idx.hashes@.dom(),
                0 <= i2 < files@.len(),
                path@ == fs[i2 as int].0,
                dirs_view(ds@) == file_dirs(fs, i2 as int),
                forall|a: Seq<u8>, b: Seq<u8>|
                    #![trigger step(idx.fwd@, a, b)]
                    step(idx.fwd@, a, b) <==> scan_edge_upto(fs, rv, known, a, b, i2 as int,
                    d as int),
                forall|a: Seq<u8>, b: Seq<u8>|
                    #![trigger step(idx.rev@, b, a)]
                    step(idx.rev@, b, a) <==> scan_edge_upto(fs, rv, known, a, b, i2 as int,
                    d as int),
                forall|a: Seq<u8>|
                    #[trigger] idx.fwd@.dom().contains(a) ==> exists|b: Seq<u8>|
                        idx.fwd@[a].contains(b),
                forall|a: Seq<u8>|
                    #[trigger] idx.rev@.dom().contains(a) ==> exists|b: Seq<u8>|
                        idx.rev@[a].contains(b),
            decreases ds@.len() - d,
        {
            proof {
                assert(dirs_view(ds@)[d as int] == (ds@[d as int].0, ds@[d as int].1@));
            }
            let kind = ds[d].0;
            let target = resolve(&path, kind, &ds[d].1, &idx.roots, &idx.hashes);
            let ghost old_fwd = idx.fwd@;
            let ghost old_rev = idx.rev@;
            proof {
                assert(file_dirs(fs, i2 as int)[d as int] == (kind, ds@[d as int].1@));
            }
            match target {
                Some(t) => {
                    let ghost tv = t@;
                    proof {
                        assert(resolve_spec(path@, kind, ds@[d as int].1@, rv, known) == Some(tv));
                        assert(edge_at(fs, rv, known, i2 as int, d as int, path@, tv));
                    }
                    let p2 = path.clone();
                    proof {
                        assert(p2@ == path@);
                    }
                    idx.add_edge(p2, t);
                    proof {
                        assert forall|a: Seq<u8>, b: Seq<u8>|
                            #![trigger step(idx.fwd@, a, b)]
                            step(idx.fwd@, a, b) <==> scan_edge_upto(fs, rv, known, a, b,
                        i2 as int, d + 1) by {
                            lemma_map_add_step(old_fwd, path@, tv, a, b);
                            if step(idx.fwd@, a, b) {
                                if step(old_fwd, a, b) {
                                    let (i3, d3) = choose|i3: int, d3: int|
                                        (i3 < i2 as int || (i3 == i2 as int && d3 < d as int))
                                            && edge_at(fs, rv, known, i3, d3, a, b);
                                    assert(edge_at(fs, rv, known, i3, d3, a, b));
                                } else {
                                    assert(a == path@ && b == tv);
                                    assert(edge_at(fs, rv, known, i2 as int, d as int, a, b));
                                }
                            }
                            if scan_edge_upto(fs, rv, known, a, b, i2 as int, d + 1) {
                                let (i3, d3) = choose|i3: int, d3: int|
                                    (i3 < i2 as int || (i3 == i2 as int && d3 < d + 1))
                                        && edge_at(fs, rv, known, i3, d3, a, b);
                                if i3 < i2 as int || d3 < d as int {
                                    assert(scan_edge_upto(fs, rv, known, a, b, i2 as int,
                                    d as int));
                                } else {
                                    assert(i3 == i2 as int && d3 == d as int);
                                    assert(a == path@ && b == tv);
                                }
                            }
                        }
                        assert forall|a: Seq<u8>, b: Seq<u8>|
                            #![trigger step(idx.rev@, b, a)]
                            step(idx.rev@, b, a) <==> scan_edge_upto(fs, rv, known, a, b,
                        i2 as int, d + 1) by {
                            lemma_map_add_step(old_rev, tv, path@, b, a);
                            if step(idx.rev@, b, a) {
                                if step(old_rev, b, a) {
                                    let (i3, d3) = choose|i3: int, d3: int|
                                        (i3 < i2 as int || (i3 == i2 as int && d3 < d as int))
                                            && edge_at(fs, rv, known, i3, d3, a, b);
                                    assert(edge_at(fs, rv, known, i3, d3, a, b));
                                } else {
                                    assert(b == tv && a == path@);
                                    assert(edge_at(fs, rv, known, i2 as int, d as int, a, b));
                                }
                            }
                            if scan_edge_upto(fs, rv, known, a, b, i2 as int, d + 1) {
                                let (i3, d3) = choose|i3: int, d3: int|
                                    (i3 < i2 as int || (i3 == i2 as int && d3 < d + 1))
                                        && edge_at(fs, rv, known, i3, d3, a, b);
                                if i3 < i2 as int || d3 < d as int {
                                    assert(scan_edge_upto(fs, rv, known, a, b, i2 as int,
                                    d as int));
                                } else {
                                    assert(i3 == i2 as int && d3 == d as int);
                                    assert(a == path@ && b == tv);
                                }
                            }
                        }
                        // no key of either table maps to an empty set
                        assert forall|a: Seq<u8>| #[trigger] idx.fwd@.dom().contains(a) implies
                            exists|b: Seq<u8>| idx.fwd@[a].contains(b) by {
                            if a == path@ {
                                assert(idx.fwd@[a].contains(tv));
                            } else {
                                assert(old_fwd.dom().contains(a));
                                let b0 = choose|b0: Seq<u8>| old_fwd[a].contains(b0);
                                assert(idx.fwd@[a].contains(b0));
                            }
                        }
                        assert forall|a: Seq<u8>| #[trigger] idx.rev@.dom().contains(a) implies
                            exists|b: Seq<u8>| idx.rev@[a].contains(b) by {
                            if a == tv {
                                assert(idx.rev@[a].contains(path@));
                            } else {
                                assert(old_rev.dom().contains(a));
                                let b0 = choose|b0: Seq<u8>| old_rev[a].contains(b0);
                                assert(idx.rev@[a].contains(b0));
                            }
                        }
                    }
                },
                None => {
                    proof {
                        assert(resolve_spec(path@, kind, ds@[d as int].1@, rv, known)
                            == Option::None::<Seq<u8>>);
                        assert forall|a: Seq<u8>, b: Seq<u8>|
                            #![trigger step(idx.fwd@, a, b)]
                            step(idx.fwd@, a, b) <==> scan_edge_upto(fs, rv, known, a, b,
                        i2 as int, d + 1) by {
                            if step(idx.fwd@, a, b) {
                                let (i3, d3) = choose|i3: int, d3: int|
                                    (i3 < i2 as int || (i3 == i2 as int && d3 < d as int))
                                        && edge_at(fs, rv, known, i3, d3, a, b);
                                assert(edge_at(fs, rv, known, i3, d3, a, b));
                            }
                            if scan_edge_upto(fs, rv, known, a, b, i2 as int, d + 1) {
                                let (i3, d3) = choose|i3: int, d3: int|
                                    (i3 < i2 as int || (i3 == i2 as int && d3 < d + 1))
                                        && edge_at(fs, rv, known, i3, d3, a, b);
                                if i3 < i2 as int || d3 < d as int {
                                    assert(scan_edge_upto(fs, rv, known, a, b, i2 as int,
                                    d as int));
                                } else {
                                    assert(i3 == i2 as int && d3 == d as int);
                                    assert(false);
                                }
                            }
                        }
                        assert forall|a: Seq<u8>, b: Seq<u8>|
                            #![trigger step(idx.rev@, b, a)]
                            step(idx.rev@, b, a) <==> scan_edge_upto(fs, rv, known, a, b,
                        i2 as int, d + 1) by {
                            if step(idx.rev@, b, a) {
                                let (i3, d3) = choose|i3: int, d3: int|
                                    (i3 < i2 as int || (i3 == i2 as int && d3 < d as int))
                                        && edge_at(fs, rv, known, i3, d3, a, b);
                                assert(edge_at(fs, rv, known, i3, d3, a, b));
                            }
                            if scan_edge_upto(fs, rv, known, a, b, i2 as int, d + 1) {
                                let (i3, d3) = choose|i3: int, d3: int|
                                    (i3 < i2 as int || (i3 == i2 as int && d3 < d + 1))
                                        && edge_at(fs, rv, known, i3, d3, a, b);
                                if i3 < i2 as int || d3 < d as int {
                                    assert(scan_edge_upto(fs, rv, known, a, b, i2 as int,
                                    d as int));
                                } else {
                                    assert(i3 == i2 as int && d3 == d as int);
                                    assert(false);
                                }
                            }
                        }
                    }
                },
            }
            d = d + 1;
        }
        proof {
            assert forall|a: Seq<u8>, b: Seq<u8>|
                #![trigger step(idx.fwd@, a, b)]
                step(idx.fwd@, a, b) <==> scan_edge_upto(fs, rv, known, a, b, i2 + 1, 0) by {
                if step(idx.fwd@, a, b) {
                    let (i3, d3) = choose|i3: int, d3: int|
                        (i3 < i2 as int || (i3 == i2 as int && d3 < ds@.len() as int))
                            && edge_at(fs, rv, known, i3, d3, a, b);
                    assert(i3 < i2 + 1);
                    assert(edge_at(fs, rv, known, i3, d3, a, b));
                }
                if scan_edge_upto(fs, rv, known, a, b, i2 + 1, 0) {
                    let (i3, d3) = choose|i3: int, d3: int|
                        (i3 < i2 + 1 || (i3 == i2 + 1 && d3 < 0)) && edge_at(
                            fs,
                            rv,
                            known,
                            i3,
                            d3,
                            a,
                            b,
                        );
                    assert(i3 < i2 + 1);
                    if i3 == i2 as int {
                        assert(d3 < file_dirs(fs, i3).len());
                        assert(scan_edge_upto(fs, rv, known, a, b, i2 as int, ds@.len() as int));
                    } else {
                        assert(scan_edge_upto(fs, rv, known, a, b, i2 as int, ds@.len() as int));
                    }
                }
            }
            assert forall|a: Seq<u8>, b: Seq<u8>|
                #![trigger step(idx.rev@, b, a)]
                step(idx.rev@, b, a) <==> scan_edge_upto(fs, rv, known, a, b, i2 + 1, 0) by {
                if step(idx.rev@, b, a) {
                    let (i3, d3) = choose|i3: int, d3: int|
                        (i3 < i2 as int || (i3 == i2 as int && d3 < ds@.len() as int))
                            && edge_at(fs, rv, known, i3, d3, a, b);
                    assert(i3 < i2 + 1);
                    assert(edge_at(fs, rv, known, i3, d3, a, b));
                }
                if scan_edge_upto(fs, rv, known, a, b, i2 + 1, 0) {
                    let (i3, d3) = choose|i3: int, d3: int|
                        (i3 < i2 + 1 || (i3 == i2 + 1 && d3 < 0)) && edge_at(
                            fs,
                            rv,
                            known,
                            i3,
                            d3,
                            a,
                            b,
                        );
                    assert(i3 < i2 + 1);
                    if i3 == i2 as int {
                        assert(d3 < file_dirs(fs, i3).len());
                        assert(scan_edge_upto(fs, rv, known, a, b, i2 as int, ds@.len() as int));
                    } else {
                        assert(scan_edge_upto(fs, rv, known, a, b, i2 as int, ds@.len() as int));
                    }
                }
            }
        }
        i2 = i2 + 1;
    }
    proof {
        assert forall|a: Seq<u8>, b: Seq<u8>|
            #![trigger step(idx.fwd@, a, b)]
            step(idx.fwd@, a, b) <==> scan_edge(fs, rv, known, a, b) by {
            if step(idx.fwd@, a, b) {
                let (i3, d3) = choose|i3: int, d3: int|
                    (i3 < i2 as int || (i3 == i2 as int && d3 < 0)) && edge_at(
                        fs,
                        rv,
                        known,
                        i3,
                        d3,
                        a,
                        b,
                    );
                assert(edge_at(fs, rv, known, i3, d3, a, b));
            }
            if scan_edge(fs, rv, known, a, b) {
                let (i3, d3) = choose|i3: int, d3: int| edge_at(fs, rv, known, i3, d3, a, b);
                assert(i3 < fs.len());
                assert(scan_edge_upto(fs, rv, known, a, b, i2 as int, 0));
            }
        }
        assert forall|a: Seq<u8>, b: Seq<u8>|
            #![trigger step(idx.rev@, b, a)]
            step(idx.rev@, b, a) <==> scan_edge(fs, rv, known, a, b) by {
            if step(idx.rev@, b, a) {
                let (i3, d3) = choose|i3: int, d3: int|
                    (i3 < i2 as int || (i3 == i2 as int && d3 < 0)) && edge_at(
                        fs,
                        rv,
                        known,
                        i3,
                        d3,
                        a,
                        b,
                    );
                assert(edge_at(fs, rv, known, i3, d3, a, b));
            }
            if scan_edge(fs, rv, known, a, b) {
                let (i3, d3) = choose|i3: int, d3: int| edge_at(fs, rv, known, i3, d3, a, b);
                assert(i3 < fs.len());
                assert(scan_edge_upto(fs, rv, known, a, b, i2 as int, 0));
            }
        }
    }
    idx
}

} // verus!
