//! The impact query: which translation units must be rebuilt.
//!
//! A changed-path query expands directories to the tracked files below
//! them, recomputes digests, keeps the genuinely dirty files, and walks
//! the reverse edge table from them. Every translation unit reached that
//! way is affected. The walk keeps a visited set, so cyclic graphs
//! (mutually inclusive headers are legal C) terminate.

use vstd::prelude::*;
use vstd::set_lib::lemma_len_subset;
use crate::digest::digest_spec;
use crate::digest::file_digest;
use crate::digest::is_unit_file;
use crate::digest::is_unit_name;
use crate::graph::HashTable;
use crate::graph::IncludeMapping;
use crate::graph::Index;
use crate::order::Rank;
use crate::order::bytes_cmp;
use crate::order::insert_sorted;
use crate::order::lemma_sorted_no_duplicates;
use crate::order::sort_unique;
use crate::order::sorted_strict;
use crate::resolve::is_under_dir;
use crate::resolve::under_dir;

verus! {

broadcast use vstd::seq_lib::seq_to_set_is_finite;

/// One reverse step: `b` is recorded under `a`.
pub open spec fn step(m: Map<Seq<u8>, Set<Seq<u8>>>, a: Seq<u8>, b: Seq<u8>) -> bool {
    m.dom().contains(a) && m[a].contains(b)
}

/// `x` is reachable from `seeds` in at most `n` steps.
pub open spec fn reach_n(m: Map<Seq<u8>, Set<Seq<u8>>>, seeds: Set<Seq<u8>>, n: nat, x: Seq<u8>) -> bool
    decreases n,
{
    if n == 0 {
        seeds.contains(x)
    } else {
        reach_n(m, seeds, (n - 1) as nat, x) || exists|y: Seq<u8>|
            reach_n(m, seeds, (n - 1) as nat, y) && step(m, y, x)
    }
}

/// `x` is reachable from `seeds` along the edges of `m`.
pub open spec fn reachable(m: Map<Seq<u8>, Set<Seq<u8>>>, seeds: Set<Seq<u8>>, x: Seq<u8>) -> bool {
    exists|n: nat| reach_n(m, seeds, n, x)
}

/// Reachability steps forward.
pub proof fn lemma_reach_step(
    m: Map<Seq<u8>, Set<Seq<u8>>>,
    seeds: Set<Seq<u8>>,
    x: Seq<u8>,
    y: Seq<u8>,
)
    requires
        reachable(m, seeds, x),
        step(m, x, y),
    ensures
        reachable(m, seeds, y),
{
    let n = choose|n: nat| reach_n(m, seeds, n, x);
    assert(reach_n(m, seeds, n + 1, y));
}

/// A set that holds the seeds and is closed under steps holds everything
/// reachable.
pub proof fn lemma_reach_in_closed(
    m: Map<Seq<u8>, Set<Seq<u8>>>,
    seeds: Set<Seq<u8>>,
    v: Set<Seq<u8>>,
    x: Seq<u8>,
    n: nat,
)
    requires
        seeds.subset_of(v),
        forall|a: Seq<u8>, b: Seq<u8>| v.contains(a) && step(m, a, b) ==> v.contains(b),
        reach_n(m, seeds, n, x),
    ensures
        v.contains(x),
    decreases n,
{
    if n > 0 {
        if reach_n(m, seeds, (n - 1) as nat, x) {
            lemma_reach_in_closed(m, seeds, v, x, (n - 1) as nat);
        } else {
            let y = choose|y: Seq<u8>| reach_n(m, seeds, (n - 1) as nat, y) && step(m, y, x);
            lemma_reach_in_closed(m, seeds, v, y, (n - 1) as nat);
        }
    }
}

/// Whether a list of byte strings holds `x`.
pub fn contains_path(v: &Vec<Vec<u8>>, x: &Vec<u8>) -> (b: bool)
    ensures
        b == v.deep_view().to_set().contains(x@),
{
    let mut i: usize = 0;
    while i < v.len()
        invariant
            0 <= i <= v@.len(),
            forall|j: int| 0 <= j < i ==> v.deep_view()[j] != x@,
        decreases v@.len() - i,
    {
        proof {
            assert(v.deep_view()[i as int] == v@[i as int].deep_view());
            assert(v@[i as int].deep_view() =~= v@[i as int]@);
        }
        let r = bytes_cmp(&v[i], x);
        if r == Rank::Same {
            proof {
                assert(v.deep_view()[i as int] == x@);
            }
            return true;
        }
        i = i + 1;
    }
    proof {
        if v.deep_view().to_set().contains(x@) {
            let j = choose|j: int| 0 <= j < v.deep_view().len() && v.deep_view()[j] == x@;
        }
    }
    false
}

/// Everything reachable from `seeds` along the reverse edge table, as a
/// strictly sorted list.
pub fn reverse_reachable(rev: &IncludeMapping, seeds: &Vec<Vec<u8>>) -> (r: Vec<Vec<u8>>)
    requires
        rev.wf(),
    ensures
        sorted_strict(r.deep_view()),
        forall|x: Seq<u8>|
            r.deep_view().to_set().contains(x) <==> reachable(
                rev@,
                seeds.deep_view().to_set(),
                x,
            ),
{
    let ghost m = rev@;
    let ghost seedset = seeds.deep_view().to_set();
    // the finite universe every visited node lives in: the seeds and
    // every recorded value
    let mut uni: Vec<Vec<u8>> = Vec::new();
    let mut i: usize = 0;
    while i < seeds.len()
        invariant
            0 <= i <= seeds@.len(),
            uni.deep_view() == seeds.deep_view().subrange(0, i as int),
        decreases seeds@.len() - i,
    {
        let c = seeds[i].clone();
        proof {
            assert(c@ == seeds.deep_view()[i as int]);
        }
        let ghost pre = uni@;
        let ghost pred = uni.deep_view();
        uni.push(c);
        proof {
            assert(uni@ == pre.push(c));
            assert(pred.len() == pre.len());
            assert forall|j: int| 0 <= j < uni.deep_view().len() implies uni.deep_view()[j]
                == (pred + seq![c@])[j] by {
                assert(uni.deep_view()[j] == uni@[j].deep_view());
                if j < pre.len() {
                    assert(uni@[j] == pre[j]);
                    assert(pred[j] == pre[j].deep_view());
                } else {
                    assert(uni@[j] == c);
                }
            }
            assert(uni.deep_view() =~= pred + seq![c@]);
            assert(pred + seq![c@] =~= seeds.deep_view().subrange(0, i + 1));
        }
        i = i + 1;
    }
    proof {
        assert(seeds.deep_view().subrange(0, seeds.deep_view().len() as int) =~= seeds.deep_view());
        assert forall|x: Seq<u8>| seedset.contains(x) implies uni.deep_view().to_set().contains(
            x,
        ) by {}
    }
    let mut ki: usize = 0;
    while ki < rev.vals.len()
        invariant
            0 <= ki <= rev.vals@.len(),
            rev.wf(),
            seedset.subset_of(uni.deep_view().to_set()),
            forall|k: int, j: int|
                0 <= k < ki && 0 <= j < rev.vals.deep_view()[k].len()
                    ==> uni.deep_view().to_set().contains(#[trigger] rev.vals.deep_view()[k][j]),
        decreases rev.vals@.len() - ki,
    {
        let row = &rev.vals[ki];
        let mut j: usize = 0;
        while j < row.len()
            invariant
                0 <= j <= row@.len(),
                rev.wf(),
                ki < rev.vals@.len(),
                row.deep_view() == rev.vals.deep_view()[ki as int],
                seedset.subset_of(uni.deep_view().to_set()),
                forall|k: int, j2: int|
                    0 <= k < ki && 0 <= j2 < rev.vals.deep_view()[k].len()
                        ==> uni.deep_view().to_set().contains(
                        #[trigger] rev.vals.deep_view()[k][j2],
                    ),
                forall|j2: int|
                    0 <= j2 < j ==> uni.deep_view().to_set().contains(
                        #[trigger] row.deep_view()[j2],
                    ),
            decreases row@.len() - j,
        {
            let c = row[j].clone();
            proof {
                assert(c@ == row.deep_view()[j as int]);
                assert(c.deep_view() =~= c@);
            }
            let ghost pre = uni@;
            let ghost pred = uni.deep_view();
            uni.push(c);
            proof {
                assert forall|y: Seq<u8>| pred.to_set().contains(y) implies
                    uni.deep_view().to_set().contains(y) by {
                    let w = choose|w: int| 0 <= w < pred.len() && pred[w] == y;
                    assert(uni@[w] == pre[w]);
                    assert(uni.deep_view()[w] == y);
                }
                assert(uni.deep_view()[pre.len() as int] == c@);
            }
            j = j + 1;
        }
        ki = ki + 1;
    }
    let ghost uniset = uni.deep_view().to_set();
    proof {
        // every step target is in the universe
        assert forall|a: Seq<u8>, b: Seq<u8>| step(m, a, b) implies uniset.contains(b) by {
            let keys = rev.keys.deep_view();
            assert(keys.contains(a));
            let idx = crate::graph::key_at(keys, a);
            assert(0 <= idx < keys.len() && keys[idx] == a);
            assert(m[a] == rev.vals.deep_view()[idx].to_set());
            let w = choose|w: int|
                0 <= w < rev.vals.deep_view()[idx].len() && rev.vals.deep_view()[idx][w] == b;
        }
    }
    let mut visited: Vec<Vec<u8>> = sort_unique(seeds);
    let mut queue: Vec<Vec<u8>> = Vec::new();
    let mut qi: usize = 0;
    while qi < visited.len()
        invariant
            0 <= qi <= visited@.len(),
            queue.deep_view() == visited.deep_view().subrange(0, qi as int),
        decreases visited@.len() - qi,
    {
        let c = visited[qi].clone();
        proof {
            assert(c@ == visited.deep_view()[qi as int]);
        }
        let ghost pre = queue@;
        let ghost pred = queue.deep_view();
        queue.push(c);
        proof {
            assert(queue@ == pre.push(c));
            assert(pred.len() == pre.len());
            assert forall|j2: int| 0 <= j2 < queue.deep_view().len() implies queue.deep_view()[j2]
                == (pred + seq![c@])[j2] by {
                assert(queue.deep_view()[j2] == queue@[j2].deep_view());
                if j2 < pre.len() {
                    assert(queue@[j2] == pre[j2]);
                    assert(pred[j2] == pre[j2].deep_view());
                } else {
                    assert(queue@[j2] == c);
                }
            }
            assert(queue.deep_view() =~= pred + seq![c@]);
            assert(pred + seq![c@] =~= visited.deep_view().subrange(0, qi + 1));
        }
        qi = qi + 1;
    }
    proof {
        assert(visited.deep_view().subrange(0, visited.deep_view().len() as int)
            =~= visited.deep_view());
        assert(queue.deep_view() =~= visited.deep_view());
        lemma_sorted_no_duplicates(visited.deep_view());
        assert forall|x: Seq<u8>| visited.deep_view().to_set().contains(x) implies reachable(
            m,
            seedset,
            x,
        ) by {
            assert(reach_n(m, seedset, 0, x));
        }
        assert(visited.deep_view().to_set().subset_of(uniset));
        lemma_len_subset(visited.deep_view().to_set(), uniset);
    }
    while queue.len() > 0
        invariant
            rev.wf(),
            m == rev@,
            sorted_strict(visited.deep_view()),
            visited.deep_view().to_set().subset_of(uniset),
            visited.deep_view().to_set().len() <= uniset.len(),
            uniset.finite(),
            uniset == uni.deep_view().to_set(),
            forall|a: Seq<u8>, b: Seq<u8>| step(m, a, b) ==> uniset.contains(b),
            queue.deep_view().no_duplicates(),
            queue.deep_view().to_set().subset_of(visited.deep_view().to_set()),
            seedset.subset_of(visited.deep_view().to_set()),
            forall|x: Seq<u8>|
                visited.deep_view().to_set().contains(x) ==> reachable(m, seedset, x),
            forall|x: Seq<u8>, y: Seq<u8>|
                visited.deep_view().to_set().contains(x) && !queue.deep_view().to_set().contains(
                    x,
                ) && step(m, x, y) ==> visited.deep_view().to_set().contains(y),
        decreases uniset.len() - visited.deep_view().to_set().len(), queue@.len(),
    {
        let ghost old_visited = visited.deep_view();
        let ghost old_queue = queue.deep_view();
        let node = queue.pop().unwrap();
        proof {
            assert(node@ == old_queue[old_queue.len() - 1]);
            assert forall|j2: int| 0 <= j2 < queue.deep_view().len() implies queue.deep_view()[j2]
                == old_queue[j2] by {
                assert(queue.deep_view()[j2] == queue@[j2].deep_view());
            }
            assert(queue.deep_view() =~= old_queue.drop_last());
            // after the pop, node is no longer queued
            assert(!queue.deep_view().to_set().contains(node@)) by {
                if queue.deep_view().to_set().contains(node@) {
                    let w = choose|w: int|
                        0 <= w < queue.deep_view().len() && queue.deep_view()[w] == node@;
                    assert(old_queue[w] == node@);
                }
            }
            assert(visited.deep_view().to_set().contains(node@));
            assert(old_visited.to_set().contains(node@));
        }
        let parents_opt = rev.get(&node);
        match parents_opt {
            None => {
                proof {
                    assert forall|x: Seq<u8>, y: Seq<u8>|
                        visited.deep_view().to_set().contains(x)
                            && !queue.deep_view().to_set().contains(x) && step(m, x, y) implies
                        visited.deep_view().to_set().contains(y) by {
                        if x == node@ {
                            assert(!m.dom().contains(x));
                        } else {
                            assert(old_queue.to_set().contains(x) ==> queue.deep_view().to_set()
                                .contains(x)) by {
                                if old_queue.to_set().contains(x) {
                                    let w = choose|w: int|
                                        0 <= w < old_queue.len() && old_queue[w] == x;
                                    assert(w < old_queue.len() - 1);
                                    assert(queue.deep_view()[w] == x);
                                }
                            }
                        }
                    }
                }
            },
            Some(parents) => {
                let ghost pv = parents.deep_view();
                proof {
                    assert(pv.to_set() == m[node@]);
                    assert(queue.deep_view().to_set().subset_of(old_queue.to_set())) by {
                        assert forall|x: Seq<u8>| queue.deep_view().to_set().contains(x) implies
                            old_queue.to_set().contains(x) by {
                            let w = choose|w: int|
                                0 <= w < queue.deep_view().len() && queue.deep_view()[w] == x;
                            assert(old_queue[w] == x);
                        }
                    }
                    assert(queue.deep_view().to_set().difference(old_queue.to_set())
                        =~= Set::<Seq<u8>>::empty());
                    assert(visited.deep_view().to_set() =~= old_visited.to_set().union(
                        queue.deep_view().to_set().difference(old_queue.to_set()),
                    ));
                    assert(old_queue.drop_last().to_set().subset_of(
                        queue.deep_view().to_set(),
                    ));
                }
                let mut pi: usize = 0;
                while pi < parents.len()
                    invariant
                        0 <= pi <= parents@.len(),
                        rev.wf(),
                        m == rev@,
                        pv == parents.deep_view(),
                        pv.to_set() == m[node@],
                        m.dom().contains(node@),
                        old_visited.to_set().contains(node@),
                        old_queue.to_set().subset_of(old_visited.to_set()),
                        uniset.finite(),
                        forall|a: Seq<u8>, b: Seq<u8>| step(m, a, b) ==> uniset.contains(b),
                        sorted_strict(visited.deep_view()),
                        visited.deep_view().to_set().subset_of(uniset),
                        visited.deep_view().to_set().len() <= uniset.len(),
                        old_visited.to_set().subset_of(visited.deep_view().to_set()),
                        queue.deep_view().no_duplicates(),
                        queue.deep_view().to_set().subset_of(visited.deep_view().to_set()),
                        old_queue.drop_last().to_set().subset_of(queue.deep_view().to_set()),
                        seedset.subset_of(visited.deep_view().to_set()),
                        reachable(m, seedset, node@),
                        forall|x: Seq<u8>|
                            visited.deep_view().to_set().contains(x) ==> reachable(m, seedset, x),
                        forall|x: Seq<u8>, y: Seq<u8>|
                            old_visited.to_set().contains(x) && !old_queue.to_set().contains(x)
                                && step(m, x, y) ==> old_visited.to_set().contains(y),
                        forall|j2: int|
                            0 <= j2 < pi ==> visited.deep_view().to_set().contains(
                                #[trigger] pv[j2],
                            ),
                        // nodes enter the queue only together with visited
                        forall|x: Seq<u8>|
                            queue.deep_view().to_set().contains(x) && !old_queue.to_set().contains(
                                x,
                            ) ==> !old_visited.to_set().contains(x),
                        !queue.deep_view().to_set().contains(node@),
                        visited.deep_view().to_set() =~= old_visited.to_set().union(
                            queue.deep_view().to_set().difference(old_queue.to_set()),
                        ),
                    decreases parents@.len() - pi,
                {
                    proof {
                        assert(pv[pi as int] == parents@[pi as int].deep_view());
                        assert(parents@[pi as int].deep_view() =~= parents@[pi as int]@);
                    }
                    let p = &parents[pi];
                    let seen = contains_path(&visited, p);
                    if !seen {
                        let c1 = p.clone();
                        let c2 = p.clone();
                        proof {
                            assert(c1@ == pv[pi as int]);
                            assert(c2@ == pv[pi as int]);
                            assert(c2.deep_view() =~= c2@);
                        }
                        let ghost vis_pre = visited.deep_view();
                        let ghost q_pre = queue.deep_view();
                        insert_sorted(&mut visited, c1);
                        let ghost q_pre_shallow = queue@;
                        queue.push(c2);
                        proof {
                            assert forall|j2: int| 0 <= j2 < queue.deep_view().len() implies
                                queue.deep_view()[j2] == q_pre.push(pv[pi as int])[j2] by {
                                assert(queue.deep_view()[j2] == queue@[j2].deep_view());
                                if j2 < q_pre.len() {
                                    assert(queue@[j2] == q_pre_shallow[j2]);
                                }
                            }
                            assert(queue.deep_view() =~= q_pre.push(pv[pi as int]));
                            assert(queue.deep_view().to_set() =~= q_pre.to_set().insert(
                                pv[pi as int],
                            )) by {
                                let qn = queue.deep_view();
                                assert forall|y: Seq<u8>| qn.to_set().contains(y) implies
                                    q_pre.to_set().insert(pv[pi as int]).contains(y) by {
                                    let w = choose|w: int| 0 <= w < qn.len() && qn[w] == y;
                                    if w < q_pre.len() {
                                        assert(q_pre[w] == y);
                                    }
                                }
                                assert forall|y: Seq<u8>|
                                    q_pre.to_set().insert(pv[pi as int]).contains(y) implies
                                    qn.to_set().contains(y) by {
                                    if y == pv[pi as int] {
                                        assert(qn[qn.len() - 1] == y);
                                    } else {
                                        let w = choose|w: int|
                                            0 <= w < q_pre.len() && q_pre[w] == y;
                                        assert(qn[w] == y);
                                    }
                                }
                            }
                            assert(step(m, node@, pv[pi as int])) by {
                                assert(pv.to_set().contains(pv[pi as int]));
                            }
                            assert(uniset.contains(pv[pi as int]));
                            assert(pv[pi as int] != node@) by {
                                assert(old_visited.to_set().contains(node@));
                                assert(vis_pre.to_set().contains(node@));
                            }
                            lemma_reach_step(m, seedset, node@, pv[pi as int]);
                            lemma_sorted_no_duplicates(visited.deep_view());
                            lemma_len_subset(visited.deep_view().to_set(), uniset);
                            assert(queue.deep_view().no_duplicates()) by {
                                assert forall|w: int| 0 <= w < q_pre.len() implies q_pre[w]
                                    != pv[pi as int] by {
                                    if q_pre[w] == pv[pi as int] {
                                        assert(q_pre.to_set().contains(pv[pi as int]));
                                        assert(vis_pre.to_set().contains(pv[pi as int]));
                                    }
                                }
                                let qn = queue.deep_view();
                                assert forall|w1: int, w2: int|
                                    0 <= w1 < qn.len() && 0 <= w2 < qn.len() && w1 != w2 implies
                                    qn[w1] != qn[w2] by {
                                    if w1 < q_pre.len() && w2 < q_pre.len() {
                                        assert(q_pre[w1] == qn[w1] && q_pre[w2] == qn[w2]);
                                    } else if w1 < q_pre.len() {
                                        assert(qn[w2] == pv[pi as int]);
                                    } else {
                                        assert(qn[w1] == pv[pi as int]);
                                    }
                                }
                            }
                            assert(visited.deep_view().to_set() =~= old_visited.to_set().union(
                                queue.deep_view().to_set().difference(old_queue.to_set()),
                            )) by {
                                assert(visited.deep_view().to_set() =~= vis_pre.to_set().insert(
                                    pv[pi as int],
                                ));
                                assert(queue.deep_view().to_set() =~= q_pre.to_set().insert(
                                    pv[pi as int],
                                ));
                                assert(!old_queue.to_set().contains(pv[pi as int])) by {
                                    if old_queue.to_set().contains(pv[pi as int]) {
                                        assert(visited.deep_view().to_set().contains(
                                            pv[pi as int],
                                        ));
                                        assert(old_queue.to_set().subset_of(
                                            old_visited.to_set(),
                                        ));
                                        assert(vis_pre.to_set().contains(pv[pi as int]));
                                    }
                                }
                            }
                        }
                    }
                    pi = pi + 1;
                }
                proof {
                    // the closure invariant is restored
                    assert forall|x: Seq<u8>, y: Seq<u8>|
                        visited.deep_view().to_set().contains(x)
                            && !queue.deep_view().to_set().contains(x) && step(m, x, y) implies
                        visited.deep_view().to_set().contains(y) by {
                        if x == node@ {
                            assert(m[x].contains(y));
                            assert(pv.to_set().contains(y));
                            let w = choose|w: int| 0 <= w < pv.len() && pv[w] == y;
                        } else if old_visited.to_set().contains(x) {
                            assert(!old_queue.to_set().contains(x)) by {
                                if old_queue.to_set().contains(x) {
                                    let w = choose|w: int|
                                        0 <= w < old_queue.len() && old_queue[w] == x;
                                    assert(w < old_queue.len() - 1) by {
                                        if w == old_queue.len() - 1 {
                                            assert(old_queue[w] == node@);
                                        }
                                    }
                                    assert(old_queue.drop_last()[w] == x);
                                    assert(old_queue.drop_last().to_set().contains(x));
                                }
                            }
                        } else {
                            // x entered this round, so it is still queued
                            assert(queue.deep_view().to_set().contains(x));
                        }
                    }
                    // progress: either a new node was visited or the queue shrank
                    assert(old_visited.to_set().subset_of(visited.deep_view().to_set()));
                    lemma_len_subset(old_visited.to_set(), visited.deep_view().to_set());
                    if visited.deep_view().to_set().len() == old_visited.to_set().len() {
                        assert(visited.deep_view().to_set() =~= old_visited.to_set()) by {
                            crate::impact::lemma_subset_same_len(
                                old_visited.to_set(),
                                visited.deep_view().to_set(),
                            );
                        }
                        // no node was pushed this round, so the queue only shrank
                        assert forall|x: Seq<u8>| queue.deep_view().to_set().contains(x) implies
                            old_queue.to_set().remove(node@).contains(x) by {
                            if !old_queue.to_set().contains(x) {
                                assert(!old_visited.to_set().contains(x));
                                assert(visited.deep_view().to_set().contains(x));
                            }
                        }
                        lemma_len_subset(
                            queue.deep_view().to_set(),
                            old_queue.to_set().remove(node@),
                        );
                        queue.deep_view().unique_seq_to_set();
                        old_queue.unique_seq_to_set();
                        assert(old_queue.to_set().remove(node@).len() == old_queue.to_set().len()
                            - 1);
                        assert(queue@.len() < old_queue.len());
                    }
                }
            },
        }
    }
    proof {
        assert(queue.deep_view().to_set() =~= Set::<Seq<u8>>::empty());
        assert forall|x: Seq<u8>| reachable(m, seedset, x) implies
            visited.deep_view().to_set().contains(x) by {
            let n = choose|n: nat| reach_n(m, seedset, n, x);
            lemma_reach_in_closed(m, seedset, visited.deep_view().to_set(), x, n);
        }
    }
    visited
}

/// Two finite sets, one inside the other, with the same size, are equal.
pub proof fn lemma_subset_same_len(a: Set<Seq<u8>>, b: Set<Seq<u8>>)
    requires
        a.subset_of(b),
        b.finite(),
        a.len() == b.len(),
    ensures
        a =~= b,
{
    if !(a =~= b) {
        let x = choose|x: Seq<u8>| b.contains(x) && !a.contains(x);
        assert(a.subset_of(b.remove(x)));
        lemma_len_subset(a, b.remove(x));
    }
}


/// A recomputed digest counts as dirty when the file is unreadable, not
/// stored, or stored with a different digest.
pub open spec fn dirty_spec(stored: Map<Seq<u8>, u64>, path: Seq<u8>, recomputed: Option<u64>) -> bool {
    match recomputed {
        Option::None => true,
        Some(d) => !stored.dom().contains(path) || stored[path] != d,
    }
}

/// The digest of optional content: a missing file has none.
pub open spec fn digest_opt(p: Seq<u8>, c: Option<Seq<u8>>) -> Option<u64> {
    match c {
        Option::None => Option::None,
        Some(b) => Some(digest_spec(p, b)),
    }
}

/// Whether candidate `i` is dirty against the stored table.
pub open spec fn cand_dirty(
    stored: Map<Seq<u8>, u64>,
    cs: Seq<(Seq<u8>, Option<Seq<u8>>)>,
    i: int,
) -> bool {
    dirty_spec(stored, cs[i].0, digest_opt(cs[i].0, cs[i].1))
}

/// The dirty paths among the first `k` candidates.
pub open spec fn dirty_upto(
    stored: Map<Seq<u8>, u64>,
    cs: Seq<(Seq<u8>, Option<Seq<u8>>)>,
    k: int,
) -> Set<Seq<u8>> {
    Set::new(
        |x: Seq<u8>|
            exists|m: int| 0 <= m < k && #[trigger] cs[m].0 == x && cand_dirty(stored, cs, m),
    )
}

/// The dirty paths among the candidates.
pub open spec fn dirty_of(
    stored: Map<Seq<u8>, u64>,
    cs: Seq<(Seq<u8>, Option<Seq<u8>>)>,
) -> Set<Seq<u8>> {
    dirty_upto(stored, cs, cs.len() as int)
}

/// The view of a candidate's optional content.
pub open spec fn opt_bytes_view(o: Option<Vec<u8>>) -> Option<Seq<u8>> {
    match o {
        Option::None => Option::None,
        Some(v) => Some(v@),
    }
}

/// The view of a candidate list.
pub open spec fn cands_view(o: Seq<(Vec<u8>, Option<Vec<u8>>)>) -> Seq<(Seq<u8>, Option<Seq<u8>>)> {
    Seq::new(o.len(), |i: int| (o[i].0@, opt_bytes_view(o[i].1)))
}

/// The dirty subset of the candidates, as a strictly sorted list: every
/// candidate whose recomputed digest is absent or differs from the
/// stored one.
pub fn dirty_set(stored: &HashTable, cands: &Vec<(Vec<u8>, Option<Vec<u8>>)>) -> (r: Vec<Vec<u8>>)
    requires
        stored.wf(),
    ensures
        sorted_strict(r.deep_view()),
        r.deep_view().to_set() == dirty_of(stored@, cands_view(cands@)),
{
    let ghost cs = cands_view(cands@);
    let mut out: Vec<Vec<u8>> = Vec::new();
    let mut i: usize = 0;
    proof {
        assert(out.deep_view().to_set() =~= dirty_upto(stored@, cs, 0)) by {
            assert forall|x: Seq<u8>| !out.deep_view().to_set().contains(x) by {}
        }
    }
    while i < cands.len()
        invariant
            0 <= i <= cands@.len(),
            stored.wf(),
            cs == cands_view(cands@),
            sorted_strict(out.deep_view()),
            out.deep_view().to_set() == dirty_upto(stored@, cs, i as int),
        decreases cands@.len() - i,
    {
        proof {
            assert(cs[i as int] == (cands@[i as int].0@, opt_bytes_view(cands@[i as int].1)));
        }
        let p = &cands[i].0;
        let d: Option<u64> = match &cands[i].1 {
            Option::None => None,
            Some(content) => Some(file_digest(p, content)),
        };
        proof {
            assert(d == digest_opt(cs[i as int].0, cs[i as int].1));
        }
        let dirty: bool = match d {
            Option::None => true,
            Some(dv) => {
                match stored.get(p) {
                    Option::None => true,
                    Some(sv) => sv != dv,
                }
            },
        };
        proof {
            assert(dirty == cand_dirty(stored@, cs, i as int));
        }
        let ghost before = out.deep_view().to_set();
        if dirty {
            insert_sorted(&mut out, p.clone());
        }
        proof {
            let now = out.deep_view().to_set();
            assert(now =~= dirty_upto(stored@, cs, i + 1)) by {
                assert forall|x: Seq<u8>| now.contains(x) implies dirty_upto(
                    stored@,
                    cs,
                    i + 1,
                ).contains(x) by {
                    if before.contains(x) {
                        let m = choose|m: int|
                            0 <= m < i && #[trigger] cs[m].0 == x && cand_dirty(stored@, cs, m);
                    } else {
                        assert(dirty && x == cs[i as int].0);
                        assert(cs[i as int].0 == x && cand_dirty(stored@, cs, i as int));
                    }
                }
                assert forall|x: Seq<u8>| dirty_upto(stored@, cs, i + 1).contains(x) implies
                    now.contains(x) by {
                    let m = choose|m: int|
                        0 <= m < i + 1 && #[trigger] cs[m].0 == x && cand_dirty(stored@, cs, m);
                    if m < i {
                        assert(before.contains(x));
                    }
                }
            }
        }
        i = i + 1;
    }
    out
}

/// The view of a changed-path input list (path, is-directory).
pub open spec fn inputs_view(o: Seq<(Vec<u8>, bool)>) -> Seq<(Seq<u8>, bool)> {
    Seq::new(o.len(), |i: int| (o[i].0@, o[i].1))
}

/// Whether `x` is named by the input `inp`: a file input names itself, a
/// directory input names every stored file under it.
pub open spec fn expand_hit(stored: Map<Seq<u8>, u64>, inp: (Seq<u8>, bool), x: Seq<u8>) -> bool {
    if inp.1 {
        stored.dom().contains(x) && under_dir(x, inp.0)
    } else {
        inp.0 == x
    }
}

/// The files named by the first `k` inputs.
pub open spec fn expand_upto(
    stored: Map<Seq<u8>, u64>,
    ins: Seq<(Seq<u8>, bool)>,
    k: int,
) -> Set<Seq<u8>> {
    Set::new(|x: Seq<u8>| exists|m: int| 0 <= m < k && expand_hit(stored, #[trigger] ins[m], x))
}

/// The files named by the inputs.
pub open spec fn expand_of(stored: Map<Seq<u8>, u64>, ins: Seq<(Seq<u8>, bool)>) -> Set<Seq<u8>> {
    expand_upto(stored, ins, ins.len() as int)
}

/// Expands changed-path inputs to candidate files, as a strictly sorted
/// list: a file stands for itself (tracked or not), a directory stands
/// for every tracked file under it.
pub fn expand_paths(stored: &HashTable, inputs: &Vec<(Vec<u8>, bool)>) -> (r: Vec<Vec<u8>>)
    requires
        stored.wf(),
    ensures
        sorted_strict(r.deep_view()),
        r.deep_view().to_set() == expand_of(stored@, inputs_view(inputs@)),
{
    let ghost ins = inputs_view(inputs@);
    let mut out: Vec<Vec<u8>> = Vec::new();
    let mut i: usize = 0;
    proof {
        assert(out.deep_view().to_set() =~= expand_upto(stored@, ins, 0)) by {
            assert forall|x: Seq<u8>| !out.deep_view().to_set().contains(x) by {}
        }
    }
    while i < inputs.len()
        invariant
            0 <= i <= inputs@.len(),
            stored.wf(),
            ins == inputs_view(inputs@),
            sorted_strict(out.deep_view()),
            out.deep_view().to_set() == expand_upto(stored@, ins, i as int),
        decreases inputs@.len() - i,
    {
        proof {
            assert(ins[i as int] == (inputs@[i as int].0@, inputs@[i as int].1));
        }
        let p = &inputs[i].0;
        let ghost before = out.deep_view().to_set();
        if inputs[i].1 {
            // a directory: every stored file under it
            let mut j: usize = 0;
            while j < stored.keys.len()
                invariant
                    0 <= j <= stored.keys@.len(),
                    stored.wf(),
                    p@ == ins[i as int].0,
                    ins[i as int].1,
                    sorted_strict(out.deep_view()),
                    out.deep_view().to_set() =~= before.union(
                        Set::new(
                            |x: Seq<u8>|
                                exists|w: int|
                                    0 <= w < j && #[trigger] stored.keys.deep_view()[w] == x
                                        && under_dir(x, p@),
                        ),
                    ),
                decreases stored.keys@.len() - j,
            {
                proof {
                    assert(stored.keys.deep_view()[j as int] == stored.keys@[j as int].deep_view());
                    assert(stored.keys@[j as int].deep_view() =~= stored.keys@[j as int]@);
                }
                let ghost mid = out.deep_view().to_set();
                let k = &stored.keys[j];
                if is_under_dir(k, p) {
                    insert_sorted(&mut out, k.clone());
                }
                proof {
                    let now = out.deep_view().to_set();
                    assert(now =~= before.union(
                        Set::new(
                            |x: Seq<u8>|
                                exists|w: int|
                                    0 <= w < j + 1 && #[trigger] stored.keys.deep_view()[w] == x
                                        && under_dir(x, p@),
                        ),
                    )) by {
                        assert forall|x: Seq<u8>| now.contains(x) implies before.union(
                            Set::new(
                                |x2: Seq<u8>|
                                    exists|w: int|
                                        0 <= w < j + 1 && #[trigger] stored.keys.deep_view()[w]
                                            == x2 && under_dir(x2, p@),
                            ),
                        ).contains(x) by {
                            if !mid.contains(x) {
                                assert(x == stored.keys.deep_view()[j as int] && under_dir(x, p@));
                            }
                        }
                    }
                }
                j = j + 1;
            }
            proof {
                let keys = stored.keys.deep_view();
                assert(out.deep_view().to_set() =~= expand_upto(stored@, ins, i + 1)) by {
                    assert forall|x: Seq<u8>| out.deep_view().to_set().contains(x) implies
                        expand_upto(stored@, ins, i + 1).contains(x) by {
                        if before.contains(x) {
                            let m = choose|m: int|
                                0 <= m < i && expand_hit(stored@, #[trigger] ins[m], x);
                        } else {
                            let w = choose|w: int|
                                0 <= w < keys.len() && #[trigger] keys[w] == x && under_dir(x, p@);
                            assert(stored@.dom().contains(x));
                            assert(expand_hit(stored@, ins[i as int], x));
                        }
                    }
                    assert forall|x: Seq<u8>| expand_upto(stored@, ins, i + 1).contains(x) implies
                        out.deep_view().to_set().contains(x) by {
                        let m = choose|m: int|
                            0 <= m < i + 1 && expand_hit(stored@, #[trigger] ins[m], x);
                        if m < i {
                            assert(before.contains(x));
                        } else {
                            assert(stored@.dom().contains(x) && under_dir(x, p@));
                            let w = crate::graph::key_at(keys, x);
                            assert(0 <= w < keys.len() && keys[w] == x);
                        }
                    }
                }
            }
        } else {
            // a plain file: a candidate even when untracked
            insert_sorted(&mut out, p.clone());
            proof {
                assert(out.deep_view().to_set() =~= expand_upto(stored@, ins, i + 1)) by {
                    assert forall|x: Seq<u8>| out.deep_view().to_set().contains(x) implies
                        expand_upto(stored@, ins, i + 1).contains(x) by {
                        if before.contains(x) {
                            let m = choose|m: int|
                                0 <= m < i && expand_hit(stored@, #[trigger] ins[m], x);
                        } else {
                            assert(expand_hit(stored@, ins[i as int], x));
                        }
                    }
                    assert forall|x: Seq<u8>| expand_upto(stored@, ins, i + 1).contains(x) implies
                        out.deep_view().to_set().contains(x) by {
                        let m = choose|m: int|
                            0 <= m < i + 1 && expand_hit(stored@, #[trigger] ins[m], x);
                        if m < i {
                            assert(before.contains(x));
                        }
                    }
                }
            }
        }
        i = i + 1;
    }
    out
}

/// The translation units within a set of paths.
pub open spec fn unit_subset(s: Set<Seq<u8>>) -> Set<Seq<u8>> {
    Set::new(|x: Seq<u8>| s.contains(x) && is_unit_name(x))
}

/// The translation units among a list of paths, in the same sorted order.
pub fn filter_units(v: &Vec<Vec<u8>>) -> (r: Vec<Vec<u8>>)
    ensures
        sorted_strict(r.deep_view()),
        r.deep_view().to_set() == unit_subset(v.deep_view().to_set()),
{
    let mut out: Vec<Vec<u8>> = Vec::new();
    let mut i: usize = 0;
    proof {
        assert(out.deep_view().to_set() =~= unit_subset(
            v.deep_view().subrange(0, 0).to_set(),
        )) by {
            assert forall|x: Seq<u8>| !v.deep_view().subrange(0, 0).to_set().contains(x) by {}
        }
    }
    while i < v.len()
        invariant
            0 <= i <= v@.len(),
            sorted_strict(out.deep_view()),
            out.deep_view().to_set() == unit_subset(v.deep_view().subrange(0, i as int).to_set()),
        decreases v@.len() - i,
    {
        proof {
            assert(v.deep_view()[i as int] == v@[i as int].deep_view());
            assert(v@[i as int].deep_view() =~= v@[i as int]@);
        }
        let ghost before = out.deep_view().to_set();
        let ghost pre = v.deep_view().subrange(0, i as int);
        let ghost post = v.deep_view().subrange(0, i + 1);
        proof {
            assert(post =~= pre + seq![v.deep_view()[i as int]]);
        }
        if is_unit_file(&v[i]) {
            let c = v[i].clone();
            proof {
                assert(c@ == v.deep_view()[i as int]);
            }
            insert_sorted(&mut out, c);
        }
        proof {
            let e = v.deep_view()[i as int];
            assert(out.deep_view().to_set() =~= unit_subset(post.to_set())) by {
                assert forall|x: Seq<u8>| out.deep_view().to_set().contains(x) implies
                    unit_subset(post.to_set()).contains(x) by {
                    if before.contains(x) {
                        assert(pre.to_set().contains(x) && is_unit_name(x));
                        let m = choose|m: int| 0 <= m < pre.len() && pre[m] == x;
                        assert(post[m] == x);
                        assert(post.to_set().contains(x));
                    } else {
                        assert(x == e);
                        assert(is_unit_name(e));
                        assert(post[i as int] == x);
                        assert(post.to_set().contains(x));
                    }
                }
                assert forall|x: Seq<u8>| unit_subset(post.to_set()).contains(x) implies
                    out.deep_view().to_set().contains(x) by {
                    let m = choose|m: int| 0 <= m < post.len() && post[m] == x;
                    if m < i {
                        assert(pre[m] == x);
                        assert(pre.to_set().contains(x));
                        assert(before.contains(x));
                    } else {
                        assert(x == e);
                    }
                }
            }
        }
        i = i + 1;
    }
    proof {
        assert(v.deep_view().subrange(0, v.deep_view().len() as int) =~= v.deep_view());
    }
    out
}

/// The outcome of an impact query: no content changed at all, changes
/// with no translation unit downstream, or the affected units.
pub enum ImpactReport {
    NoChanges,
    NoneAffected,
    Affected(Vec<Vec<u8>>),
}

/// Runs the impact query against an index, given the candidate files and
/// their current content (`None` for a file that cannot be read: a
/// vanished file is itself a change signal).
pub fn impact_from_contents(idx: &Index, cands: &Vec<(Vec<u8>, Option<Vec<u8>>)>) -> (r:
    ImpactReport)
    requires
        idx.wf(),
    ensures
        ({
            let cs = cands_view(cands@);
            let dirty = dirty_of(idx.hashes@, cs);
            match r {
                ImpactReport::NoChanges => forall|i: int|
                    0 <= i < cs.len() ==> !cand_dirty(idx.hashes@, cs, i),
                ImpactReport::NoneAffected => (exists|i: int|
                    0 <= i < cs.len() && cand_dirty(idx.hashes@, cs, i)) && forall|x: Seq<u8>|
                    !(is_unit_name(x) && reachable(idx.rev@, dirty, x)),
                ImpactReport::Affected(v) => {
                    &&& sorted_strict(v.deep_view())
                    &&& v@.len() > 0
                    &&& (exists|i: int| 0 <= i < cs.len() && cand_dirty(idx.hashes@, cs, i))
                    &&& forall|x: Seq<u8>|
                        v.deep_view().to_set().contains(x) == (is_unit_name(x) && reachable(
                            idx.rev@,
                            dirty,
                            x,
                        ))
                },
            }
        }),
{
    let ghost cs = cands_view(cands@);
    let ghost dirty = dirty_of(idx.hashes@, cs);
    let dirty_vec = dirty_set(&idx.hashes, cands);
    if dirty_vec.len() == 0 {
        proof {
            assert forall|i: int| 0 <= i < cs.len() implies !cand_dirty(idx.hashes@, cs, i) by {
                if cand_dirty(idx.hashes@, cs, i) {
                    assert(dirty.contains(cs[i].0));
                    let w = choose|w: int|
                        0 <= w < dirty_vec.deep_view().len() && dirty_vec.deep_view()[w]
                            == cs[i].0;
                }
            }
        }
        return ImpactReport::NoChanges;
    }
    proof {
        assert(dirty_vec.deep_view().to_set().contains(dirty_vec.deep_view()[0]));
        let seed0 = dirty_vec.deep_view()[0];
        assert(dirty.contains(seed0));
        let m = choose|m: int|
            0 <= m < cs.len() && #[trigger] cs[m].0 == seed0 && cand_dirty(idx.hashes@, cs, m);
        assert(cand_dirty(idx.hashes@, cs, m));
    }
    let reached = reverse_reachable(&idx.rev, &dirty_vec);
    let units = filter_units(&reached);
    if units.len() == 0 {
        proof {
            assert forall|x: Seq<u8>| !(is_unit_name(x) && reachable(idx.rev@, dirty, x)) by {
                if is_unit_name(x) && reachable(idx.rev@, dirty, x) {
                    assert(reached.deep_view().to_set().contains(x));
                    assert(units.deep_view().to_set().contains(x));
                    let w = choose|w: int|
                        0 <= w < units.deep_view().len() && units.deep_view()[w] == x;
                }
            }
        }
        ImpactReport::NoneAffected
    } else {
        proof {
            assert forall|x: Seq<u8>|
                units.deep_view().to_set().contains(x) == (is_unit_name(x) && reachable(
                    idx.rev@,
                    dirty,
                    x,
                )) by {}
        }
        ImpactReport::Affected(units)
    }
}

} // verus!
