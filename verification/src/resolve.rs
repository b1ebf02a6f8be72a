//! Resolution of quoted directive tokens to tracked files.
//!
//! An angled token always resolves to nothing (a system header, outside
//! project scope). A quoted token is joined to the directory of the file
//! that names it; if that candidate, lexically normalized, is a tracked
//! file under one of the header roots, it wins. Otherwise each header
//! root in order (every scanned root, each followed by its `include`
//! subdirectory) is tried the same way. A token that resolves to no
//! tracked file is silently dropped by callers: that is a legitimate
//! outcome, not an error.
//!
//! Whether a candidate "exists" is judged against the set of tracked
//! files handed in (the scan's candidate list); true directory reading
//! stays outside the library.

use vstd::prelude::*;
use crate::digest::comp_start;
use crate::digest::last_pos;
use crate::graph::HashTable;
use crate::parse::IncludeKind;
use crate::parse::split_bytes;
use crate::parse::split_spec;

verus! {

/// The directory part of a path: everything before the last `/`, or
/// nothing when the path has no `/`.
pub open spec fn parent_dir(p: Seq<u8>) -> Seq<u8> {
    if comp_start(p) > 0 {
        p.subrange(0, comp_start(p) - 1)
    } else {
        Seq::empty()
    }
}

/// The directory part of a path.
pub fn parent_of(p: &Vec<u8>) -> (r: Vec<u8>)
    ensures
        r@ == parent_dir(p@),
{
    let mut i: usize = p.len();
    while i > 0
        invariant
            0 <= i <= p@.len(),
            forall|k: int| i <= k < p@.len() ==> p@[k] != 47,
        decreases i,
    {
        i = i - 1;
        if p[i] == 47 {
            proof {
                assert(last_pos(p@, 47u8, i as int));
                assert(comp_start(p@) == i + 1);
            }
            let mut out: Vec<u8> = Vec::new();
            let mut j: usize = 0;
            while j < i
                invariant
                    0 <= j <= i <= p@.len(),
                    out@ =~= p@.subrange(0, j as int),
                decreases i - j,
            {
                out.push(p[j]);
                j = j + 1;
            }
            return out;
        }
    }
    proof {
        assert forall|m: int| !last_pos(p@, 47u8, m) by {
            if last_pos(p@, 47u8, m) {
                assert(p@[m] == 47);
            }
        }
        assert(comp_start(p@) == 0);
    }
    Vec::new()
}

/// One lexical normalization step: empty and `.` segments vanish, `..`
/// removes the segment before it (or vanishes at the top), any other
/// segment stays.
pub open spec fn norm_stack(segs: Seq<Seq<u8>>) -> Seq<Seq<u8>>
    decreases segs.len(),
{
    if segs.len() == 0 {
        Seq::empty()
    } else {
        let st = norm_stack(segs.drop_last());
        let s = segs.last();
        if s.len() == 0 || s == seq![46u8] {
            st
        } else if s == seq![46u8, 46u8] {
            if st.len() > 0 {
                st.drop_last()
            } else {
                st
            }
        } else {
            st.push(s)
        }
    }
}

/// Glues segments back together, a `/` before each one.
pub open spec fn glue(segs: Seq<Seq<u8>>) -> Seq<u8>
    decreases segs.len(),
{
    if segs.len() == 0 {
        Seq::empty()
    } else {
        seq![47u8] + segs[0] + glue(segs.skip(1))
    }
}

/// The lexical normal form of an absolute path: its segments with `.`,
/// empty and `..`-cancelled parts removed, a bare `/` when none remain.
pub open spec fn normalize_spec(p: Seq<u8>) -> Seq<u8> {
    let st = norm_stack(split_spec(p, 47u8));
    if st.len() == 0 {
        seq![47u8]
    } else {
        glue(st)
    }
}

/// Normalizes a path lexically.
pub fn normalize(p: &Vec<u8>) -> (r: Vec<u8>)
    ensures
        r@ == normalize_spec(p@),
{
    let segs = split_bytes(p, 47);
    let mut stack: Vec<Vec<u8>> = Vec::new();
    let mut i: usize = 0;
    proof {
        assert(segs.deep_view().subrange(0, 0) =~= Seq::<Seq<u8>>::empty());
        assert(stack.deep_view() =~= norm_stack(segs.deep_view().subrange(0, 0)));
    }
    while i < segs.len()
        invariant
            0 <= i <= segs@.len(),
            stack.deep_view() == norm_stack(segs.deep_view().subrange(0, i as int)),
        decreases segs@.len() - i,
    {
        let ghost pre = stack.deep_view();
        let ghost done = segs.deep_view().subrange(0, i as int);
        proof {
            assert(segs.deep_view().subrange(0, i + 1).drop_last() =~= done);
            assert(segs.deep_view().subrange(0, i + 1).last() == segs.deep_view()[i as int]);
            assert(segs.deep_view()[i as int] == segs@[i as int]@);
        }
        let seg = &segs[i];
        if seg.len() == 0 || (seg.len() == 1 && seg[0] == 46) {
            proof {
                if seg@.len() == 1 {
                    assert(seg@ =~= seq![46u8]);
                }
            }
        } else if seg.len() == 2 && seg[0] == 46 && seg[1] == 46 {
            proof {
                assert(seg@ =~= seq![46u8, 46u8]);
            }
            let ghost pre_stack = stack@;
            stack.pop();
            proof {
                if pre_stack.len() > 0 {
                    assert forall|j: int| 0 <= j < stack.deep_view().len() implies
                        stack.deep_view()[j] == pre.drop_last()[j] by {
                        assert(stack.deep_view()[j] == stack@[j].deep_view());
                        assert(stack@[j] == pre_stack[j]);
                    }
                    assert(stack.deep_view() =~= pre.drop_last());
                }
            }
        } else {
            proof {
                assert(seg@.len() != 0);
                assert(seg@ != seq![46u8]);
                assert(seg@ != seq![46u8, 46u8]) by {
                    if seg@ == seq![46u8, 46u8] {
                        assert(seg@[0] == 46 && seg@[1] == 46);
                    }
                }
            }
            let c = seg.clone();
            let ghost pre_stack = stack@;
            stack.push(c);
            proof {
                assert forall|j: int| 0 <= j < stack.deep_view().len() implies stack.deep_view()[j]
                    == pre.push(seg@)[j] by {
                    assert(stack.deep_view()[j] == stack@[j].deep_view());
                    if j < pre.len() {
                        assert(stack@[j] == pre_stack[j]);
                    }
                }
                assert(stack.deep_view() =~= pre.push(seg@));
            }
        }
        i = i + 1;
    }
    proof {
        assert(segs.deep_view().subrange(0, segs.deep_view().len() as int) =~= segs.deep_view());
    }
    // glue the remaining segments
    let mut out: Vec<u8> = Vec::new();
    if stack.len() == 0 {
        out.push(47);
        proof {
            assert(out@ =~= seq![47u8]);
        }
        return out;
    }
    let ghost st = stack.deep_view();
    let mut k: usize = 0;
    proof {
        assert(st.skip(0) =~= st);
    }
    while k < stack.len()
        invariant
            0 <= k <= stack@.len(),
            st == stack.deep_view(),
            glue(st) == out@ + glue(st.skip(k as int)),
        decreases stack@.len() - k,
    {
        proof {
            assert(st.skip(k as int)[0] == st[k as int]);
            assert(st.skip(k as int).skip(1) =~= st.skip(k + 1));
            assert(st[k as int] == stack@[k as int]@);
        }
        out.push(47);
        let ghost mid = out@;
        let mut m: usize = 0;
        let seg = &stack[k];
        while m < seg.len()
            invariant
                0 <= m <= seg@.len(),
                out@ =~= mid + seg@.subrange(0, m as int),
            decreases seg@.len() - m,
        {
            out.push(seg[m]);
            m = m + 1;
        }
        proof {
            assert(out@ =~= mid + seg@);
        }
        k = k + 1;
    }
    proof {
        assert(st.skip(st.len() as int).len() == 0);
        assert(glue(st.skip(st.len() as int)) =~= Seq::<u8>::empty());
        assert(glue(st) =~= out@);
    }
    out
}

/// Whether `p` lies under the directory `r`: equal to it, or below it
/// with a `/` right at the boundary.
pub open spec fn under_dir(p: Seq<u8>, r: Seq<u8>) -> bool {
    p == r || (r.len() < p.len() && p.subrange(0, r.len() as int) == r && p[r.len() as int] == 47)
}

/// Decides whether `p` lies under `r`.
pub fn is_under_dir(p: &Vec<u8>, r: &Vec<u8>) -> (b: bool)
    ensures
        b == under_dir(p@, r@),
{
    if p.len() < r.len() {
        return false;
    }
    let mut i: usize = 0;
    while i < r.len()
        invariant
            0 <= i <= r@.len() <= p@.len(),
            forall|j: int| 0 <= j < i ==> p@[j] == r@[j],
        decreases r@.len() - i,
    {
        if p[i] != r[i] {
            proof {
                if p@ == r@ {
                    assert(p@[i as int] == r@[i as int]);
                }
                if p@.subrange(0, r@.len() as int) == r@ {
                    assert(p@.subrange(0, r@.len() as int)[i as int] == r@[i as int]);
                }
            }
            return false;
        }
        i = i + 1;
    }
    if p.len() == r.len() {
        proof {
            assert(p@ =~= r@);
        }
        true
    } else {
        proof {
            assert(p@.subrange(0, r@.len() as int) =~= r@);
        }
        let b = p[r.len()] == 47;
        b
    }
}

/// The name of the conventional header subdirectory of a root.
pub open spec fn inc_dir() -> Seq<u8> {
    seq![105u8, 110u8, 99u8, 108u8, 117u8, 100u8, 101u8]
}

/// The header roots derived from the scanned roots: each root, followed
/// by its header subdirectory, in root order.
pub open spec fn header_roots_spec(roots: Seq<Seq<u8>>) -> Seq<Seq<u8>>
    decreases roots.len(),
{
    if roots.len() == 0 {
        Seq::empty()
    } else {
        seq![roots[0], roots[0] + seq![47u8] + inc_dir()] + header_roots_spec(roots.skip(1))
    }
}

/// Builds the header-root list from the scanned roots.
pub fn header_roots(roots: &Vec<Vec<u8>>) -> (r: Vec<Vec<u8>>)
    ensures
        r.deep_view() == header_roots_spec(roots.deep_view()),
{
    let mut out: Vec<Vec<u8>> = Vec::new();
    let ghost rv = roots.deep_view();
    let mut i: usize = 0;
    proof {
        assert(rv.skip(0) =~= rv);
        assert(out.deep_view() =~= Seq::<Seq<u8>>::empty());
    }
    while i < roots.len()
        invariant
            0 <= i <= roots@.len(),
            rv == roots.deep_view(),
            header_roots_spec(rv) == out.deep_view() + header_roots_spec(rv.skip(i as int)),
        decreases roots@.len() - i,
    {
        proof {
            assert(rv.skip(i as int)[0] == rv[i as int]);
            assert(rv.skip(i as int).skip(1) =~= rv.skip(i + 1));
            assert(rv[i as int] == roots@[i as int]@);
        }
        let ghost before = out.deep_view();
        let base = roots[i].clone();
        let mut sub = roots[i].clone();
        sub.push(47);
        let mut m: usize = 0;
        let ghost mid = sub@;
        while m < 7
            invariant
                0 <= m <= 7,
                sub@ =~= mid + inc_dir().subrange(0, m as int),
            decreases 7 - m,
        {
            let b: u8 = if m == 0 {
                105
            } else if m == 1 {
                110
            } else if m == 2 {
                99
            } else if m == 3 {
                108
            } else if m == 4 {
                117
            } else if m == 5 {
                100
            } else {
                101
            };
            proof {
                assert(inc_dir()[m as int] == b);
                assert(inc_dir().subrange(0, m + 1) =~= inc_dir().subrange(0, m as int).push(b));
            }
            sub.push(b);
            m = m + 1;
        }
        proof {
            assert(sub@ =~= rv[i as int] + seq![47u8] + inc_dir());
            assert(base@ == rv[i as int]);
        }
        let ghost pre1 = out@;
        out.push(base);
        let ghost pre2 = out@;
        out.push(sub);
        proof {
            assert forall|j: int| 0 <= j < out.deep_view().len() implies out.deep_view()[j] == (
            before + seq![rv[i as int], rv[i as int] + seq![47u8] + inc_dir()])[j] by {
                assert(out.deep_view()[j] == out@[j].deep_view());
                if j < before.len() {
                    assert(out@[j] == pre1[j]);
                    assert(before[j] == pre1[j].deep_view());
                }
            }
            assert(out.deep_view() =~= before + seq![
                rv[i as int],
                rv[i as int] + seq![47u8] + inc_dir(),
            ]);
        }
        i = i + 1;
    }
    proof {
        assert(rv.skip(rv.len() as int).len() == 0);
        assert(header_roots_spec(rv.skip(rv.len() as int)) =~= Seq::<Seq<u8>>::empty());
        assert(out.deep_view() =~= out.deep_view() + Seq::<Seq<u8>>::empty());
    }
    out
}

/// Whether `p` lies under at least one of the listed roots.
pub open spec fn under_some(p: Seq<u8>, hrs: Seq<Seq<u8>>) -> bool {
    exists|i: int| 0 <= i < hrs.len() && under_dir(p, hrs[i])
}

/// Decides whether `p` lies under some listed root.
pub fn is_under_some(p: &Vec<u8>, hrs: &Vec<Vec<u8>>) -> (b: bool)
    ensures
        b == under_some(p@, hrs.deep_view()),
{
    let mut i: usize = 0;
    while i < hrs.len()
        invariant
            0 <= i <= hrs@.len(),
            forall|j: int| 0 <= j < i ==> !under_dir(p@, hrs.deep_view()[j]),
        decreases hrs@.len() - i,
    {
        proof {
            assert(hrs.deep_view()[i as int] == hrs@[i as int]@);
        }
        if is_under_dir(p, &hrs[i]) {
            return true;
        }
        i = i + 1;
    }
    false
}

/// The candidate obtained by joining `token` to the directory `d`,
/// normalized.
pub open spec fn joined(d: Seq<u8>, token: Seq<u8>) -> Seq<u8> {
    normalize_spec(d + seq![47u8] + token)
}

/// Joins and normalizes.
pub fn join_normalize(d: &Vec<u8>, token: &Vec<u8>) -> (r: Vec<u8>)
    ensures
        r@ == joined(d@, token@),
{
    let mut cand = d.clone();
    cand.push(47);
    let mut m: usize = 0;
    let ghost mid = cand@;
    while m < token.len()
        invariant
            0 <= m <= token@.len(),
            cand@ =~= mid + token@.subrange(0, m as int),
        decreases token@.len() - m,
    {
        cand.push(token[m]);
        m = m + 1;
    }
    proof {
        assert(cand@ =~= d@ + seq![47u8] + token@);
    }
    normalize(&cand)
}

/// The first header root whose joined candidate is a tracked file under
/// some header root.
pub open spec fn first_hit(
    token: Seq<u8>,
    hrs: Seq<Seq<u8>>,
    all: Seq<Seq<u8>>,
    known: Set<Seq<u8>>,
) -> Option<Seq<u8>>
    decreases hrs.len(),
{
    if hrs.len() == 0 {
        Option::None
    } else {
        let c = joined(hrs[0], token);
        if known.contains(c) && under_some(c, all) {
            Some(c)
        } else {
            first_hit(token, hrs.skip(1), all, known)
        }
    }
}

/// Where a directive token of `inc_file` resolves to: nothing for angled
/// tokens; for quoted ones, the first tracked candidate under a header
/// root, trying the including file's directory first and each header
/// root in order after it.
pub open spec fn resolve_spec(
    inc_file: Seq<u8>,
    kind: IncludeKind,
    token: Seq<u8>,
    roots: Seq<Seq<u8>>,
    known: Set<Seq<u8>>,
) -> Option<Seq<u8>> {
    match kind {
        IncludeKind::Angled => Option::None,
        IncludeKind::Quoted => {
            let hrs = header_roots_spec(roots);
            let c1 = joined(parent_dir(inc_file), token);
            if known.contains(c1) && under_some(c1, hrs) {
                Some(c1)
            } else {
                first_hit(token, hrs, hrs, known)
            }
        },
    }
}

/// Resolves one directive token against the tracked files: the digest
/// table's keys stand for the files that exist within project scope.
pub fn resolve(
    inc_file: &Vec<u8>,
    kind: IncludeKind,
    token: &Vec<u8>,
    roots: &Vec<Vec<u8>>,
    known: &HashTable,
) -> (r: Option<Vec<u8>>)
    requires
        known.wf(),
    ensures
        match r {
            Some(p) => resolve_spec(inc_file@, kind, token@, roots.deep_view(), known@.dom())
                == Some(p@),
            Option::None => resolve_spec(inc_file@, kind, token@, roots.deep_view(), known@.dom())
                == Option::None::<Seq<u8>>,
        },
{
    match kind {
        IncludeKind::Angled => None,
        IncludeKind::Quoted => {
            let hrs = header_roots(roots);
            let dir = parent_of(inc_file);
            let c1 = join_normalize(&dir, token);
            let present = known.get(&c1);
            if present.is_some() && is_under_some(&c1, &hrs) {
                return Some(c1);
            }
            proof {
                if known@.dom().contains(c1@) && under_some(c1@, hrs.deep_view()) {
                    assert(false);
                }
            }
            let ghost hv = hrs.deep_view();
            let mut i: usize = 0;
            proof {
                assert(hv.skip(0) =~= hv);
            }
            while i < hrs.len()
                invariant
                    0 <= i <= hrs@.len(),
                    kind == IncludeKind::Quoted,
                    hv == hrs.deep_view(),
                    hv == header_roots_spec(roots.deep_view()),
                    known.wf(),
                    !(known@.dom().contains(joined(parent_dir(inc_file@), token@)) && under_some(
                        joined(parent_dir(inc_file@), token@),
                        hv,
                    )),
                    first_hit(token@, hv, hv, known@.dom()) == first_hit(
                        token@,
                        hv.skip(i as int),
                        hv,
                        known@.dom(),
                    ),
                decreases hrs@.len() - i,
            {
                proof {
                    assert(hv.skip(i as int)[0] == hv[i as int]);
                    assert(hv.skip(i as int).skip(1) =~= hv.skip(i + 1));
                    assert(hv[i as int] == hrs@[i as int]@);
                }
                let c = join_normalize(&hrs[i], token);
                let hit = known.get(&c);
                if hit.is_some() && is_under_some(&c, &hrs) {
                    proof {
                        assert(known@.dom().contains(c@));
                        assert(under_some(c@, hv));
                        assert(c@ == joined(hv.skip(i as int)[0], token@));
                        assert(first_hit(token@, hv.skip(i as int), hv, known@.dom()) == Some(c@));
                        assert(first_hit(token@, hv, hv, known@.dom()) == Some(c@));
                        let c1 = joined(parent_dir(inc_file@), token@);
                        assert(!(known@.dom().contains(c1) && under_some(c1, header_roots_spec(
                        roots.deep_view()))));
                        assert(kind == IncludeKind::Quoted);
                        assert(resolve_spec(inc_file@, kind, token@, roots.deep_view(),
                        known@.dom()) == Some(c@));
                    }
                    return Some(c);
                }
                proof {
                    if known@.dom().contains(c@) && under_some(c@, hv) {
                        assert(false);
                    }
                }
                i = i + 1;
            }
            proof {
                assert(hv.skip(hv.len() as int).len() == 0);
            }
            None
        },
    }
}

} // verus!
