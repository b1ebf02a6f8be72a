//! Which files a scan considers.
//!
//! A candidate file is kept when no ignore pattern occurs in its path
//! (plain substring match) and its extension is in the recognized set.
//! The set defaults to `c,h,hh,hpp,hxx,inc` and can be overridden by a
//! comma-separated list, each entry trimmed and stripped of leading
//! dots. Directory walking itself stays outside the library: these
//! functions judge paths handed to them.

use vstd::prelude::*;
use vstd::string::StringSliceAdditionalSpecFns;
use crate::digest::ext_of;
use crate::digest::extension;
use crate::order::Rank;
use crate::order::bytes_cmp;
use crate::order::insert_sorted;
use crate::order::sorted_strict;
use crate::parse::split_bytes;
use crate::parse::split_spec;

verus! {

/// An ASCII whitespace byte.
pub open spec fn is_space(b: u8) -> bool {
    b == 32 || b == 9 || b == 10 || b == 13 || b == 11 || b == 12
}

/// `s` without leading whitespace.
pub open spec fn trim_front(s: Seq<u8>) -> Seq<u8>
    decreases s.len(),
{
    if s.len() > 0 && is_space(s[0]) {
        trim_front(s.skip(1))
    } else {
        s
    }
}

/// `s` without trailing whitespace.
pub open spec fn trim_back(s: Seq<u8>) -> Seq<u8>
    decreases s.len(),
{
    if s.len() > 0 && is_space(s.last()) {
        trim_back(s.drop_last())
    } else {
        s
    }
}

/// `s` without leading or trailing whitespace.
pub open spec fn trim_spec(s: Seq<u8>) -> Seq<u8> {
    trim_back(trim_front(s))
}

/// `s` without leading dots.
pub open spec fn strip_dots(s: Seq<u8>) -> Seq<u8>
    decreases s.len(),
{
    if s.len() > 0 && s[0] == 46 {
        strip_dots(s.skip(1))
    } else {
        s
    }
}

/// Trims a byte string.
fn trim_bytes(s: &Vec<u8>) -> (r: Vec<u8>)
    ensures
        r@ == trim_spec(s@),
{
    let mut a: usize = 0;
    proof {
        assert(s@.skip(0) =~= s@);
    }
    while a < s.len() && (s[a] == 32 || s[a] == 9 || s[a] == 10 || s[a] == 13 || s[a] == 11
        || s[a] == 12)
        invariant
            0 <= a <= s@.len(),
            trim_front(s@) == trim_front(s@.skip(a as int)),
        decreases s@.len() - a,
    {
        proof {
            assert(s@.skip(a as int)[0] == s@[a as int]);
            assert(s@.skip(a as int).skip(1) =~= s@.skip(a + 1));
        }
        a = a + 1;
    }
    proof {
        if a < s@.len() {
            assert(s@.skip(a as int)[0] == s@[a as int]);
        }
        assert(trim_front(s@) == s@.skip(a as int));
    }
    let mut b: usize = s.len();
    while b > a && (s[b - 1] == 32 || s[b - 1] == 9 || s[b - 1] == 10 || s[b - 1] == 13 || s[b
        - 1] == 11 || s[b - 1] == 12)
        invariant
            a <= b <= s@.len(),
            trim_back(s@.skip(a as int)) == trim_back(s@.subrange(a as int, b as int)),
        decreases b,
    {
        proof {
            let cur = s@.subrange(a as int, b as int);
            assert(cur.last() == s@[b - 1]);
            assert(cur.drop_last() =~= s@.subrange(a as int, b - 1));
        }
        b = b - 1;
    }
    proof {
        let cur = s@.subrange(a as int, b as int);
        if b > a {
            assert(cur.last() == s@[b - 1]);
        }
        assert(trim_back(cur) == cur);
    }
    let mut out: Vec<u8> = Vec::new();
    let mut i: usize = a;
    while i < b
        invariant
            a <= i <= b <= s@.len(),
            out@ =~= s@.subrange(a as int, i as int),
        decreases b - i,
    {
        out.push(s[i]);
        i = i + 1;
    }
    proof {
        assert(out@ =~= s@.subrange(a as int, b as int));
    }
    out
}

/// Strips leading dots.
fn strip_dots_bytes(s: &Vec<u8>) -> (r: Vec<u8>)
    ensures
        r@ == strip_dots(s@),
{
    let mut a: usize = 0;
    proof {
        assert(s@.skip(0) =~= s@);
    }
    while a < s.len() && s[a] == 46
        invariant
            0 <= a <= s@.len(),
            strip_dots(s@) == strip_dots(s@.skip(a as int)),
        decreases s@.len() - a,
    {
        proof {
            assert(s@.skip(a as int)[0] == s@[a as int]);
            assert(s@.skip(a as int).skip(1) =~= s@.skip(a + 1));
        }
        a = a + 1;
    }
    proof {
        if a < s@.len() {
            assert(s@.skip(a as int)[0] == s@[a as int]);
        }
        assert(strip_dots(s@) == s@.skip(a as int));
    }
    let mut out: Vec<u8> = Vec::new();
    let mut i: usize = a;
    while i < s.len()
        invariant
            a <= i <= s@.len(),
            out@ =~= s@.subrange(a as int, i as int),
        decreases s@.len() - i,
    {
        out.push(s[i]);
        i = i + 1;
    }
    proof {
        assert(out@ =~= s@.skip(a as int));
    }
    out
}

/// The default comma-separated extension list.
pub open spec fn default_exts() -> Seq<u8> {
    ("c,h,hh,hpp,hxx,inc").spec_bytes()
}

/// The CSV an override resolves to: the given list, or the default.
pub open spec fn exts_input(o: Option<Seq<u8>>) -> Seq<u8> {
    match o {
        Some(v) => v,
        Option::None => default_exts(),
    }
}

/// The extension set a CSV denotes: each comma-separated entry whose
/// trimmed form is nonempty, trimmed and stripped of leading dots.
pub open spec fn ext_set_of(csv: Seq<u8>) -> Set<Seq<u8>> {
    Set::new(
        |x: Seq<u8>|
            exists|i: int|
                0 <= i < split_spec(csv, 44u8).len() && trim_spec(
                    #[trigger] split_spec(csv, 44u8)[i],
                ).len() != 0 && strip_dots(trim_spec(split_spec(csv, 44u8)[i])) == x,
    )
}

/// Parses an extension override (or the default list) into the sorted
/// recognized-extension set.
pub fn parse_exts(csv: &Option<Vec<u8>>) -> (r: Vec<Vec<u8>>)
    ensures
        sorted_strict(r.deep_view()),
        r.deep_view().to_set() == ext_set_of(
            exts_input(
                match csv {
                    Some(v) => Some(v@),
                    Option::None => Option::None,
                },
            ),
        ),
{
    let raw: Vec<u8> = match csv {
        Some(v) => v.clone(),
        None => {
            let mut d: Vec<u8> = Vec::new();
            let b = ("c,h,hh,hpp,hxx,inc").as_bytes();
            let mut i: usize = 0;
            while i < b.len()
                invariant
                    0 <= i <= b@.len(),
                    b@ == default_exts(),
                    d@ =~= b@.subrange(0, i as int),
                decreases b@.len() - i,
            {
                d.push(b[i]);
                i = i + 1;
            }
            proof {
                assert(d@ =~= default_exts());
            }
            d
        },
    };
    let ghost csvv = raw@;
    let pieces = split_bytes(&raw, 44);
    let ghost ps = pieces.deep_view();
    let mut out: Vec<Vec<u8>> = Vec::new();
    let mut i: usize = 0;
    proof {
        assert(out.deep_view().to_set() =~= Set::<Seq<u8>>::empty());
    }
    while i < pieces.len()
        invariant
            0 <= i <= ps.len(),
            ps == pieces.deep_view(),
            ps == split_spec(csvv, 44u8),
            sorted_strict(out.deep_view()),
            out.deep_view().to_set() =~= Set::new(
                |x: Seq<u8>|
                    exists|m: int|
                        0 <= m < i && trim_spec(#[trigger] ps[m]).len() != 0 && strip_dots(
                            trim_spec(ps[m]),
                        ) == x,
            ),
        decreases ps.len() - i,
    {
        proof {
            assert(ps[i as int] == pieces@[i as int]@);
        }
        let t = trim_bytes(&pieces[i]);
        let ghost before = out.deep_view().to_set();
        if t.len() > 0 {
            let e = strip_dots_bytes(&t);
            insert_sorted(&mut out, e);
        }
        proof {
            assert(out.deep_view().to_set() =~= Set::new(
                |x: Seq<u8>|
                    exists|m: int|
                        0 <= m < i + 1 && trim_spec(#[trigger] ps[m]).len() != 0 && strip_dots(
                            trim_spec(ps[m]),
                        ) == x,
            )) by {
                assert forall|x: Seq<u8>| out.deep_view().to_set().contains(x) implies (exists|
                    m: int,
                |
                    0 <= m < i + 1 && trim_spec(#[trigger] ps[m]).len() != 0 && strip_dots(
                        trim_spec(ps[m]),
                    ) == x) by {
                    if before.contains(x) {
                        let m = choose|m: int|
                            0 <= m < i && trim_spec(#[trigger] ps[m]).len() != 0 && strip_dots(
                                trim_spec(ps[m]),
                            ) == x;
                        assert(trim_spec(ps[m]).len() != 0 && strip_dots(trim_spec(ps[m])) == x);
                    } else {
                        assert(trim_spec(ps[i as int]).len() != 0 && strip_dots(
                            trim_spec(ps[i as int]),
                        ) == x);
                    }
                }
                assert forall|x: Seq<u8>|
                    (exists|m: int|
                        0 <= m < i + 1 && trim_spec(#[trigger] ps[m]).len() != 0 && strip_dots(
                            trim_spec(ps[m]),
                        ) == x) implies out.deep_view().to_set().contains(x) by {
                    let m = choose|m: int|
                        0 <= m < i + 1 && trim_spec(#[trigger] ps[m]).len() != 0 && strip_dots(
                            trim_spec(ps[m]),
                        ) == x;
                    if m < i {
                        assert(before.contains(x));
                    }
                }
            }
        }
        i = i + 1;
    }
    proof {
        assert(out.deep_view().to_set() =~= ext_set_of(csvv));
    }
    out
}

/// `pat` occurs in `s` as a contiguous substring.
pub open spec fn has_sub(s: Seq<u8>, pat: Seq<u8>) -> bool {
    exists|i: int| 0 <= i <= s.len() - pat.len() && #[trigger] s.subrange(i, i + pat.len()) == pat
}

/// Decides whether `pat` occurs in `s`.
pub fn contains_sub(s: &Vec<u8>, pat: &Vec<u8>) -> (b: bool)
    ensures
        b == has_sub(s@, pat@),
{
    let n: usize = s.len();
    if pat.len() > n {
        proof {
            if has_sub(s@, pat@) {
                let i = choose|i: int|
                    0 <= i <= s@.len() - pat@.len() && #[trigger] s@.subrange(i, i + pat@.len())
                        == pat@;
            }
        }
        return false;
    }
    let bound: usize = n - pat.len();
    let mut i: usize = 0;
    loop
        invariant_except_break
            0 <= i <= bound,
            n == s@.len(),
            bound == s@.len() - pat@.len(),
            forall|m: int| 0 <= m < i ==> #[trigger] s@.subrange(m, m + pat@.len()) != pat@,
        ensures
            forall|m: int| 0 <= m <= bound ==> #[trigger] s@.subrange(m, m + pat@.len()) != pat@,
        decreases bound - i,
    {
        let mut k: usize = 0;
        let mut hit = true;
        while k < pat.len()
            invariant_except_break
                0 <= k <= pat@.len(),
                n == s@.len(),
                i + pat@.len() <= n,
                hit,
                forall|m: int| 0 <= m < k ==> s@[i + m] == pat@[m],
            ensures
                0 <= k <= pat@.len(),
                hit ==> forall|m: int| 0 <= m < k ==> s@[i + m] == pat@[m],
                hit ==> k == pat@.len(),
                !hit ==> s@.subrange(i as int, i + pat@.len()) != pat@,
            decreases pat@.len() - k,
        {
            if s[i + k] != pat[k] {
                hit = false;
                proof {
                    if s@.subrange(i as int, i + pat@.len()) == pat@ {
                        assert(s@.subrange(i as int, i + pat@.len())[k as int] == pat@[k as int]);
                    }
                }
                break ;
            }
            k = k + 1;
        }
        if hit {
            proof {
                assert(s@.subrange(i as int, i + pat@.len()) =~= pat@);
            }
            return true;
        }
        if i == bound {
            break ;
        }
        i = i + 1;
    }
    proof {
        if has_sub(s@, pat@) {
            let m = choose|m: int|
                0 <= m <= s@.len() - pat@.len() && #[trigger] s@.subrange(m, m + pat@.len())
                    == pat@;
        }
    }
    false
}

/// No ignore pattern occurs in the path, and the path's extension is in
/// the recognized set.
pub open spec fn keeps_spec(p: Seq<u8>, igs: Seq<Seq<u8>>, exts: Set<Seq<u8>>) -> bool {
    &&& forall|i: int| 0 <= i < igs.len() ==> !has_sub(p, #[trigger] igs[i])
    &&& match ext_of(p) {
        Some(e) => exts.contains(e),
        Option::None => false,
    }
}

/// Decides whether a scan keeps the file at `p`, given the ignore
/// patterns and the recognized extensions (sorted or not).
pub fn keeps_file(p: &Vec<u8>, ignores: &Vec<Vec<u8>>, exts: &Vec<Vec<u8>>) -> (b: bool)
    ensures
        b == keeps_spec(p@, ignores.deep_view(), exts.deep_view().to_set()),
{
    let mut i: usize = 0;
    while i < ignores.len()
        invariant
            0 <= i <= ignores@.len(),
            forall|m: int| 0 <= m < i ==> !has_sub(p@, #[trigger] ignores.deep_view()[m]),
        decreases ignores@.len() - i,
    {
        proof {
            assert(ignores.deep_view()[i as int] == ignores@[i as int]@);
        }
        if contains_sub(p, &ignores[i]) {
            return false;
        }
        i = i + 1;
    }
    let ext = extension(p);
    match ext {
        Some(e) => {
            let mut j: usize = 0;
            while j < exts.len()
                invariant
                    0 <= j <= exts@.len(),
                    ext_of(p@) == Some(e@),
                    forall|m: int| 0 <= m < j ==> exts.deep_view()[m] != e@,
                    forall|m: int| 0 <= m < ignores@.len() ==> !has_sub(
                        p@,
                        #[trigger] ignores.deep_view()[m],
                    ),
                decreases exts@.len() - j,
            {
                proof {
                    assert(exts.deep_view()[j as int] == exts@[j as int]@);
                }
                let r = bytes_cmp(&exts[j], &e);
                if r == Rank::Same {
                    return true;
                }
                j = j + 1;
            }
            proof {
                if exts.deep_view().to_set().contains(e@) {
                    let m = choose|m: int|
                        0 <= m < exts.deep_view().len() && exts.deep_view()[m] == e@;
                }
            }
            false
        },
        None => false,
    }
}

} // verus!
