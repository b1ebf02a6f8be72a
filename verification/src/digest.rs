//! Content digests.
//!
//! A file's digest is a 64-bit FNV-1a hash of its semantically relevant
//! bytes: header-like files (extension `h`, `hh`, `hpp`, `hxx` or `inc`)
//! are comment-stripped first, every other file is hashed as it stands.
//! Digests are rendered as 16 lowercase hex digits when persisted.

use vstd::prelude::*;
use crate::strip::strip_spec;
use crate::strip::strip_comments;

verus! {

pub const FNV_OFFSET: u64 = 0xcbf29ce484222325;

pub const FNV_PRIME: u64 = 0x100000001b3;

/// One FNV-1a step: fold the byte in, multiply modulo 2^64.
pub open spec fn fnv_step(h: u64, b: u8) -> u64 {
    ((((h ^ (b as u64)) as int) * (FNV_PRIME as int)) % 0x10000000000000000) as u64
}

/// FNV-1a over `s`, starting from state `h`.
pub open spec fn fnv_from(h: u64, s: Seq<u8>) -> u64
    decreases s.len(),
{
    if s.len() == 0 {
        h
    } else {
        fnv_from(fnv_step(h, s[0]), s.skip(1))
    }
}

/// The FNV-1a hash of a byte string.
pub open spec fn fnv1a(s: Seq<u8>) -> u64 {
    fnv_from(FNV_OFFSET, s)
}

/// Computes the FNV-1a hash of `s`.
pub fn fnv1a_hash(s: &Vec<u8>) -> (r: u64)
    ensures
        r == fnv1a(s@),
{
    let mut h: u64 = FNV_OFFSET;
    let mut i: usize = 0;
    proof {
        assert(s@.skip(0) =~= s@);
    }
    while i < s.len()
        invariant
            0 <= i <= s.len(),
            fnv1a(s@) == fnv_from(h, s@.skip(i as int)),
        decreases s.len() - i,
    {
        proof {
            assert(s@.skip(i as int)[0] == s@[i as int]);
            assert(s@.skip(i as int).skip(1) =~= s@.skip(i + 1));
        }
        let x: u64 = h ^ (s[i] as u64);
        let p: u128 = (x as u128) * (FNV_PRIME as u128);
        let h2: u64 = (p % 0x10000000000000000u128) as u64;
        proof {
            assert(h2 == fnv_step(h, s@[i as int]));
        }
        h = h2;
        i = i + 1;
    }
    h
}

/// The hex digit (lowercase) for a value below 16.
pub open spec fn hex_digit(n: u8) -> u8 {
    if n < 10 {
        (n + 48) as u8
    } else {
        (n + 87) as u8
    }
}

/// 16 lowercase hex digits of a 64-bit value, most significant first.
pub open spec fn hex_of_u64(h: u64) -> Seq<u8> {
    Seq::new(16, |i: int| hex_digit(((h >> (((15 - i) * 4) as u64)) & 0xf) as u8))
}

/// Renders a digest as 16 lowercase hex digits.
pub fn hex_of(h: u64) -> (r: Vec<u8>)
    ensures
        r@ == hex_of_u64(h),
{
    let mut out: Vec<u8> = Vec::new();
    let mut i: usize = 0;
    while i < 16
        invariant
            0 <= i <= 16,
            out@.len() == i,
            forall|j: int| 0 <= j < i ==> out@[j] == hex_of_u64(h)[j],
        decreases 16 - i,
    {
        let sh: u64 = ((15 - i) * 4) as u64;
        let nib: u64 = (h >> sh) & 0xf;
        proof {
            assert((h >> sh) & 0xf < 16) by (bit_vector);
        }
        let d: u8 = nib as u8;
        let c: u8 = if d < 10 {
            d + 48
        } else {
            d + 87
        };
        proof {
            assert(c == hex_digit(d));
            assert(hex_of_u64(h)[i as int] == hex_digit(((h >> (((15 - i as int) * 4) as u64))
                & 0xf) as u8));
        }
        out.push(c);
        i = i + 1;
    }
    proof {
        assert(out@ =~= hex_of_u64(h));
    }
    out
}

/// `j` is the last position of `c` in `s`.
pub open spec fn last_pos(s: Seq<u8>, c: u8, j: int) -> bool {
    0 <= j < s.len() && s[j] == c && forall|k: int| j < k < s.len() ==> s[k] != c
}

/// Index where the final path component begins: just after the last `/`,
/// or 0 when the path has none.
pub open spec fn comp_start(p: Seq<u8>) -> int {
    if exists|j: int| last_pos(p, 47u8, j) {
        (choose|j: int| last_pos(p, 47u8, j)) + 1
    } else {
        0
    }
}

/// The extension of a path: the part of its final component after the
/// last dot, provided that dot is not the component's first byte.
pub open spec fn ext_of(p: Seq<u8>) -> Option<Seq<u8>> {
    let f = p.skip(comp_start(p));
    if exists|j: int| last_pos(f, 46u8, j) && j >= 1 {
        Some(f.skip((choose|j: int| last_pos(f, 46u8, j) && j >= 1) + 1))
    } else {
        Option::None
    }
}

/// Finds the last position of `c` in `s`, if any.
fn rfind(s: &Vec<u8>, c: u8) -> (r: Option<usize>)
    ensures
        match r {
            Some(j) => last_pos(s@, c, j as int),
            None => forall|k: int| 0 <= k < s@.len() ==> s@[k] != c,
        },
{
    let mut i: usize = s.len();
    while i > 0
        invariant
            0 <= i <= s@.len(),
            forall|k: int| i <= k < s@.len() ==> s@[k] != c,
        decreases i,
    {
        i = i - 1;
        if s[i] == c {
            return Some(i);
        }
    }
    None
}

/// Computes the extension of a path, if it has one.
pub fn extension(p: &Vec<u8>) -> (r: Option<Vec<u8>>)
    ensures
        match r {
            Some(e) => ext_of(p@) == Some(e@),
            None => ext_of(p@) == Option::None::<Seq<u8>>,
        },
{
    let n: usize = p.len();
    let slash = rfind(p, 47u8);
    let start: usize = match slash {
        Some(j) => {
            proof {
                assert(last_pos(p@, 47u8, j as int));
                assert(j < n);
            }
            j + 1
        },
        None => 0,
    };
    proof {
        assert(comp_start(p@) == start as int);
    }
    let mut f: Vec<u8> = Vec::new();
    let mut i: usize = start;
    while i < p.len()
        invariant
            start <= i <= p@.len(),
            f@ =~= p@.subrange(start as int, i as int),
        decreases p@.len() - i,
    {
        f.push(p[i]);
        i = i + 1;
    }
    proof {
        assert(f@ =~= p@.skip(start as int));
    }
    match rfind(&f, 46u8) {
        Some(j) => {
            if j == 0 {
                proof {
                    let fv = p@.skip(comp_start(p@));
                    assert forall|m: int| !(last_pos(fv, 46u8, m) && m >= 1) by {
                        if last_pos(fv, 46u8, m) && m >= 1 {
                            assert(fv[m] == 46u8);
                        }
                    }
                }
                None
            } else {
                let mut e: Vec<u8> = Vec::new();
                let mut k: usize = j + 1;
                while k < f.len()
                    invariant
                        j + 1 <= k <= f@.len(),
                        e@ =~= f@.subrange(j + 1, k as int),
                    decreases f@.len() - k,
                {
                    e.push(f[k]);
                    k = k + 1;
                }
                proof {
                    let fv = p@.skip(comp_start(p@));
                    assert(last_pos(fv, 46u8, j as int) && j >= 1);
                    let w = choose|m: int| last_pos(fv, 46u8, m) && m >= 1;
                    assert(fv[w] == 46u8);
                    assert(w == j as int);
                    assert(e@ =~= fv.skip(j + 1));
                }
                Some(e)
            }
        },
        None => {
            proof {
                let fv = p@.skip(comp_start(p@));
                assert forall|m: int| !(last_pos(fv, 46u8, m) && m >= 1) by {
                    if last_pos(fv, 46u8, m) {
                        assert(fv[m] == 46u8);
                    }
                }
            }
            None
        },
    }
}

/// The fixed set of header-like extensions.
pub open spec fn is_header_ext(e: Seq<u8>) -> bool {
    ||| e == seq![104u8]  // h
    ||| e == seq![104u8, 104u8]  // hh
    ||| e == seq![104u8, 112u8, 112u8]  // hpp
    ||| e == seq![104u8, 120u8, 120u8]  // hxx
    ||| e == seq![105u8, 110u8, 99u8]  // inc
}

/// Whether a path names a header-like file.
pub open spec fn is_header_name(p: Seq<u8>) -> bool {
    match ext_of(p) {
        Some(e) => is_header_ext(e),
        None => false,
    }
}

/// Whether a path names a translation unit (extension `c`).
pub open spec fn is_unit_name(p: Seq<u8>) -> bool {
    ext_of(p) == Some(seq![99u8])
}

/// Decides whether a path names a header-like file.
pub fn is_header_file(p: &Vec<u8>) -> (r: bool)
    ensures
        r == is_header_name(p@),
{
    match extension(p) {
        Some(e) => {
            let r = (e.len() == 1 && e[0] == 104) || (e.len() == 2 && e[0] == 104 && e[1] == 104)
                || (e.len() == 3 && e[0] == 104 && e[1] == 112 && e[2] == 112) || (e.len() == 3
                && e[0] == 104 && e[1] == 120 && e[2] == 120) || (e.len() == 3 && e[0] == 105
                && e[1] == 110 && e[2] == 99);
            proof {
                if e@ =~= seq![104u8] || e@ =~= seq![104u8, 104u8] || e@ =~= seq![
                    104u8,
                    112u8,
                    112u8,
                ] || e@ =~= seq![104u8, 120u8, 120u8] || e@ =~= seq![105u8, 110u8, 99u8] {
                }
                if is_header_ext(e@) && !r {
                    assert(false);
                }
                if r {
                    assert(is_header_ext(e@));
                }
            }
            r
        },
        None => false,
    }
}

/// Decides whether a path names a translation unit.
pub fn is_unit_file(p: &Vec<u8>) -> (r: bool)
    ensures
        r == is_unit_name(p@),
{
    match extension(p) {
        Some(e) => {
            let r = e.len() == 1 && e[0] == 99;
            proof {
                if r {
                    assert(e@ =~= seq![99u8]);
                }
            }
            r
        },
        None => false,
    }
}

/// The digest of a file's content: header-like files are comment-stripped
/// first, all others are hashed unmodified.
pub open spec fn digest_spec(p: Seq<u8>, content: Seq<u8>) -> u64 {
    if is_header_name(p) {
        fnv1a(strip_spec(content))
    } else {
        fnv1a(content)
    }
}

/// Computes the digest of a file from its path and raw content.
pub fn file_digest(p: &Vec<u8>, content: &Vec<u8>) -> (r: u64)
    ensures
        r == digest_spec(p@, content@),
{
    if is_header_file(p) {
        let stripped = strip_comments(content);
        fnv1a_hash(&stripped)
    } else {
        fnv1a_hash(content)
    }
}

} // verus!
