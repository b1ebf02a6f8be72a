//! The persisted index artifact.
//!
//! An index is written as a flat run of records, each a tag byte followed
//! by length-prefixed fields (`<decimal length>:<bytes>`): `R` for each
//! scanned root, `H` for each path and its digest as 16 lowercase hex
//! digits, `E` for each forward edge (includer, then included), and `V`
//! for each reverse edge (included, then includer). Tables are kept
//! sorted, so the same index contents always produce the same bytes.
//!
//! Loading parses the records, rebuilds the index, and accepts the input
//! only if the rebuilt index writes back to exactly the given bytes:
//! anything else (a truncated file, foreign bytes, a non-canonical
//! layout) is structurally unreadable and is rejected, never guessed at.

use vstd::prelude::*;
use crate::digest::hex_digit;
use crate::digest::hex_of;
use crate::digest::hex_of_u64;
use crate::graph::HashTable;
use crate::graph::IncludeMapping;
use crate::graph::Index;
use crate::graph::map_add;
use crate::order::Rank;
use crate::order::bytes_cmp;
use crate::order::sort_unique;

verus! {

/// The decimal digits of `n`, most significant first.
pub open spec fn dec_of(n: nat) -> Seq<u8>
    decreases n,
{
    if n < 10 {
        seq![(48 + n) as u8]
    } else {
        dec_of(n / 10) + seq![(48 + n % 10) as u8]
    }
}

/// A length-prefixed field: the length in decimal, a colon, the bytes.
pub open spec fn ns(b: Seq<u8>) -> Seq<u8> {
    dec_of(b.len()) + seq![58u8] + b
}


/// The value a digit string denotes, most significant first.
pub open spec fn dec_val(s: Seq<u8>) -> int
    decreases s.len(),
{
    if s.len() == 0 {
        0
    } else {
        dec_val(s.drop_last()) * 10 + (s.last() as int - 48)
    }
}

/// Every byte of a rendered length is a decimal digit.
pub proof fn lemma_dec_digits(v: nat)
    ensures
        forall|j: int| 0 <= j < dec_of(v).len() ==> 48 <= #[trigger] dec_of(v)[j] <= 57,
    decreases v,
{
    if v >= 10 {
        lemma_dec_digits(v / 10);
        assert forall|j: int| 0 <= j < dec_of(v).len() implies 48 <= #[trigger] dec_of(v)[j]
            <= 57 by {
            if j < dec_of(v / 10).len() {
                assert(dec_of(v)[j] == dec_of(v / 10)[j]);
            } else {
                assert(dec_of(v)[j] == (48 + v % 10) as u8);
            }
        }
    }
}

/// Reading a rendered length back gives the length.
pub proof fn lemma_dec_val_of(v: nat)
    ensures
        dec_of(v).len() >= 1,
        dec_val(dec_of(v)) == v,
    decreases v,
{
    if v < 10 {
        assert(dec_of(v) == seq![(48 + v) as u8]);
        assert(dec_of(v).len() == 1);
        assert(dec_of(v).drop_last() =~= Seq::<u8>::empty());
        assert(dec_val(dec_of(v).drop_last()) == 0);
        assert(dec_of(v).last() == (48 + v) as u8);
        assert(((48 + v) as u8) as int == 48 + v);
        assert(dec_val(dec_of(v)) == dec_val(dec_of(v).drop_last()) * 10 + (dec_of(v).last() as int
            - 48));
    } else {
        lemma_dec_val_of(v / 10);
        assert(dec_of(v).len() == dec_of(v / 10).len() + 1);
        assert(dec_of(v).drop_last() =~= dec_of(v / 10));
        assert(dec_of(v).last() == (48 + v % 10) as u8);
        assert(((48 + v % 10) as u8) as int == 48 + (v % 10) as int);
        assert(dec_val(dec_of(v)) == dec_val(dec_of(v).drop_last()) * 10 + (dec_of(v).last() as int
            - 48));
        assert((v / 10) * 10 + v % 10 == v);
    }
}

/// Any prefix of a rendered length denotes at most the length itself.
pub proof fn lemma_dec_prefix(v: nat, k: int)
    requires
        0 <= k <= dec_of(v).len(),
    ensures
        dec_val(dec_of(v).subrange(0, k)) <= v,
    decreases v,
{
    if k == dec_of(v).len() {
        lemma_dec_val_of(v);
        assert(dec_of(v).subrange(0, k) =~= dec_of(v));
    } else if v < 10 {
        assert(dec_of(v).subrange(0, 0) =~= Seq::<u8>::empty());
    } else {
        assert(dec_of(v).subrange(0, k) =~= dec_of(v / 10).subrange(0, k)) by {
            assert(k <= dec_of(v / 10).len());
            assert forall|j: int| 0 <= j < k implies dec_of(v).subrange(0, k)[j] == dec_of(
                v / 10,
            ).subrange(0, k)[j] by {
                assert(dec_of(v)[j] == dec_of(v / 10)[j]);
            }
        }
        lemma_dec_prefix(v / 10, k);
    }
}

/// The root records.
pub open spec fn ser_roots(rs: Seq<Seq<u8>>) -> Seq<u8>
    decreases rs.len(),
{
    if rs.len() == 0 {
        Seq::empty()
    } else {
        seq![82u8] + ns(rs[0]) + ser_roots(rs.skip(1))
    }
}

/// The digest records.
pub open spec fn ser_hashes(keys: Seq<Seq<u8>>, vals: Seq<u64>) -> Seq<u8>
    decreases keys.len(),
{
    if keys.len() == 0 || vals.len() == 0 {
        Seq::empty()
    } else {
        seq![72u8] + ns(keys[0]) + ns(hex_of_u64(vals[0])) + ser_hashes(
            keys.skip(1),
            vals.skip(1),
        )
    }
}

/// The records of one edge row: the tag, the key, one value each.
pub open spec fn ser_row(tag: u8, k: Seq<u8>, vs: Seq<Seq<u8>>) -> Seq<u8>
    decreases vs.len(),
{
    if vs.len() == 0 {
        Seq::empty()
    } else {
        seq![tag] + ns(k) + ns(vs[0]) + ser_row(tag, k, vs.skip(1))
    }
}

/// The records of a whole edge table.
pub open spec fn ser_table(tag: u8, keys: Seq<Seq<u8>>, vals: Seq<Seq<Seq<u8>>>) -> Seq<u8>
    decreases keys.len(),
{
    if keys.len() == 0 || vals.len() == 0 {
        Seq::empty()
    } else {
        ser_row(tag, keys[0], vals[0]) + ser_table(tag, keys.skip(1), vals.skip(1))
    }
}

/// The whole artifact.
pub open spec fn serial_spec(idx: Index) -> Seq<u8> {
    ser_roots(idx.roots.deep_view()) + ser_hashes(
        idx.hashes.keys.deep_view(),
        idx.hashes.vals@,
    ) + ser_table(69u8, idx.fwd.keys.deep_view(), idx.fwd.vals.deep_view()) + ser_table(
        86u8,
        idx.rev.keys.deep_view(),
        idx.rev.vals.deep_view(),
    )
}

/// Renders `n` in decimal.
fn dec_render(n: usize) -> (r: Vec<u8>)
    ensures
        r@ == dec_of(n as nat),
    decreases n,
{
    if n < 10 {
        let mut r: Vec<u8> = Vec::new();
        r.push(48 + (n as u8));
        proof {
            assert(r@ =~= dec_of(n as nat));
        }
        r
    } else {
        let mut r = dec_render(n / 10);
        r.push(48 + ((n % 10) as u8));
        proof {
            assert(r@ =~= dec_of((n / 10) as nat) + seq![(48 + (n as nat) % 10) as u8]);
        }
        r
    }
}

/// Appends a length-prefixed field.
fn push_ns(out: &mut Vec<u8>, b: &Vec<u8>)
    ensures
        final(out)@ == old(out)@ + ns(b@),
{
    let ghost start = out@;
    let mut digits = dec_render(b.len());
    out.append(&mut digits);
    out.push(58);
    let mut i: usize = 0;
    let ghost mid = out@;
    while i < b.len()
        invariant
            0 <= i <= b@.len(),
            out@ =~= mid + b@.subrange(0, i as int),
        decreases b@.len() - i,
    {
        out.push(b[i]);
        i = i + 1;
    }
    proof {
        assert(out@ =~= start + ns(b@));
    }
}

/// Writes an index as its canonical artifact bytes.
pub fn serialize_index(idx: &Index) -> (r: Vec<u8>)
    ensures
        r@ == serial_spec(*idx),
{
    let mut out: Vec<u8> = Vec::new();
    // roots
    let ghost rs = idx.roots.deep_view();
    let mut i: usize = 0;
    proof {
        assert(rs.skip(0) =~= rs);
    }
    while i < idx.roots.len()
        invariant
            0 <= i <= idx.roots@.len(),
            rs == idx.roots.deep_view(),
            ser_roots(rs) == out@ + ser_roots(rs.skip(i as int)),
        decreases idx.roots@.len() - i,
    {
        proof {
            assert(rs.skip(i as int)[0] == rs[i as int]);
            assert(rs.skip(i as int).skip(1) =~= rs.skip(i + 1));
            assert(rs[i as int] == idx.roots@[i as int]@);
        }
        out.push(82);
        push_ns(&mut out, &idx.roots[i]);
        i = i + 1;
    }
    proof {
        assert(ser_roots(rs.skip(rs.len() as int)) =~= Seq::<u8>::empty());
        assert(out@ =~= ser_roots(rs));
    }
    // digests
    let ghost hk = idx.hashes.keys.deep_view();
    let ghost hv = idx.hashes.vals@;
    let ghost base1 = out@;
    let mut j: usize = 0;
    proof {
        assert(hk.skip(0) =~= hk);
        assert(hv.skip(0) =~= hv);
    }
    while j < idx.hashes.keys.len() && j < idx.hashes.vals.len()
        invariant
            0 <= j <= hk.len(),
            0 <= j <= hv.len(),
            hk == idx.hashes.keys.deep_view(),
            hv == idx.hashes.vals@,
            base1 + ser_hashes(hk, hv) == out@ + ser_hashes(hk.skip(j as int), hv.skip(j as int)),
        decreases hk.len() - j,
    {
        proof {
            assert(hk.skip(j as int)[0] == hk[j as int]);
            assert(hk.skip(j as int).skip(1) =~= hk.skip(j + 1));
            assert(hv.skip(j as int)[0] == hv[j as int]);
            assert(hv.skip(j as int).skip(1) =~= hv.skip(j + 1));
            assert(hk[j as int] == idx.hashes.keys@[j as int]@);
        }
        out.push(72);
        push_ns(&mut out, &idx.hashes.keys[j]);
        let hex = hex_of(idx.hashes.vals[j]);
        push_ns(&mut out, &hex);
        j = j + 1;
    }
    proof {
        assert(j >= hk.len() || j >= hv.len());
        assert(ser_hashes(hk.skip(j as int), hv.skip(j as int)) =~= Seq::<u8>::empty());
        assert(out@ =~= base1 + ser_hashes(hk, hv));
    }
    // the two edge tables
    serialize_table(&mut out, 69, &idx.fwd.keys, &idx.fwd.vals);
    proof {
        assert(out@ =~= base1 + ser_hashes(hk, hv) + ser_table(
            69u8,
            idx.fwd.keys.deep_view(),
            idx.fwd.vals.deep_view(),
        ));
    }
    serialize_table(&mut out, 86, &idx.rev.keys, &idx.rev.vals);
    proof {
        assert(out@ =~= serial_spec(*idx));
    }
    out
}

/// Appends the records of one edge table.
fn serialize_table(out: &mut Vec<u8>, tag: u8, keys: &Vec<Vec<u8>>, vals: &Vec<Vec<Vec<u8>>>)
    ensures
        final(out)@ == old(out)@ + ser_table(tag, keys.deep_view(), vals.deep_view()),
{
    let ghost kv = keys.deep_view();
    let ghost vv = vals.deep_view();
    let ghost base = out@;
    let mut i: usize = 0;
    proof {
        assert(kv.skip(0) =~= kv);
        assert(vv.skip(0) =~= vv);
    }
    while i < keys.len() && i < vals.len()
        invariant
            0 <= i <= kv.len(),
            0 <= i <= vv.len(),
            kv == keys.deep_view(),
            vv == vals.deep_view(),
            base + ser_table(tag, kv, vv) == out@ + ser_table(
                tag,
                kv.skip(i as int),
                vv.skip(i as int),
            ),
        decreases kv.len() - i,
    {
        proof {
            assert(kv.skip(i as int)[0] == kv[i as int]);
            assert(kv.skip(i as int).skip(1) =~= kv.skip(i + 1));
            assert(vv.skip(i as int)[0] == vv[i as int]);
            assert(vv.skip(i as int).skip(1) =~= vv.skip(i + 1));
            assert(kv[i as int] == keys@[i as int]@);
            assert(vv[i as int] == vals@[i as int].deep_view());
        }
        let row = &vals[i];
        let key = &keys[i];
        let ghost rv = row.deep_view();
        let ghost rowbase = out@;
        let mut j: usize = 0;
        proof {
            assert(rv.skip(0) =~= rv);
        }
        while j < row.len()
            invariant
                0 <= j <= rv.len(),
                rv == row.deep_view(),
                key@ == kv[i as int],
                rowbase + ser_row(tag, kv[i as int], rv) == out@ + ser_row(
                    tag,
                    kv[i as int],
                    rv.skip(j as int),
                ),
            decreases rv.len() - j,
        {
            proof {
                assert(rv.skip(j as int)[0] == rv[j as int]);
                assert(rv.skip(j as int).skip(1) =~= rv.skip(j + 1));
                assert(rv[j as int] == row@[j as int]@);
            }
            out.push(tag);
            push_ns(out, key);
            push_ns(out, &row[j]);
            j = j + 1;
        }
        proof {
            assert(ser_row(tag, kv[i as int], rv.skip(rv.len() as int)) =~= Seq::<u8>::empty());
            assert(out@ =~= rowbase + ser_row(tag, kv[i as int], rv));
        }
        i = i + 1;
    }
    proof {
        assert(ser_table(tag, kv.skip(i as int), vv.skip(i as int)) =~= Seq::<u8>::empty());
        assert(out@ =~= base + ser_table(tag, kv, vv));
    }
}

/// Whether two byte strings are equal.
pub fn bytes_eq(a: &Vec<u8>, b: &Vec<u8>) -> (r: bool)
    ensures
        r == (a@ == b@),
{
    let c = bytes_cmp(a, b);
    c == Rank::Same
}

/// Reads one length-prefixed field at `pos`. Reading never fails on a
/// well-formed field: wherever the suffix at `pos` starts with some
/// `ns(x)`, the read returns exactly `x` and stops exactly after it.
#[verifier::rlimit(60)]
fn read_ns(data: &Vec<u8>, pos: usize) -> (r: Option<(Vec<u8>, usize)>)
    requires
        pos <= data@.len(),
    ensures
        match r {
            Some(p) => pos < p.1 <= data@.len(),
            Option::None => true,
        },
        forall|x: Seq<u8>, rest: Seq<u8>| #![trigger ns(x) + rest]
            data@.skip(pos as int) == ns(x) + rest ==> r.is_some() && r.unwrap().0@ == x
                && r.unwrap().1 == pos + ns(x).len(),
{
    let n: usize = data.len();
    let mut i: usize = pos;
    let mut acc: u128 = 0;
    while i < n && data[i] >= 48 && data[i] <= 57
        invariant
            pos <= i <= n,
            n == data@.len(),
            forall|k: int| pos <= k < i ==> 48 <= #[trigger] data@[k] <= 57,
            acc == dec_val(data@.subrange(pos as int, i as int)),
            acc <= 10 * (n as int) + 9,
        decreases n - i,
    {
        if acc > n as u128 {
            proof {
                assert forall|x: Seq<u8>, rest: Seq<u8>| #![trigger ns(x) + rest]
                    data@.skip(pos as int) != ns(x) + rest by {
                    if data@.skip(pos as int) == ns(x) + rest {
                        lemma_ns_head(data@, pos as int, x, rest);
                        let dl = dec_of(x.len()).len() as int;
                        assert(i - pos <= dl) by {
                            if i - pos > dl {
                                assert(48 <= data@[pos + dl] <= 57);
                                assert(data@[pos + dl] == 58);
                            }
                        }
                        assert(data@.subrange(pos as int, i as int) =~= dec_of(
                            x.len(),
                        ).subrange(0, i - pos)) by {
                            assert forall|j: int| 0 <= j < i - pos implies data@.subrange(
                                pos as int,
                                i as int,
                            )[j] == dec_of(x.len()).subrange(0, i - pos)[j] by {
                                assert(data@[pos + j] == dec_of(x.len())[j]);
                            }
                        }
                        lemma_dec_prefix(x.len(), i - pos);
                        assert(x.len() + 2 <= n - pos);
                    }
                }
            }
            return None;
        }
        let d: u8 = data[i] - 48;
        acc = acc * 10 + (d as u128);
        proof {
            assert(data@.subrange(pos as int, i + 1).drop_last() =~= data@.subrange(
                pos as int,
                i as int,
            ));
            assert(data@.subrange(pos as int, i + 1).last() == data@[i as int]);
        }
        i = i + 1;
    }
    if i == pos {
        proof {
            assert forall|x: Seq<u8>, rest: Seq<u8>| #![trigger ns(x) + rest]
                data@.skip(pos as int) != ns(x) + rest by {
                if data@.skip(pos as int) == ns(x) + rest {
                    lemma_ns_head(data@, pos as int, x, rest);
                    assert(48 <= data@[pos as int + 0] <= 57);
                    assert(pos < n);
                }
            }
        }
        return None;
    }
    if i >= n || data[i] != 58 {
        proof {
            assert forall|x: Seq<u8>, rest: Seq<u8>| #![trigger ns(x) + rest]
                data@.skip(pos as int) != ns(x) + rest by {
                if data@.skip(pos as int) == ns(x) + rest {
                    lemma_ns_head(data@, pos as int, x, rest);
                    lemma_run_stop(data@, pos as int, i as int, x);
                }
            }
        }
        return None;
    }
    i = i + 1;
    let rem: u128 = (n - i) as u128;
    if rem < acc {
        proof {
            assert forall|x: Seq<u8>, rest: Seq<u8>| #![trigger ns(x) + rest]
                data@.skip(pos as int) != ns(x) + rest by {
                if data@.skip(pos as int) == ns(x) + rest {
                    lemma_ns_head(data@, pos as int, x, rest);
                    lemma_run_stop(data@, pos as int, (i - 1) as int, x);
                    lemma_dec_val_of(x.len());
                    assert(data@.subrange(pos as int, i - 1) =~= dec_of(x.len()));
                    assert(x.len() <= n - i);
                }
            }
        }
        return None;
    }
    proof {
        assert(acc <= rem);
    }
    let len: usize = acc as usize;
    let mut field: Vec<u8> = Vec::new();
    let mut k: usize = 0;
    while k < len
        invariant
            0 <= k <= len,
            i + len <= n,
            n == data@.len(),
            field@ =~= data@.subrange(i as int, i + k),
        decreases len - k,
    {
        field.push(data[i + k]);
        k = k + 1;
    }
    proof {
        assert forall|x: Seq<u8>, rest: Seq<u8>| #![trigger ns(x) + rest]
            data@.skip(pos as int) == ns(x) + rest implies field@ == x && i + len == pos + ns(
            x,
        ).len() by {
            lemma_ns_head(data@, pos as int, x, rest);
            lemma_run_stop(data@, pos as int, (i - 1) as int, x);
            lemma_dec_val_of(x.len());
            assert(data@.subrange(pos as int, i - 1) =~= dec_of(x.len()));
            assert(len == x.len());
            assert(field@ =~= x) by {
                assert forall|m: int| 0 <= m < x.len() implies data@[i + m] == x[m] by {
                    assert(data@.skip(pos as int)[(i - pos) + m] == data@[i + m]);
                    assert((ns(x) + rest)[(i - pos) + m] == x[m]);
                }
            }
        }
    }
    Some((field, i + len))
}

/// When the suffix at `pos` starts with `ns(x)`: the rendered length
/// sits first, then a colon, then `x`, with everything in bounds.
proof fn lemma_ns_head(data: Seq<u8>, pos: int, x: Seq<u8>, rest: Seq<u8>)
    requires
        0 <= pos <= data.len(),
        data.skip(pos) == ns(x) + rest,
    ensures
        dec_of(x.len()).len() >= 1,
        pos + dec_of(x.len()).len() + 1 + x.len() <= data.len(),
        forall|j: int|
            0 <= j < dec_of(x.len()).len() ==> #[trigger] data[pos + j] == dec_of(x.len())[j]
                && 48 <= data[pos + j] <= 57,
        data[pos + dec_of(x.len()).len()] == 58,
        forall|m: int|
            0 <= m < x.len() ==> #[trigger] data[pos + dec_of(x.len()).len() + 1 + m] == x[m],
{
    lemma_dec_val_of(x.len());
    lemma_dec_digits(x.len());
    let dl = dec_of(x.len()).len() as int;
    assert(data.skip(pos).len() == ns(x).len() + rest.len());
    assert forall|j: int| 0 <= j < dl implies #[trigger] data[pos + j] == dec_of(x.len())[j]
        && 48 <= data[pos + j] <= 57 by {
        assert(data.skip(pos)[j] == data[pos + j]);
        assert((ns(x) + rest)[j] == ns(x)[j]);
        assert(ns(x)[j] == dec_of(x.len())[j]);
    }
    assert(data.skip(pos)[dl] == data[pos + dl]);
    assert((ns(x) + rest)[dl] == ns(x)[dl]);
    assert(ns(x)[dl] == 58);
    assert forall|m: int| 0 <= m < x.len() implies #[trigger] data[pos + dl + 1 + m] == x[m] by {
        assert(data.skip(pos)[dl + 1 + m] == data[pos + dl + 1 + m]);
        assert((ns(x) + rest)[dl + 1 + m] == ns(x)[dl + 1 + m]);
        assert(ns(x)[dl + 1 + m] == x[m]);
    }
}

/// A maximal digit run starting at a rendered length stops exactly at
/// the colon after it.
proof fn lemma_run_stop(data: Seq<u8>, pos: int, i: int, x: Seq<u8>)
    requires
        0 <= pos <= i <= data.len(),
        pos + dec_of(x.len()).len() + 1 + x.len() <= data.len(),
        forall|j: int|
            0 <= j < dec_of(x.len()).len() ==> #[trigger] data[pos + j] == dec_of(x.len())[j]
                && 48 <= data[pos + j] <= 57,
        data[pos + dec_of(x.len()).len()] == 58,
        forall|k: int| pos <= k < i ==> 48 <= #[trigger] data[k] <= 57,
        i == data.len() || !(48 <= data[i] <= 57),
    ensures
        i == pos + dec_of(x.len()).len(),
        i < data.len(),
        data[i] == 58,
{
    let dl = dec_of(x.len()).len() as int;
    if i > pos + dl {
        assert(48 <= data[pos + dl] <= 57);
    }
    if i < pos + dl {
        assert(48 <= data[pos + (i - pos)] <= 57);
        assert(i < data.len());
    }
}

/// How far a table section has been read: `j` full rows and `l` records
/// of row `j` are folded into `m`, and the bytes still to read are the
/// rest of the section followed by `after`.
pub open spec fn tab_state(
    tag: u8,
    keys: Seq<Seq<u8>>,
    vals: Seq<Seq<Seq<u8>>>,
    m: Map<Seq<u8>, Set<Seq<u8>>>,
    suffix: Seq<u8>,
    after: Seq<u8>,
    j: int,
    l: int,
) -> bool {
    if j == keys.len() {
        l == 0 && m == table_fold(keys, vals, keys.len() as int) && suffix == after
    } else {
        &&& 0 <= j < keys.len()
        &&& 0 <= l <= vals[j].len()
        &&& m == row_fold(table_fold(keys, vals, j), keys[j], vals[j], l)
        &&& suffix == ser_row(tag, keys[j], vals[j].skip(l)) + ser_table(
            tag,
            keys.skip(j + 1),
            vals.skip(j + 1),
        ) + after
    }
}

/// A nonempty artifact suffix that still holds digest records or later
/// sections starts with one of their tags.
proof fn lemma_tail_hashes_first(i: Index)
    ensures
        tail_hashes(i).len() > 0 ==> (tail_hashes(i)[0] == 72 || tail_hashes(i)[0] == 69
            || tail_hashes(i)[0] == 86),
{
    let hs = ser_hashes(i.hashes.keys.deep_view(), i.hashes.vals@);
    if hs.len() > 0 {
        assert(tail_hashes(i)[0] == hs[0]);
        assert(hs[0] == 72);
    } else {
        assert(tail_hashes(i) =~= tail_fwd(i));
        lemma_tail_fwd_first(i);
    }
}

/// A nonempty suffix of the two edge sections starts with `E` or `V`.
proof fn lemma_tail_fwd_first(i: Index)
    ensures
        tail_fwd(i).len() > 0 ==> (tail_fwd(i)[0] == 69 || tail_fwd(i)[0] == 86),
{
    let fs = ser_table(69u8, i.fwd.keys.deep_view(), i.fwd.vals.deep_view());
    lemma_table_first(69u8, i.fwd.keys.deep_view(), i.fwd.vals.deep_view());
    if fs.len() > 0 {
        assert(tail_fwd(i)[0] == fs[0]);
    } else {
        assert(tail_fwd(i) =~= tail_rev(i));
        lemma_tail_rev_first(i);
    }
}

/// A nonempty reverse-edge section starts with `V`.
proof fn lemma_tail_rev_first(i: Index)
    ensures
        tail_rev(i).len() > 0 ==> tail_rev(i)[0] == 86,
{
    lemma_table_first(86u8, i.rev.keys.deep_view(), i.rev.vals.deep_view());
}

/// A table-section state whose suffix continues with the section's own
/// tag has a record to read at `(j, l)` with `l` strictly inside row `j`
/// (stepping over a finished row first); one whose suffix starts
/// otherwise is finished.
proof fn lemma_tab_step(
    tag: u8,
    keys: Seq<Seq<u8>>,
    vals: Seq<Seq<Seq<u8>>>,
    m: Map<Seq<u8>, Set<Seq<u8>>>,
    suffix: Seq<u8>,
    after: Seq<u8>,
    j: int,
    l: int,
)
    requires
        keys.len() == vals.len(),
        forall|w: int| 0 <= w < vals.len() ==> #[trigger] vals[w].len() > 0,
        tab_state(tag, keys, vals, m, suffix, after, j, l),
        after.len() > 0 ==> after[0] != tag,
    ensures
        (suffix.len() > 0 && suffix[0] == tag) ==> exists|j2: int, l2: int|
            #[trigger] tab_state(tag, keys, vals, m, suffix, after, j2, l2) && j2 < keys.len()
                && l2 < vals[j2].len(),
        !(suffix.len() > 0 && suffix[0] == tag) ==> m == table_fold(keys, vals, keys.len() as int)
            && suffix == after,
    decreases keys.len() - j,
{
    if j == keys.len() {
        assert(suffix == after);
    } else {
        if l < vals[j].len() {
            // a record is next: the suffix starts with the tag
            assert(vals[j].skip(l).len() > 0);
            assert(ser_row(tag, keys[j], vals[j].skip(l))[0] == tag);
            assert(suffix[0] == tag);
            assert(tab_state(tag, keys, vals, m, suffix, after, j, l));
        } else {
            // the row is finished: step to the next row
            assert(vals[j].skip(l) =~= Seq::<Seq<u8>>::empty());
            assert(ser_row(tag, keys[j], vals[j].skip(l)) =~= Seq::<u8>::empty());
            assert(vals[j].subrange(0, l) =~= vals[j]);
            assert(m == table_fold(keys, vals, j + 1)) by {
                assert(row_fold(table_fold(keys, vals, j), keys[j], vals[j], l) == table_fold(
                    keys,
                    vals,
                    j + 1,
                ));
            }
            if j + 1 == keys.len() {
                assert(ser_table(tag, keys.skip(j + 1), vals.skip(j + 1)) =~= Seq::<u8>::empty());
                assert(suffix =~= after);
                assert(tab_state(tag, keys, vals, m, suffix, after, j + 1, 0));
                lemma_tab_step(tag, keys, vals, m, suffix, after, j + 1, 0);
            } else {
                assert(suffix =~= ser_table(tag, keys.skip(j + 1), vals.skip(j + 1)) + after);
                assert(keys.skip(j + 1)[0] == keys[j + 1]);
                assert(vals.skip(j + 1)[0] == vals[j + 1]);
                assert(keys.skip(j + 1).skip(1) =~= keys.skip(j + 2));
                assert(vals.skip(j + 1).skip(1) =~= vals.skip(j + 2));
                assert(vals[j + 1].skip(0) =~= vals[j + 1]);
                assert(suffix =~= ser_row(tag, keys[j + 1], vals[j + 1].skip(0)) + ser_table(
                    tag,
                    keys.skip(j + 2),
                    vals.skip(j + 2),
                ) + after);
                assert(tab_state(tag, keys, vals, m, suffix, after, j + 1, 0));
                lemma_tab_step(tag, keys, vals, m, suffix, after, j + 1, 0);
            }
        }
    }
}

/// Reads an index artifact. The records are rebuilt into an index, and
/// the result is accepted only when writing that index back yields
/// exactly the input bytes: a loaded index is well formed and the
/// canonical owner of the bytes it came from. Loading owes success: on
/// the artifact of any well-formed index the load returns one.
#[verifier::rlimit(100)]
pub fn parse_index(data: &Vec<u8>) -> (r: Option<Index>)
    ensures
        match r {
            Some(idx) => idx.wf() && serial_spec(idx) == data@,
            Option::None => forall|i: Index| !canonical_for(i, data@),
        },
{
    let n: usize = data.len();
    let mut roots: Vec<Vec<u8>> = Vec::new();
    let mut idx = Index::new();
    let mut pos: usize = 0;
    proof {
        assert(data@.skip(0) =~= data@);
        assert forall|i: Index| #[trigger] canonical_for(i, data@) implies exists|j: int|
            0 <= j <= i.roots@.len() && roots.deep_view() == i.roots.deep_view().subrange(0, j)
                && data@.skip(pos as int) == ser_roots(i.roots.deep_view().skip(j))
                + tail_hashes(i) by {
            assert(roots.deep_view() =~= i.roots.deep_view().subrange(0, 0));
            assert(i.roots.deep_view().skip(0) =~= i.roots.deep_view());
            assert(serial_spec(i) == ser_roots(i.roots.deep_view()) + tail_hashes(i));
            assert(0 <= 0 <= i.roots@.len() && roots.deep_view() == i.roots.deep_view().subrange(
                0,
                0,
            ) && data@.skip(pos as int) == ser_roots(i.roots.deep_view().skip(0)) + tail_hashes(
                i,
            ));
        }
    }
    while pos < n && data[pos] == 82
        invariant
            0 <= pos <= n,
            n == data@.len(),
            idx.wf(),
            idx.roots@.len() == 0,
            idx.hashes@ == Map::<Seq<u8>, u64>::empty(),
            idx.fwd@ == Map::<Seq<u8>, Set<Seq<u8>>>::empty(),
            idx.rev@ == Map::<Seq<u8>, Set<Seq<u8>>>::empty(),
            forall|i: Index| #[trigger] canonical_for(i, data@) ==> exists|j: int|
                0 <= j <= i.roots@.len() && roots.deep_view() == i.roots.deep_view().subrange(
                    0,
                    j,
                ) && data@.skip(pos as int) == ser_roots(i.roots.deep_view().skip(j))
                    + tail_hashes(i),
        decreases n - pos,
    {
        let ghost old_pos = pos as int;
        let ghost old_roots = roots.deep_view();
        let pr = read_ns(data, pos + 1);
        proof {
            assert forall|i: Index| #[trigger] canonical_for(i, data@) implies ({
                let rs = i.roots.deep_view();
                exists|j: int|
                    0 <= j < rs.len() && old_roots == rs.subrange(0, j) && data@.skip(old_pos + 1)
                        == ns(rs[j]) + (ser_roots(rs.skip(j + 1)) + tail_hashes(i))
            }) by {
                let rs = i.roots.deep_view();
                let j = choose|j: int|
                    0 <= j <= i.roots@.len() && old_roots == rs.subrange(0, j) && data@.skip(
                        old_pos,
                    ) == ser_roots(rs.skip(j)) + tail_hashes(i);
                if j == rs.len() {
                    assert(ser_roots(rs.skip(j)) =~= Seq::<u8>::empty());
                    assert(data@.skip(old_pos) =~= tail_hashes(i));
                    lemma_tail_hashes_first(i);
                    assert(data@.skip(old_pos)[0] == data@[old_pos]);
                    assert(false);
                } else {
                    assert(rs.skip(j)[0] == rs[j]);
                    assert(rs.skip(j).skip(1) =~= rs.skip(j + 1));
                    assert(ser_roots(rs.skip(j)) == seq![82u8] + ns(rs[j]) + ser_roots(
                        rs.skip(j + 1),
                    ));
                    assert(data@.skip(old_pos).skip(1) =~= data@.skip(old_pos + 1));
                    assert((seq![82u8] + ns(rs[j]) + ser_roots(rs.skip(j + 1)) + tail_hashes(
                        i,
                    )).skip(1) =~= ns(rs[j]) + (ser_roots(rs.skip(j + 1)) + tail_hashes(i)));
                    assert(data@.skip(old_pos + 1) == ns(rs[j]) + (ser_roots(rs.skip(j + 1))
                        + tail_hashes(i)));
                }
            }
        }
        let p = match pr {
            Some(p) => p,
            None => {
                proof {
                    assert forall|i: Index| !canonical_for(i, data@) by {
                        if canonical_for(i, data@) {
                            let rs = i.roots.deep_view();
                            let j = choose|j: int|
                                0 <= j < rs.len() && old_roots == rs.subrange(0, j) && data@.skip(
                                    old_pos + 1,
                                ) == ns(rs[j]) + (ser_roots(rs.skip(j + 1)) + tail_hashes(i));
                            assert(false);
                        }
                    }
                }
                return None;
            },
        };
        let ghost pre_roots = roots@;
        roots.push(p.0);
        pos = p.1;
        proof {
            assert forall|i: Index| #[trigger] canonical_for(i, data@) implies exists|j: int|
                0 <= j <= i.roots@.len() && roots.deep_view() == i.roots.deep_view().subrange(
                    0,
                    j,
                ) && data@.skip(pos as int) == ser_roots(i.roots.deep_view().skip(j))
                    + tail_hashes(i) by {
                let rs = i.roots.deep_view();
                let j = choose|j: int|
                    0 <= j < rs.len() && old_roots == rs.subrange(0, j) && data@.skip(old_pos + 1)
                        == ns(rs[j]) + (ser_roots(rs.skip(j + 1)) + tail_hashes(i));
                assert(pr == Some(p));
                assert(p.0@ == rs[j] && p.1 == old_pos + 1 + ns(rs[j]).len());
                assert(data@.skip(old_pos + 1).skip(ns(rs[j]).len() as int) =~= data@.skip(
                    pos as int,
                ));
                assert((ns(rs[j]) + (ser_roots(rs.skip(j + 1)) + tail_hashes(i))).skip(
                    ns(rs[j]).len() as int,
                ) =~= ser_roots(rs.skip(j + 1)) + tail_hashes(i));
                assert forall|w: int| 0 <= w < roots.deep_view().len() implies roots.deep_view()[w]
                    == rs.subrange(0, j + 1)[w] by {
                    assert(roots.deep_view()[w] == roots@[w].deep_view());
                    if w < pre_roots.len() {
                        assert(roots@[w] == pre_roots[w]);
                        assert(old_roots[w] == pre_roots[w].deep_view());
                    } else {
                        assert(roots@[w] == p.0);
                    }
                }
                assert(roots.deep_view() =~= rs.subrange(0, j + 1));
                assert(0 <= j + 1 <= i.roots@.len() && roots.deep_view() == rs.subrange(
                    0,
                    j + 1,
                ) && data@.skip(pos as int) == ser_roots(rs.skip(j + 1)) + tail_hashes(i));
            }
        }
    }
    proof {
        assert forall|i: Index| #[trigger] canonical_for(i, data@) implies roots.deep_view()
            == i.roots.deep_view() && data@.skip(pos as int) == tail_hashes(i) by {
            let rs = i.roots.deep_view();
            let j = choose|j: int|
                0 <= j <= i.roots@.len() && roots.deep_view() == rs.subrange(0, j) && data@.skip(
                    pos as int,
                ) == ser_roots(rs.skip(j)) + tail_hashes(i);
            if j < rs.len() {
                assert(rs.skip(j)[0] == rs[j]);
                assert(ser_roots(rs.skip(j))[0] == 82);
                assert(data@.skip(pos as int)[0] == data@[pos as int]);
                assert(pos < n && data@[pos as int] == 82);
                assert(false);
            }
            assert(rs.subrange(0, rs.len() as int) =~= rs);
            assert(ser_roots(rs.skip(rs.len() as int)) =~= Seq::<u8>::empty());
        }
    }
    // digest records
    proof {
        assert forall|i: Index| #[trigger] canonical_for(i, data@) implies roots.deep_view()
            == i.roots.deep_view() && exists|j: int|
            0 <= j <= i.hashes.keys@.len() && idx.hashes@ == hash_fold(
                i.hashes.keys.deep_view(),
                i.hashes.vals@,
                j,
            ) && data@.skip(pos as int) == ser_hashes(
                i.hashes.keys.deep_view().skip(j),
                i.hashes.vals@.skip(j),
            ) + tail_fwd(i) by {
            assert(i.hashes.keys.deep_view().skip(0) =~= i.hashes.keys.deep_view());
            assert(i.hashes.vals@.skip(0) =~= i.hashes.vals@);
            assert(0 <= 0 <= i.hashes.keys@.len() && idx.hashes@ == hash_fold(
                i.hashes.keys.deep_view(),
                i.hashes.vals@,
                0,
            ) && data@.skip(pos as int) == ser_hashes(
                i.hashes.keys.deep_view().skip(0),
                i.hashes.vals@.skip(0),
            ) + tail_fwd(i));
        }
    }
    while pos < n && data[pos] == 72
        invariant
            0 <= pos <= n,
            n == data@.len(),
            idx.wf(),
            idx.roots@.len() == 0,
            idx.fwd@ == Map::<Seq<u8>, Set<Seq<u8>>>::empty(),
            idx.rev@ == Map::<Seq<u8>, Set<Seq<u8>>>::empty(),
            forall|i: Index| #[trigger] canonical_for(i, data@) ==> roots.deep_view()
                == i.roots.deep_view() && exists|j: int|
                0 <= j <= i.hashes.keys@.len() && idx.hashes@ == hash_fold(
                    i.hashes.keys.deep_view(),
                    i.hashes.vals@,
                    j,
                ) && data@.skip(pos as int) == ser_hashes(
                    i.hashes.keys.deep_view().skip(j),
                    i.hashes.vals@.skip(j),
                ) + tail_fwd(i),
        decreases n - pos,
    {
        let ghost old_pos = pos as int;
        let ghost old_h = idx.hashes@;
        proof {
            assert forall|i: Index| #[trigger] canonical_for(i, data@) implies ({
                let hk = i.hashes.keys.deep_view();
                let hv = i.hashes.vals@;
                exists|j: int|
                    0 <= j < hk.len() && old_h == hash_fold(hk, hv, j) && data@.skip(old_pos + 1)
                        == ns(hk[j]) + (ns(hex_of_u64(hv[j])) + (ser_hashes(
                        hk.skip(j + 1),
                        hv.skip(j + 1),
                    ) + tail_fwd(i)))
            }) by {
                let hk = i.hashes.keys.deep_view();
                let hv = i.hashes.vals@;
                let j = choose|j: int|
                    0 <= j <= i.hashes.keys@.len() && old_h == hash_fold(hk, hv, j) && data@.skip(
                        old_pos,
                    ) == ser_hashes(hk.skip(j), hv.skip(j)) + tail_fwd(i);
                if j == hk.len() {
                    assert(ser_hashes(hk.skip(j), hv.skip(j)) =~= Seq::<u8>::empty());
                    assert(data@.skip(old_pos) =~= tail_fwd(i));
                    lemma_tail_fwd_first(i);
                    assert(data@.skip(old_pos)[0] == data@[old_pos]);
                    assert(false);
                } else {
                    assert(hk.skip(j)[0] == hk[j]);
                    assert(hv.skip(j)[0] == hv[j]);
                    assert(hk.skip(j).skip(1) =~= hk.skip(j + 1));
                    assert(hv.skip(j).skip(1) =~= hv.skip(j + 1));
                    assert(ser_hashes(hk.skip(j), hv.skip(j)) == seq![72u8] + ns(hk[j]) + ns(
                        hex_of_u64(hv[j]),
                    ) + ser_hashes(hk.skip(j + 1), hv.skip(j + 1)));
                    assert(data@.skip(old_pos).skip(1) =~= data@.skip(old_pos + 1));
                    assert((seq![72u8] + ns(hk[j]) + ns(hex_of_u64(hv[j])) + ser_hashes(
                        hk.skip(j + 1),
                        hv.skip(j + 1),
                    ) + tail_fwd(i)).skip(1) =~= ns(hk[j]) + (ns(hex_of_u64(hv[j])) + (ser_hashes(
                        hk.skip(j + 1),
                        hv.skip(j + 1),
                    ) + tail_fwd(i))));
                }
            }
        }
        let pr1 = read_ns(data, pos + 1);
        let p = match pr1 {
            Some(p) => p,
            None => {
                proof {
                    assert forall|i: Index| !canonical_for(i, data@) by {
                        if canonical_for(i, data@) {
                            let hk = i.hashes.keys.deep_view();
                            let hv = i.hashes.vals@;
                            let j = choose|j: int|
                                0 <= j < hk.len() && old_h == hash_fold(hk, hv, j) && data@.skip(
                                    old_pos + 1,
                                ) == ns(hk[j]) + (ns(hex_of_u64(hv[j])) + (ser_hashes(
                                    hk.skip(j + 1),
                                    hv.skip(j + 1),
                                ) + tail_fwd(i)));
                            assert(false);
                        }
                    }
                }
                return None;
            },
        };
        let pr2 = read_ns(data, p.1);
        proof {
            assert forall|i: Index| #[trigger] canonical_for(i, data@) implies ({
                let hk = i.hashes.keys.deep_view();
                let hv = i.hashes.vals@;
                exists|j: int|
                    0 <= j < hk.len() && old_h == hash_fold(hk, hv, j) && p.0@ == hk[j]
                        && data@.skip(p.1 as int) == ns(hex_of_u64(hv[j])) + (ser_hashes(
                        hk.skip(j + 1),
                        hv.skip(j + 1),
                    ) + tail_fwd(i))
            }) by {
                let hk = i.hashes.keys.deep_view();
                let hv = i.hashes.vals@;
                let j = choose|j: int|
                    0 <= j < hk.len() && old_h == hash_fold(hk, hv, j) && data@.skip(old_pos + 1)
                        == ns(hk[j]) + (ns(hex_of_u64(hv[j])) + (ser_hashes(
                        hk.skip(j + 1),
                        hv.skip(j + 1),
                    ) + tail_fwd(i)));
                assert(pr1 == Some(p));
                assert(p.0@ == hk[j] && p.1 == old_pos + 1 + ns(hk[j]).len());
                assert(data@.skip(old_pos + 1).skip(ns(hk[j]).len() as int) =~= data@.skip(
                    p.1 as int,
                ));
                assert((ns(hk[j]) + (ns(hex_of_u64(hv[j])) + (ser_hashes(
                    hk.skip(j + 1),
                    hv.skip(j + 1),
                ) + tail_fwd(i)))).skip(ns(hk[j]).len() as int) =~= ns(hex_of_u64(hv[j])) + (
                ser_hashes(hk.skip(j + 1), hv.skip(j + 1)) + tail_fwd(i)));
            }
        }
        let q = match pr2 {
            Some(q) => q,
            None => {
                proof {
                    assert forall|i: Index| !canonical_for(i, data@) by {
                        if canonical_for(i, data@) {
                            let hk = i.hashes.keys.deep_view();
                            let hv = i.hashes.vals@;
                            let j = choose|j: int|
                                0 <= j < hk.len() && old_h == hash_fold(hk, hv, j) && p.0@ == hk[j]
                                    && data@.skip(p.1 as int) == ns(hex_of_u64(hv[j])) + (
                                ser_hashes(hk.skip(j + 1), hv.skip(j + 1)) + tail_fwd(i));
                            assert(false);
                        }
                    }
                }
                return None;
            },
        };
        let dr = hex_to_u64(&q.0);
        let d = match dr {
            Some(d) => d,
            None => {
                proof {
                    assert forall|i: Index| !canonical_for(i, data@) by {
                        if canonical_for(i, data@) {
                            let hk = i.hashes.keys.deep_view();
                            let hv = i.hashes.vals@;
                            let j = choose|j: int|
                                0 <= j < hk.len() && old_h == hash_fold(hk, hv, j) && p.0@ == hk[j]
                                    && data@.skip(p.1 as int) == ns(hex_of_u64(hv[j])) + (
                                ser_hashes(hk.skip(j + 1), hv.skip(j + 1)) + tail_fwd(i));
                            assert(pr2 == Some(q));
                            assert(q.0@ == hex_of_u64(hv[j]));
                            assert(false);
                        }
                    }
                }
                return None;
            },
        };
        idx.set_hash(p.0, d);
        pos = q.1;
        proof {
            assert forall|i: Index| #[trigger] canonical_for(i, data@) implies roots.deep_view()
                == i.roots.deep_view() && exists|j: int|
                0 <= j <= i.hashes.keys@.len() && idx.hashes@ == hash_fold(
                    i.hashes.keys.deep_view(),
                    i.hashes.vals@,
                    j,
                ) && data@.skip(pos as int) == ser_hashes(
                    i.hashes.keys.deep_view().skip(j),
                    i.hashes.vals@.skip(j),
                ) + tail_fwd(i) by {
                let hk = i.hashes.keys.deep_view();
                let hv = i.hashes.vals@;
                let j = choose|j: int|
                    0 <= j < hk.len() && old_h == hash_fold(hk, hv, j) && p.0@ == hk[j]
                        && data@.skip(p.1 as int) == ns(hex_of_u64(hv[j])) + (ser_hashes(
                        hk.skip(j + 1),
                        hv.skip(j + 1),
                    ) + tail_fwd(i));
                assert(pr2 == Some(q));
                assert(q.0@ == hex_of_u64(hv[j]) && q.1 == p.1 + ns(hex_of_u64(hv[j])).len());
                assert(d == hv[j]);
                assert(idx.hashes@ == hash_fold(hk, hv, j + 1));
                assert(data@.skip(p.1 as int).skip(ns(hex_of_u64(hv[j])).len() as int)
                    =~= data@.skip(pos as int));
                assert((ns(hex_of_u64(hv[j])) + (ser_hashes(hk.skip(j + 1), hv.skip(j + 1))
                    + tail_fwd(i))).skip(ns(hex_of_u64(hv[j])).len() as int) =~= ser_hashes(
                    hk.skip(j + 1),
                    hv.skip(j + 1),
                ) + tail_fwd(i));
                assert(0 <= j + 1 <= i.hashes.keys@.len() && idx.hashes@ == hash_fold(
                    hk,
                    hv,
                    j + 1,
                ) && data@.skip(pos as int) == ser_hashes(hk.skip(j + 1), hv.skip(j + 1))
                    + tail_fwd(i));
            }
        }
    }
    proof {
        assert forall|i: Index| #[trigger] canonical_for(i, data@) implies idx.hashes@
            == i.hashes@ && data@.skip(pos as int) == tail_fwd(i) by {
            let hk = i.hashes.keys.deep_view();
            let hv = i.hashes.vals@;
            let j = choose|j: int|
                0 <= j <= i.hashes.keys@.len() && idx.hashes@ == hash_fold(hk, hv, j)
                    && data@.skip(pos as int) == ser_hashes(hk.skip(j), hv.skip(j)) + tail_fwd(i);
            if j < hk.len() {
                assert(hk.skip(j)[0] == hk[j]);
                assert(hv.skip(j)[0] == hv[j]);
                assert(ser_hashes(hk.skip(j), hv.skip(j))[0] == 72);
                assert(data@.skip(pos as int)[0] == data@[pos as int]);
                assert(false);
            }
            assert(ser_hashes(hk.skip(j), hv.skip(j)) =~= Seq::<u8>::empty());
            lemma_hash_fold_full(i.hashes);
        }
    }
    // forward-edge records
    proof {
        assert forall|i: Index| #[trigger] canonical_for(i, data@) implies exists|j: int, l: int|
            tab_state(69u8, i.fwd.keys.deep_view(), i.fwd.vals.deep_view(), idx.fwd@, data@.skip(pos as int), tail_rev(i), j, l) by {
            let tk = i.fwd.keys.deep_view();
            let tv = i.fwd.vals.deep_view();
            assert(table_fold(tk, tv, 0) == Map::<Seq<u8>, Set<Seq<u8>>>::empty());
            if tk.len() > 0 {
                assert(tk.skip(0)[0] == tk[0]);
                assert(tv.skip(0)[0] == tv[0]);
                assert(tk =~= tk.skip(0));
                assert(tv =~= tv.skip(0));
                assert(tk.skip(0).skip(1) =~= tk.skip(1));
                assert(tv.skip(0).skip(1) =~= tv.skip(1));
                assert(ser_table(69u8, tk, tv) == ser_row(69u8, tk[0], tv[0]) + ser_table(
                    69u8,
                    tk.skip(1),
                    tv.skip(1),
                ));
                assert(tv[0].skip(0) =~= tv[0]);
                assert(data@.skip(pos as int) == ser_row(69u8, tk[0], tv[0].skip(0))
                    + ser_table(69u8, tk.skip(1), tv.skip(1)) + tail_rev(i));
                assert(tab_state(69u8, tk, tv, idx.fwd@, data@.skip(pos as int), tail_rev(i),
                0, 0));
            } else {
                assert(ser_table(69u8, tk, tv) =~= Seq::<u8>::empty());
                assert(data@.skip(pos as int) =~= tail_rev(i));
                assert(tab_state(69u8, tk, tv, idx.fwd@, data@.skip(pos as int), tail_rev(i),
                0, 0));
            }
        }
    }
    while pos < n && data[pos] == 69
        invariant
            0 <= pos <= n,
            n == data@.len(),
            idx.wf(),
            idx.roots@.len() == 0,
            idx.rev@ == Map::<Seq<u8>, Set<Seq<u8>>>::empty(),

            forall|i: Index| #[trigger] canonical_for(i, data@) ==> roots.deep_view()
                == i.roots.deep_view() && idx.hashes@ == i.hashes@ && exists|
                j: int,
                l: int,
            |
                tab_state(69u8, i.fwd.keys.deep_view(), i.fwd.vals.deep_view(), idx.fwd@, data@.skip(pos as int), tail_rev(i), j, l),
        decreases n - pos,
    {
        let ghost old_pos = pos as int;
        let ghost old_m = idx.fwd@;
        proof {
            assert forall|i: Index| #[trigger] canonical_for(i, data@) implies ({
                let tk = i.fwd.keys.deep_view();
                let tv = i.fwd.vals.deep_view();
                exists|j: int, l: int|
                    0 <= j < tk.len() && 0 <= l < tv[j].len() && old_m == row_fold(
                        table_fold(tk, tv, j),
                        tk[j],
                        tv[j],
                        l,
                    ) && data@.skip(old_pos + 1) == ns(tk[j]) + (ns(tv[j][l]) + (ser_row(
                        69u8,
                        tk[j],
                        tv[j].skip(l + 1),
                    ) + ser_table(69u8, tk.skip(j + 1), tv.skip(j + 1)) + tail_rev(i)))
            }) by {
                let tk = i.fwd.keys.deep_view();
                let tv = i.fwd.vals.deep_view();
                let (j, l) = choose|j: int, l: int|
                    tab_state(69u8, tk, tv, old_m, data@.skip(old_pos), tail_rev(i), j, l);
                lemma_tail_rev_first(i);
                lemma_tab_step(69u8, tk, tv, old_m, data@.skip(old_pos), tail_rev(i), j, l);
                assert(data@.skip(old_pos)[0] == data@[old_pos]);
                let (j2, l2) = choose|j2: int, l2: int|
                    #[trigger] tab_state(69u8, tk, tv, old_m, data@.skip(old_pos),
                    tail_rev(i), j2, l2) && j2 < tk.len() && l2 < tv[j2].len();
                assert(tv[j2].skip(l2)[0] == tv[j2][l2]);
                assert(tv[j2].skip(l2).skip(1) =~= tv[j2].skip(l2 + 1));
                assert(ser_row(69u8, tk[j2], tv[j2].skip(l2)) == seq![69u8] + ns(tk[j2])
                    + ns(tv[j2][l2]) + ser_row(69u8, tk[j2], tv[j2].skip(l2 + 1)));
                assert(data@.skip(old_pos).skip(1) =~= data@.skip(old_pos + 1));
                assert((seq![69u8] + ns(tk[j2]) + ns(tv[j2][l2]) + ser_row(
                    69u8,
                    tk[j2],
                    tv[j2].skip(l2 + 1),
                ) + ser_table(69u8, tk.skip(j2 + 1), tv.skip(j2 + 1)) + tail_rev(i)).skip(1)
                    =~= ns(tk[j2]) + (ns(tv[j2][l2]) + (ser_row(
                    69u8,
                    tk[j2],
                    tv[j2].skip(l2 + 1),
                ) + ser_table(69u8, tk.skip(j2 + 1), tv.skip(j2 + 1)) + tail_rev(i))));
            }
        }
        let pr1 = read_ns(data, pos + 1);
        let p = match pr1 {
            Some(p) => p,
            None => {
                proof {
                    assert forall|i: Index| !canonical_for(i, data@) by {
                        if canonical_for(i, data@) {
                            let tk = i.fwd.keys.deep_view();
                            let tv = i.fwd.vals.deep_view();
                            let (j, l) = choose|j: int, l: int|
                                0 <= j < tk.len() && 0 <= l < tv[j].len() && old_m == row_fold(
                                    table_fold(tk, tv, j),
                                    tk[j],
                                    tv[j],
                                    l,
                                ) && data@.skip(old_pos + 1) == ns(tk[j]) + (ns(tv[j][l]) + (
                                ser_row(69u8, tk[j], tv[j].skip(l + 1)) + ser_table(
                                    69u8,
                                    tk.skip(j + 1),
                                    tv.skip(j + 1),
                                ) + tail_rev(i)));
                            assert(false);
                        }
                    }
                }
                return None;
            },
        };
        let pr2 = read_ns(data, p.1);
        proof {
            assert forall|i: Index| #[trigger] canonical_for(i, data@) implies ({
                let tk = i.fwd.keys.deep_view();
                let tv = i.fwd.vals.deep_view();
                exists|j: int, l: int|
                    0 <= j < tk.len() && 0 <= l < tv[j].len() && old_m == row_fold(
                        table_fold(tk, tv, j),
                        tk[j],
                        tv[j],
                        l,
                    ) && p.0@ == tk[j] && data@.skip(p.1 as int) == ns(tv[j][l]) + (ser_row(
                        69u8,
                        tk[j],
                        tv[j].skip(l + 1),
                    ) + ser_table(69u8, tk.skip(j + 1), tv.skip(j + 1)) + tail_rev(i))
            }) by {
                let tk = i.fwd.keys.deep_view();
                let tv = i.fwd.vals.deep_view();
                let (j, l) = choose|j: int, l: int|
                    0 <= j < tk.len() && 0 <= l < tv[j].len() && old_m == row_fold(
                        table_fold(tk, tv, j),
                        tk[j],
                        tv[j],
                        l,
                    ) && data@.skip(old_pos + 1) == ns(tk[j]) + (ns(tv[j][l]) + (ser_row(
                        69u8,
                        tk[j],
                        tv[j].skip(l + 1),
                    ) + ser_table(69u8, tk.skip(j + 1), tv.skip(j + 1)) + tail_rev(i)));
                assert(pr1 == Some(p));
                assert(p.0@ == tk[j] && p.1 == old_pos + 1 + ns(tk[j]).len());
                assert(data@.skip(old_pos + 1).skip(ns(tk[j]).len() as int) =~= data@.skip(
                    p.1 as int,
                ));
                assert((ns(tk[j]) + (ns(tv[j][l]) + (ser_row(69u8, tk[j], tv[j].skip(l + 1))
                    + ser_table(69u8, tk.skip(j + 1), tv.skip(j + 1)) + tail_rev(i)))).skip(
                    ns(tk[j]).len() as int,
                ) =~= ns(tv[j][l]) + (ser_row(69u8, tk[j], tv[j].skip(l + 1)) + ser_table(
                    69u8,
                    tk.skip(j + 1),
                    tv.skip(j + 1),
                ) + tail_rev(i)));
            }
        }
        let q = match pr2 {
            Some(q) => q,
            None => {
                proof {
                    assert forall|i: Index| !canonical_for(i, data@) by {
                        if canonical_for(i, data@) {
                            let tk = i.fwd.keys.deep_view();
                            let tv = i.fwd.vals.deep_view();
                            let (j, l) = choose|j: int, l: int|
                                0 <= j < tk.len() && 0 <= l < tv[j].len() && old_m == row_fold(
                                    table_fold(tk, tv, j),
                                    tk[j],
                                    tv[j],
                                    l,
                                ) && p.0@ == tk[j] && data@.skip(p.1 as int) == ns(tv[j][l]) + (
                                ser_row(69u8, tk[j], tv[j].skip(l + 1)) + ser_table(
                                    69u8,
                                    tk.skip(j + 1),
                                    tv.skip(j + 1),
                                ) + tail_rev(i));
                            assert(false);
                        }
                    }
                }
                return None;
            },
        };
        idx.fwd.insert(p.0, q.0);
        pos = q.1;
        proof {
            assert forall|i: Index| #[trigger] canonical_for(i, data@) implies roots.deep_view()
                == i.roots.deep_view() && idx.hashes@ == i.hashes@ && exists|
                j: int,
                l: int,
            |
                tab_state(69u8, i.fwd.keys.deep_view(), i.fwd.vals.deep_view(), idx.fwd@, data@.skip(pos as int), tail_rev(i), j, l) by {
                let tk = i.fwd.keys.deep_view();
                let tv = i.fwd.vals.deep_view();
                let (j, l) = choose|j: int, l: int|
                    0 <= j < tk.len() && 0 <= l < tv[j].len() && old_m == row_fold(
                        table_fold(tk, tv, j),
                        tk[j],
                        tv[j],
                        l,
                    ) && p.0@ == tk[j] && data@.skip(p.1 as int) == ns(tv[j][l]) + (ser_row(
                        69u8,
                        tk[j],
                        tv[j].skip(l + 1),
                    ) + ser_table(69u8, tk.skip(j + 1), tv.skip(j + 1)) + tail_rev(i));
                assert(pr2 == Some(q));
                assert(q.0@ == tv[j][l] && q.1 == p.1 + ns(tv[j][l]).len());
                assert(idx.fwd@ == map_add(old_m, tk[j], tv[j][l]));
                assert(idx.fwd@ == row_fold(table_fold(tk, tv, j), tk[j], tv[j], l + 1));
                assert(data@.skip(p.1 as int).skip(ns(tv[j][l]).len() as int) =~= data@.skip(
                    pos as int,
                ));
                assert((ns(tv[j][l]) + (ser_row(69u8, tk[j], tv[j].skip(l + 1)) + ser_table(
                    69u8,
                    tk.skip(j + 1),
                    tv.skip(j + 1),
                ) + tail_rev(i))).skip(ns(tv[j][l]).len() as int) =~= ser_row(
                    69u8,
                    tk[j],
                    tv[j].skip(l + 1),
                ) + ser_table(69u8, tk.skip(j + 1), tv.skip(j + 1)) + tail_rev(i));
                assert(tab_state(69u8, tk, tv, idx.fwd@, data@.skip(pos as int), tail_rev(i),
                j, l + 1));
            }
        }
    }
    proof {
        assert forall|i: Index| #[trigger] canonical_for(i, data@) implies idx.fwd@ == i.fwd@
            && data@.skip(pos as int) == tail_rev(i) by {
            let tk = i.fwd.keys.deep_view();
            let tv = i.fwd.vals.deep_view();
            let (j, l) = choose|j: int, l: int|
                tab_state(69u8, tk, tv, idx.fwd@, data@.skip(pos as int), tail_rev(i), j, l);
            lemma_tail_rev_first(i);
            lemma_tab_step(69u8, tk, tv, idx.fwd@, data@.skip(pos as int), tail_rev(i), j, l);
            if data@.skip(pos as int).len() > 0 && data@.skip(pos as int)[0] == 69 {
                assert(data@.skip(pos as int)[0] == data@[pos as int]);
                assert(pos < n && data@[pos as int] == 69);
                assert(false);
            }
            lemma_table_fold_full(i.fwd);
        }
    }
    // reverse-edge records
    proof {
        assert forall|i: Index| #[trigger] canonical_for(i, data@) implies exists|j: int, l: int|
            tab_state(86u8, i.rev.keys.deep_view(), i.rev.vals.deep_view(), idx.rev@, data@.skip(pos as int), Seq::<u8>::empty(), j, l) by {
            let tk = i.rev.keys.deep_view();
            let tv = i.rev.vals.deep_view();
            assert(table_fold(tk, tv, 0) == Map::<Seq<u8>, Set<Seq<u8>>>::empty());
            if tk.len() > 0 {
                assert(tk.skip(0)[0] == tk[0]);
                assert(tv.skip(0)[0] == tv[0]);
                assert(tk =~= tk.skip(0));
                assert(tv =~= tv.skip(0));
                assert(tk.skip(0).skip(1) =~= tk.skip(1));
                assert(tv.skip(0).skip(1) =~= tv.skip(1));
                assert(ser_table(86u8, tk, tv) == ser_row(86u8, tk[0], tv[0]) + ser_table(
                    86u8,
                    tk.skip(1),
                    tv.skip(1),
                ));
                assert(tv[0].skip(0) =~= tv[0]);
                assert(data@.skip(pos as int) == ser_row(86u8, tk[0], tv[0].skip(0))
                    + ser_table(86u8, tk.skip(1), tv.skip(1)) + Seq::<u8>::empty());
                assert(tab_state(86u8, tk, tv, idx.rev@, data@.skip(pos as int), Seq::<u8>::empty(),
                0, 0));
            } else {
                assert(ser_table(86u8, tk, tv) =~= Seq::<u8>::empty());
                assert(data@.skip(pos as int) =~= Seq::<u8>::empty());
                assert(tab_state(86u8, tk, tv, idx.rev@, data@.skip(pos as int), Seq::<u8>::empty(),
                0, 0));
            }
        }
    }
    while pos < n && data[pos] == 86
        invariant
            0 <= pos <= n,
            n == data@.len(),
            idx.wf(),
            idx.roots@.len() == 0,

            forall|i: Index| #[trigger] canonical_for(i, data@) ==> roots.deep_view()
                == i.roots.deep_view() && idx.hashes@ == i.hashes@ && idx.fwd@ == i.fwd@ && exists|
                j: int,
                l: int,
            |
                tab_state(86u8, i.rev.keys.deep_view(), i.rev.vals.deep_view(), idx.rev@, data@.skip(pos as int), Seq::<u8>::empty(), j, l),
        decreases n - pos,
    {
        let ghost old_pos = pos as int;
        let ghost old_m = idx.rev@;
        proof {
            assert forall|i: Index| #[trigger] canonical_for(i, data@) implies ({
                let tk = i.rev.keys.deep_view();
                let tv = i.rev.vals.deep_view();
                exists|j: int, l: int|
                    0 <= j < tk.len() && 0 <= l < tv[j].len() && old_m == row_fold(
                        table_fold(tk, tv, j),
                        tk[j],
                        tv[j],
                        l,
                    ) && data@.skip(old_pos + 1) == ns(tk[j]) + (ns(tv[j][l]) + (ser_row(
                        86u8,
                        tk[j],
                        tv[j].skip(l + 1),
                    ) + ser_table(86u8, tk.skip(j + 1), tv.skip(j + 1)) + Seq::<u8>::empty()))
            }) by {
                let tk = i.rev.keys.deep_view();
                let tv = i.rev.vals.deep_view();
                let (j, l) = choose|j: int, l: int|
                    tab_state(86u8, tk, tv, old_m, data@.skip(old_pos), Seq::<u8>::empty(), j, l);
                lemma_tail_rev_first(i);
                lemma_tab_step(86u8, tk, tv, old_m, data@.skip(old_pos), Seq::<u8>::empty(), j, l);
                assert(data@.skip(old_pos)[0] == data@[old_pos]);
                let (j2, l2) = choose|j2: int, l2: int|
                    #[trigger] tab_state(86u8, tk, tv, old_m, data@.skip(old_pos),
                    Seq::<u8>::empty(), j2, l2) && j2 < tk.len() && l2 < tv[j2].len();
                assert(tv[j2].skip(l2)[0] == tv[j2][l2]);
                assert(tv[j2].skip(l2).skip(1) =~= tv[j2].skip(l2 + 1));
                assert(ser_row(86u8, tk[j2], tv[j2].skip(l2)) == seq![86u8] + ns(tk[j2])
                    + ns(tv[j2][l2]) + ser_row(86u8, tk[j2], tv[j2].skip(l2 + 1)));
                assert(data@.skip(old_pos).skip(1) =~= data@.skip(old_pos + 1));
                assert((seq![86u8] + ns(tk[j2]) + ns(tv[j2][l2]) + ser_row(
                    86u8,
                    tk[j2],
                    tv[j2].skip(l2 + 1),
                ) + ser_table(86u8, tk.skip(j2 + 1), tv.skip(j2 + 1)) + Seq::<u8>::empty()).skip(1)
                    =~= ns(tk[j2]) + (ns(tv[j2][l2]) + (ser_row(
                    86u8,
                    tk[j2],
                    tv[j2].skip(l2 + 1),
                ) + ser_table(86u8, tk.skip(j2 + 1), tv.skip(j2 + 1)) + Seq::<u8>::empty())));
            }
        }
        let pr1 = read_ns(data, pos + 1);
        let p = match pr1 {
            Some(p) => p,
            None => {
                proof {
                    assert forall|i: Index| !canonical_for(i, data@) by {
                        if canonical_for(i, data@) {
                            let tk = i.rev.keys.deep_view();
                            let tv = i.rev.vals.deep_view();
                            let (j, l) = choose|j: int, l: int|
                                0 <= j < tk.len() && 0 <= l < tv[j].len() && old_m == row_fold(
                                    table_fold(tk, tv, j),
                                    tk[j],
                                    tv[j],
                                    l,
                                ) && data@.skip(old_pos + 1) == ns(tk[j]) + (ns(tv[j][l]) + (
                                ser_row(86u8, tk[j], tv[j].skip(l + 1)) + ser_table(
                                    86u8,
                                    tk.skip(j + 1),
                                    tv.skip(j + 1),
                                ) + Seq::<u8>::empty()));
                            assert(false);
                        }
                    }
                }
                return None;
            },
        };
        let pr2 = read_ns(data, p.1);
        proof {
            assert forall|i: Index| #[trigger] canonical_for(i, data@) implies ({
                let tk = i.rev.keys.deep_view();
                let tv = i.rev.vals.deep_view();
                exists|j: int, l: int|
                    0 <= j < tk.len() && 0 <= l < tv[j].len() && old_m == row_fold(
                        table_fold(tk, tv, j),
                        tk[j],
                        tv[j],
                        l,
                    ) && p.0@ == tk[j] && data@.skip(p.1 as int) == ns(tv[j][l]) + (ser_row(
                        86u8,
                        tk[j],
                        tv[j].skip(l + 1),
                    ) + ser_table(86u8, tk.skip(j + 1), tv.skip(j + 1)) + Seq::<u8>::empty())
            }) by {
                let tk = i.rev.keys.deep_view();
                let tv = i.rev.vals.deep_view();
                let (j, l) = choose|j: int, l: int|
                    0 <= j < tk.len() && 0 <= l < tv[j].len() && old_m == row_fold(
                        table_fold(tk, tv, j),
                        tk[j],
                        tv[j],
                        l,
                    ) && data@.skip(old_pos + 1) == ns(tk[j]) + (ns(tv[j][l]) + (ser_row(
                        86u8,
                        tk[j],
                        tv[j].skip(l + 1),
                    ) + ser_table(86u8, tk.skip(j + 1), tv.skip(j + 1)) + Seq::<u8>::empty()));
                assert(pr1 == Some(p));
                assert(p.0@ == tk[j] && p.1 == old_pos + 1 + ns(tk[j]).len());
                assert(data@.skip(old_pos + 1).skip(ns(tk[j]).len() as int) =~= data@.skip(
                    p.1 as int,
                ));
                assert((ns(tk[j]) + (ns(tv[j][l]) + (ser_row(86u8, tk[j], tv[j].skip(l + 1))
                    + ser_table(86u8, tk.skip(j + 1), tv.skip(j + 1)) + Seq::<u8>::empty()))).skip(
                    ns(tk[j]).len() as int,
                ) =~= ns(tv[j][l]) + (ser_row(86u8, tk[j], tv[j].skip(l + 1)) + ser_table(
                    86u8,
                    tk.skip(j + 1),
                    tv.skip(j + 1),
                ) + Seq::<u8>::empty()));
            }
        }
        let q = match pr2 {
            Some(q) => q,
            None => {
                proof {
                    assert forall|i: Index| !canonical_for(i, data@) by {
                        if canonical_for(i, data@) {
                            let tk = i.rev.keys.deep_view();
                            let tv = i.rev.vals.deep_view();
                            let (j, l) = choose|j: int, l: int|
                                0 <= j < tk.len() && 0 <= l < tv[j].len() && old_m == row_fold(
                                    table_fold(tk, tv, j),
                                    tk[j],
                                    tv[j],
                                    l,
                                ) && p.0@ == tk[j] && data@.skip(p.1 as int) == ns(tv[j][l]) + (
                                ser_row(86u8, tk[j], tv[j].skip(l + 1)) + ser_table(
                                    86u8,
                                    tk.skip(j + 1),
                                    tv.skip(j + 1),
                                ) + Seq::<u8>::empty());
                            assert(false);
                        }
                    }
                }
                return None;
            },
        };
        idx.rev.insert(p.0, q.0);
        pos = q.1;
        proof {
            assert forall|i: Index| #[trigger] canonical_for(i, data@) implies roots.deep_view()
                == i.roots.deep_view() && idx.hashes@ == i.hashes@ && idx.fwd@ == i.fwd@ && exists|
                j: int,
                l: int,
            |
                tab_state(86u8, i.rev.keys.deep_view(), i.rev.vals.deep_view(), idx.rev@, data@.skip(pos as int), Seq::<u8>::empty(), j, l) by {
                let tk = i.rev.keys.deep_view();
                let tv = i.rev.vals.deep_view();
                let (j, l) = choose|j: int, l: int|
                    0 <= j < tk.len() && 0 <= l < tv[j].len() && old_m == row_fold(
                        table_fold(tk, tv, j),
                        tk[j],
                        tv[j],
                        l,
                    ) && p.0@ == tk[j] && data@.skip(p.1 as int) == ns(tv[j][l]) + (ser_row(
                        86u8,
                        tk[j],
                        tv[j].skip(l + 1),
                    ) + ser_table(86u8, tk.skip(j + 1), tv.skip(j + 1)) + Seq::<u8>::empty());
                assert(pr2 == Some(q));
                assert(q.0@ == tv[j][l] && q.1 == p.1 + ns(tv[j][l]).len());
                assert(idx.rev@ == map_add(old_m, tk[j], tv[j][l]));
                assert(idx.rev@ == row_fold(table_fold(tk, tv, j), tk[j], tv[j], l + 1));
                assert(data@.skip(p.1 as int).skip(ns(tv[j][l]).len() as int) =~= data@.skip(
                    pos as int,
                ));
                assert((ns(tv[j][l]) + (ser_row(86u8, tk[j], tv[j].skip(l + 1)) + ser_table(
                    86u8,
                    tk.skip(j + 1),
                    tv.skip(j + 1),
                ) + Seq::<u8>::empty())).skip(ns(tv[j][l]).len() as int) =~= ser_row(
                    86u8,
                    tk[j],
                    tv[j].skip(l + 1),
                ) + ser_table(86u8, tk.skip(j + 1), tv.skip(j + 1)) + Seq::<u8>::empty());
                assert(tab_state(86u8, tk, tv, idx.rev@, data@.skip(pos as int), Seq::<u8>::empty(),
                j, l + 1));
            }
        }
    }
    proof {
        assert forall|i: Index| #[trigger] canonical_for(i, data@) implies idx.rev@ == i.rev@
            && data@.skip(pos as int) == Seq::<u8>::empty() by {
            let tk = i.rev.keys.deep_view();
            let tv = i.rev.vals.deep_view();
            let (j, l) = choose|j: int, l: int|
                tab_state(86u8, tk, tv, idx.rev@, data@.skip(pos as int), Seq::<u8>::empty(), j, l);
            lemma_tail_rev_first(i);
            lemma_tab_step(86u8, tk, tv, idx.rev@, data@.skip(pos as int), Seq::<u8>::empty(), j, l);
            if data@.skip(pos as int).len() > 0 && data@.skip(pos as int)[0] == 86 {
                assert(data@.skip(pos as int)[0] == data@[pos as int]);
                assert(pos < n && data@[pos as int] == 86);
                assert(false);
            }
            lemma_table_fold_full(i.rev);
        }
    }
    if pos != n {
        proof {
            assert forall|i: Index| !canonical_for(i, data@) by {
                if canonical_for(i, data@) {
                    assert(data@.skip(pos as int).len() == 0);
                }
            }
        }
        return None;
    }

    idx.roots = sort_unique(&roots);
    let back = serialize_index(&idx);
    if bytes_eq(&back, data) {
        Some(idx)
    } else {
        proof {
            assert forall|i: Index| !canonical_for(i, data@) by {
                if canonical_for(i, data@) {
                    crate::order::lemma_sorted_same_set(idx.roots.deep_view(), i.roots.deep_view());
                    crate::laws::lemma_index_canonical(idx, i);
                    assert(back@ == data@);
                }
            }
        }
        None
    }
}

/// A nibble extracted by shift-and-mask is below 16.
proof fn lemma_nib_bound(d: u64, s: u64)
    ensures
        ((d >> s) & 0xf) < 16,
{
    assert(((d >> s) & 0xf) < 16) by (bit_vector);
}

/// The nibble a lowercase hex digit denotes, if the byte is one.
fn hex_nibble(c: u8) -> (r: Option<u8>)
    ensures
        match r {
            Some(v) => v < 16 && hex_digit(v) == c,
            Option::None => forall|v: u8| v < 16 ==> hex_digit(v) != c,
        },
{
    if 48 <= c && c <= 57 {
        Some(c - 48)
    } else if 97 <= c && c <= 102 {
        Some(c - 87)
    } else {
        proof {
            assert forall|v: u8| v < 16 implies hex_digit(v) != c by {
                if v < 10 {
                } else {
                }
            }
        }
        None
    }
}

/// Two nibbles with the same hex digit are the same nibble.
proof fn lemma_hex_digit_inj(a: u8, b: u8)
    requires
        a < 16,
        b < 16,
        hex_digit(a) == hex_digit(b),
    ensures
        a == b,
{
}

/// Reads 16 lowercase hex digits back into a digest value. Reading a
/// rendered digest always succeeds and returns the digest itself.
#[verifier::rlimit(60)]
fn hex_to_u64(h: &Vec<u8>) -> (r: Option<u64>)
    ensures
        forall|dd: u64| h@ == #[trigger] hex_of_u64(dd) ==> r == Some(dd),
{
    if h.len() != 16 {
        return None;
    }
    let n0: u8 = match hex_nibble(h[0]) {
        Some(v) => v,
        None => {
            proof {
                assert forall|dd: u64| h@ != #[trigger] hex_of_u64(dd) by {
                    if h@ == hex_of_u64(dd) {
                        lemma_nib_bound(dd, ((15 - 0) * 4) as u64);
                        let nb: u8 = ((dd >> (((15 - 0) * 4) as u64)) & 0xf) as u8;
                        assert(h@[0] == hex_digit(nb));
                        assert(hex_digit(nb) != h@[0]);
                    }
                }
            }
            return None;
        },
    };
    let n1: u8 = match hex_nibble(h[1]) {
        Some(v) => v,
        None => {
            proof {
                assert forall|dd: u64| h@ != #[trigger] hex_of_u64(dd) by {
                    if h@ == hex_of_u64(dd) {
                        lemma_nib_bound(dd, ((15 - 1) * 4) as u64);
                        let nb: u8 = ((dd >> (((15 - 1) * 4) as u64)) & 0xf) as u8;
                        assert(h@[1] == hex_digit(nb));
                        assert(hex_digit(nb) != h@[1]);
                    }
                }
            }
            return None;
        },
    };
    let n2: u8 = match hex_nibble(h[2]) {
        Some(v) => v,
        None => {
            proof {
                assert forall|dd: u64| h@ != #[trigger] hex_of_u64(dd) by {
                    if h@ == hex_of_u64(dd) {
                        lemma_nib_bound(dd, ((15 - 2) * 4) as u64);
                        let nb: u8 = ((dd >> (((15 - 2) * 4) as u64)) & 0xf) as u8;
                        assert(h@[2] == hex_digit(nb));
                        assert(hex_digit(nb) != h@[2]);
                    }
                }
            }
            return None;
        },
    };
    let n3: u8 = match hex_nibble(h[3]) {
        Some(v) => v,
        None => {
            proof {
                assert forall|dd: u64| h@ != #[trigger] hex_of_u64(dd) by {
                    if h@ == hex_of_u64(dd) {
                        lemma_nib_bound(dd, ((15 - 3) * 4) as u64);
                        let nb: u8 = ((dd >> (((15 - 3) * 4) as u64)) & 0xf) as u8;
                        assert(h@[3] == hex_digit(nb));
                        assert(hex_digit(nb) != h@[3]);
                    }
                }
            }
            return None;
        },
    };
    let n4: u8 = match hex_nibble(h[4]) {
        Some(v) => v,
        None => {
            proof {
                assert forall|dd: u64| h@ != #[trigger] hex_of_u64(dd) by {
                    if h@ == hex_of_u64(dd) {
                        lemma_nib_bound(dd, ((15 - 4) * 4) as u64);
                        let nb: u8 = ((dd >> (((15 - 4) * 4) as u64)) & 0xf) as u8;
                        assert(h@[4] == hex_digit(nb));
                        assert(hex_digit(nb) != h@[4]);
                    }
                }
            }
            return None;
        },
    };
    let n5: u8 = match hex_nibble(h[5]) {
        Some(v) => v,
        None => {
            proof {
                assert forall|dd: u64| h@ != #[trigger] hex_of_u64(dd) by {
                    if h@ == hex_of_u64(dd) {
                        lemma_nib_bound(dd, ((15 - 5) * 4) as u64);
                        let nb: u8 = ((dd >> (((15 - 5) * 4) as u64)) & 0xf) as u8;
                        assert(h@[5] == hex_digit(nb));
                        assert(hex_digit(nb) != h@[5]);
                    }
                }
            }
            return None;
        },
    };
    let n6: u8 = match hex_nibble(h[6]) {
        Some(v) => v,
        None => {
            proof {
                assert forall|dd: u64| h@ != #[trigger] hex_of_u64(dd) by {
                    if h@ == hex_of_u64(dd) {
                        lemma_nib_bound(dd, ((15 - 6) * 4) as u64);
                        let nb: u8 = ((dd >> (((15 - 6) * 4) as u64)) & 0xf) as u8;
                        assert(h@[6] == hex_digit(nb));
                        assert(hex_digit(nb) != h@[6]);
                    }
                }
            }
            return None;
        },
    };
    let n7: u8 = match hex_nibble(h[7]) {
        Some(v) => v,
        None => {
            proof {
                assert forall|dd: u64| h@ != #[trigger] hex_of_u64(dd) by {
                    if h@ == hex_of_u64(dd) {
                        lemma_nib_bound(dd, ((15 - 7) * 4) as u64);
                        let nb: u8 = ((dd >> (((15 - 7) * 4) as u64)) & 0xf) as u8;
                        assert(h@[7] == hex_digit(nb));
                        assert(hex_digit(nb) != h@[7]);
                    }
                }
            }
            return None;
        },
    };
    let n8: u8 = match hex_nibble(h[8]) {
        Some(v) => v,
        None => {
            proof {
                assert forall|dd: u64| h@ != #[trigger] hex_of_u64(dd) by {
                    if h@ == hex_of_u64(dd) {
                        lemma_nib_bound(dd, ((15 - 8) * 4) as u64);
                        let nb: u8 = ((dd >> (((15 - 8) * 4) as u64)) & 0xf) as u8;
                        assert(h@[8] == hex_digit(nb));
                        assert(hex_digit(nb) != h@[8]);
                    }
                }
            }
            return None;
        },
    };
    let n9: u8 = match hex_nibble(h[9]) {
        Some(v) => v,
        None => {
            proof {
                assert forall|dd: u64| h@ != #[trigger] hex_of_u64(dd) by {
                    if h@ == hex_of_u64(dd) {
                        lemma_nib_bound(dd, ((15 - 9) * 4) as u64);
                        let nb: u8 = ((dd >> (((15 - 9) * 4) as u64)) & 0xf) as u8;
                        assert(h@[9] == hex_digit(nb));
                        assert(hex_digit(nb) != h@[9]);
                    }
                }
            }
            return None;
        },
    };
    let n10: u8 = match hex_nibble(h[10]) {
        Some(v) => v,
        None => {
            proof {
                assert forall|dd: u64| h@ != #[trigger] hex_of_u64(dd) by {
                    if h@ == hex_of_u64(dd) {
                        lemma_nib_bound(dd, ((15 - 10) * 4) as u64);
                        let nb: u8 = ((dd >> (((15 - 10) * 4) as u64)) & 0xf) as u8;
                        assert(h@[10] == hex_digit(nb));
                        assert(hex_digit(nb) != h@[10]);
                    }
                }
            }
            return None;
        },
    };
    let n11: u8 = match hex_nibble(h[11]) {
        Some(v) => v,
        None => {
            proof {
                assert forall|dd: u64| h@ != #[trigger] hex_of_u64(dd) by {
                    if h@ == hex_of_u64(dd) {
                        lemma_nib_bound(dd, ((15 - 11) * 4) as u64);
                        let nb: u8 = ((dd >> (((15 - 11) * 4) as u64)) & 0xf) as u8;
                        assert(h@[11] == hex_digit(nb));
                        assert(hex_digit(nb) != h@[11]);
                    }
                }
            }
            return None;
        },
    };
    let n12: u8 = match hex_nibble(h[12]) {
        Some(v) => v,
        None => {
            proof {
                assert forall|dd: u64| h@ != #[trigger] hex_of_u64(dd) by {
                    if h@ == hex_of_u64(dd) {
                        lemma_nib_bound(dd, ((15 - 12) * 4) as u64);
                        let nb: u8 = ((dd >> (((15 - 12) * 4) as u64)) & 0xf) as u8;
                        assert(h@[12] == hex_digit(nb));
                        assert(hex_digit(nb) != h@[12]);
                    }
                }
            }
            return None;
        },
    };
    let n13: u8 = match hex_nibble(h[13]) {
        Some(v) => v,
        None => {
            proof {
                assert forall|dd: u64| h@ != #[trigger] hex_of_u64(dd) by {
                    if h@ == hex_of_u64(dd) {
                        lemma_nib_bound(dd, ((15 - 13) * 4) as u64);
                        let nb: u8 = ((dd >> (((15 - 13) * 4) as u64)) & 0xf) as u8;
                        assert(h@[13] == hex_digit(nb));
                        assert(hex_digit(nb) != h@[13]);
                    }
                }
            }
            return None;
        },
    };
    let n14: u8 = match hex_nibble(h[14]) {
        Some(v) => v,
        None => {
            proof {
                assert forall|dd: u64| h@ != #[trigger] hex_of_u64(dd) by {
                    if h@ == hex_of_u64(dd) {
                        lemma_nib_bound(dd, ((15 - 14) * 4) as u64);
                        let nb: u8 = ((dd >> (((15 - 14) * 4) as u64)) & 0xf) as u8;
                        assert(h@[14] == hex_digit(nb));
                        assert(hex_digit(nb) != h@[14]);
                    }
                }
            }
            return None;
        },
    };
    let n15: u8 = match hex_nibble(h[15]) {
        Some(v) => v,
        None => {
            proof {
                assert forall|dd: u64| h@ != #[trigger] hex_of_u64(dd) by {
                    if h@ == hex_of_u64(dd) {
                        lemma_nib_bound(dd, ((15 - 15) * 4) as u64);
                        let nb: u8 = ((dd >> (((15 - 15) * 4) as u64)) & 0xf) as u8;
                        assert(h@[15] == hex_digit(nb));
                        assert(hex_digit(nb) != h@[15]);
                    }
                }
            }
            return None;
        },
    };
    let d: u64 = ((n0 as u64) << 60) | ((n1 as u64) << 56) | ((n2 as u64) << 52) | ((n3 as u64) << 48) | ((n4 as u64) << 44) | ((n5 as u64) << 40) | ((n6 as u64) << 36) | ((n7 as u64) << 32) | ((n8 as u64) << 28) | ((n9 as u64) << 24) | ((n10 as u64) << 20) | ((n11 as u64) << 16) | ((n12 as u64) << 12) | ((n13 as u64) << 8) | ((n14 as u64) << 4) | (n15 as u64);
    proof {
        assert forall|dd: u64| h@ == #[trigger] hex_of_u64(dd) implies d == dd by {
            let g0: u64 = n0 as u64;
            let g1: u64 = n1 as u64;
            let g2: u64 = n2 as u64;
            let g3: u64 = n3 as u64;
            let g4: u64 = n4 as u64;
            let g5: u64 = n5 as u64;
            let g6: u64 = n6 as u64;
            let g7: u64 = n7 as u64;
            let g8: u64 = n8 as u64;
            let g9: u64 = n9 as u64;
            let g10: u64 = n10 as u64;
            let g11: u64 = n11 as u64;
            let g12: u64 = n12 as u64;
            let g13: u64 = n13 as u64;
            let g14: u64 = n14 as u64;
            let g15: u64 = n15 as u64;
            assert(h@[0] == hex_digit(((dd >> (((15 - 0) * 4) as u64)) & 0xf) as u8));
            lemma_nib_bound(dd, ((15 - 0) * 4) as u64);
            lemma_hex_digit_inj(n0, ((dd >> (((15 - 0) * 4) as u64)) & 0xf) as u8);
            assert(g0 == (dd >> 60) & 0xf);
            assert(h@[1] == hex_digit(((dd >> (((15 - 1) * 4) as u64)) & 0xf) as u8));
            lemma_nib_bound(dd, ((15 - 1) * 4) as u64);
            lemma_hex_digit_inj(n1, ((dd >> (((15 - 1) * 4) as u64)) & 0xf) as u8);
            assert(g1 == (dd >> 56) & 0xf);
            assert(h@[2] == hex_digit(((dd >> (((15 - 2) * 4) as u64)) & 0xf) as u8));
            lemma_nib_bound(dd, ((15 - 2) * 4) as u64);
            lemma_hex_digit_inj(n2, ((dd >> (((15 - 2) * 4) as u64)) & 0xf) as u8);
            assert(g2 == (dd >> 52) & 0xf);
            assert(h@[3] == hex_digit(((dd >> (((15 - 3) * 4) as u64)) & 0xf) as u8));
            lemma_nib_bound(dd, ((15 - 3) * 4) as u64);
            lemma_hex_digit_inj(n3, ((dd >> (((15 - 3) * 4) as u64)) & 0xf) as u8);
            assert(g3 == (dd >> 48) & 0xf);
            assert(h@[4] == hex_digit(((dd >> (((15 - 4) * 4) as u64)) & 0xf) as u8));
            lemma_nib_bound(dd, ((15 - 4) * 4) as u64);
            lemma_hex_digit_inj(n4, ((dd >> (((15 - 4) * 4) as u64)) & 0xf) as u8);
            assert(g4 == (dd >> 44) & 0xf);
            assert(h@[5] == hex_digit(((dd >> (((15 - 5) * 4) as u64)) & 0xf) as u8));
            lemma_nib_bound(dd, ((15 - 5) * 4) as u64);
            lemma_hex_digit_inj(n5, ((dd >> (((15 - 5) * 4) as u64)) & 0xf) as u8);
            assert(g5 == (dd >> 40) & 0xf);
            assert(h@[6] == hex_digit(((dd >> (((15 - 6) * 4) as u64)) & 0xf) as u8));
            lemma_nib_bound(dd, ((15 - 6) * 4) as u64);
            lemma_hex_digit_inj(n6, ((dd >> (((15 - 6) * 4) as u64)) & 0xf) as u8);
            assert(g6 == (dd >> 36) & 0xf);
            assert(h@[7] == hex_digit(((dd >> (((15 - 7) * 4) as u64)) & 0xf) as u8));
            lemma_nib_bound(dd, ((15 - 7) * 4) as u64);
            lemma_hex_digit_inj(n7, ((dd >> (((15 - 7) * 4) as u64)) & 0xf) as u8);
            assert(g7 == (dd >> 32) & 0xf);
            assert(h@[8] == hex_digit(((dd >> (((15 - 8) * 4) as u64)) & 0xf) as u8));
            lemma_nib_bound(dd, ((15 - 8) * 4) as u64);
            lemma_hex_digit_inj(n8, ((dd >> (((15 - 8) * 4) as u64)) & 0xf) as u8);
            assert(g8 == (dd >> 28) & 0xf);
            assert(h@[9] == hex_digit(((dd >> (((15 - 9) * 4) as u64)) & 0xf) as u8));
            lemma_nib_bound(dd, ((15 - 9) * 4) as u64);
            lemma_hex_digit_inj(n9, ((dd >> (((15 - 9) * 4) as u64)) & 0xf) as u8);
            assert(g9 == (dd >> 24) & 0xf);
            assert(h@[10] == hex_digit(((dd >> (((15 - 10) * 4) as u64)) & 0xf) as u8));
            lemma_nib_bound(dd, ((15 - 10) * 4) as u64);
            lemma_hex_digit_inj(n10, ((dd >> (((15 - 10) * 4) as u64)) & 0xf) as u8);
            assert(g10 == (dd >> 20) & 0xf);
            assert(h@[11] == hex_digit(((dd >> (((15 - 11) * 4) as u64)) & 0xf) as u8));
            lemma_nib_bound(dd, ((15 - 11) * 4) as u64);
            lemma_hex_digit_inj(n11, ((dd >> (((15 - 11) * 4) as u64)) & 0xf) as u8);
            assert(g11 == (dd >> 16) & 0xf);
            assert(h@[12] == hex_digit(((dd >> (((15 - 12) * 4) as u64)) & 0xf) as u8));
            lemma_nib_bound(dd, ((15 - 12) * 4) as u64);
            lemma_hex_digit_inj(n12, ((dd >> (((15 - 12) * 4) as u64)) & 0xf) as u8);
            assert(g12 == (dd >> 12) & 0xf);
            assert(h@[13] == hex_digit(((dd >> (((15 - 13) * 4) as u64)) & 0xf) as u8));
            lemma_nib_bound(dd, ((15 - 13) * 4) as u64);
            lemma_hex_digit_inj(n13, ((dd >> (((15 - 13) * 4) as u64)) & 0xf) as u8);
            assert(g13 == (dd >> 8) & 0xf);
            assert(h@[14] == hex_digit(((dd >> (((15 - 14) * 4) as u64)) & 0xf) as u8));
            lemma_nib_bound(dd, ((15 - 14) * 4) as u64);
            lemma_hex_digit_inj(n14, ((dd >> (((15 - 14) * 4) as u64)) & 0xf) as u8);
            assert(g14 == (dd >> 4) & 0xf);
            assert(h@[15] == hex_digit(((dd >> (((15 - 15) * 4) as u64)) & 0xf) as u8));
            lemma_nib_bound(dd, ((15 - 15) * 4) as u64);
            lemma_hex_digit_inj(n15, ((dd >> (((15 - 15) * 4) as u64)) & 0xf) as u8);
            assert(g15 == (dd >> 0) & 0xf);
            assert((g0 == (dd >> 60) & 0xf && g1 == (dd >> 56) & 0xf && g2 == (dd >> 52) & 0xf && g3 == (dd >> 48) & 0xf && g4 == (dd >> 44) & 0xf && g5 == (dd >> 40) & 0xf && g6 == (dd >> 36) & 0xf && g7 == (dd >> 32) & 0xf && g8 == (dd >> 28) & 0xf && g9 == (dd >> 24) & 0xf && g10 == (dd >> 20) & 0xf && g11 == (dd >> 16) & 0xf && g12 == (dd >> 12) & 0xf && g13 == (dd >> 8) & 0xf && g14 == (dd >> 4) & 0xf && g15 == (dd >> 0) & 0xf) ==> ((g0 << 60) | (g1 << 56) | (g2 << 52) | (g3 << 48) | (g4 << 44) | (g5 << 40) | (g6 << 36) | (g7 << 32) | (g8 << 28) | (g9 << 24) | (g10 << 20) | (g11 << 16) | (g12 << 12) | (g13 << 8) | (g14 << 4) | g15) == dd) by (bit_vector);
        }
    }
    Some(d)
}


/// An index is the canonical owner of `d`: well formed, no edge key with
/// an empty row (an empty row writes no record, so such a key could
/// never be read back), and `d` is exactly its artifact.
pub open spec fn canonical_for(i: Index, d: Seq<u8>) -> bool {
    &&& i.wf()
    &&& forall|m: int| 0 <= m < i.fwd.vals@.len() ==> #[trigger] i.fwd.vals.deep_view()[m].len() > 0
    &&& forall|m: int| 0 <= m < i.rev.vals@.len() ==> #[trigger] i.rev.vals.deep_view()[m].len() > 0
    &&& serial_spec(i) == d
}

/// The artifact bytes following the root records.
pub open spec fn tail_hashes(i: Index) -> Seq<u8> {
    ser_hashes(i.hashes.keys.deep_view(), i.hashes.vals@) + tail_fwd(i)
}

/// The artifact bytes following the digest records.
pub open spec fn tail_fwd(i: Index) -> Seq<u8> {
    ser_table(69u8, i.fwd.keys.deep_view(), i.fwd.vals.deep_view()) + tail_rev(i)
}

/// The artifact bytes following the forward-edge records.
pub open spec fn tail_rev(i: Index) -> Seq<u8> {
    ser_table(86u8, i.rev.keys.deep_view(), i.rev.vals.deep_view())
}

/// The digest table rebuilt from its first `j` entries, in record order.
pub open spec fn hash_fold(keys: Seq<Seq<u8>>, vals: Seq<u64>, j: int) -> Map<Seq<u8>, u64>
    decreases j,
{
    if j <= 0 {
        Map::empty()
    } else {
        hash_fold(keys, vals, j - 1).insert(keys[j - 1], vals[j - 1])
    }
}

/// Folding a well-formed digest table's entries rebuilds its view.
proof fn lemma_hash_fold_full(t: HashTable)
    requires
        t.wf(),
    ensures
        hash_fold(t.keys.deep_view(), t.vals@, t.keys@.len() as int) == t@,
{
    let keys = t.keys.deep_view();
    let vals = t.vals@;
    crate::order::lemma_sorted_no_duplicates(keys);
    lemma_hash_fold_props(keys, vals, keys.len() as int);
    let m = hash_fold(keys, vals, keys.len() as int);
    assert(m =~= t@) by {
        assert forall|k: Seq<u8>| m.dom().contains(k) implies t@.dom().contains(k) by {
            let mm = choose|mm: int| 0 <= mm < keys.len() && keys[mm] == k;
        }
        assert forall|k: Seq<u8>| t@.dom().contains(k) implies m.dom().contains(k) by {
            let mm = choose|mm: int| 0 <= mm < keys.len() && keys[mm] == k;
        }
        assert forall|k: Seq<u8>| m.dom().contains(k) implies m[k] == t@[k] by {
            let mm = crate::graph::key_at(keys, k);
            assert(0 <= mm < keys.len() && keys[mm] == k);
            assert(m[keys[mm]] == vals[mm]);
        }
    }
}

/// What the digest fold holds after `j` entries.
proof fn lemma_hash_fold_props(keys: Seq<Seq<u8>>, vals: Seq<u64>, j: int)
    requires
        keys.no_duplicates(),
        keys.len() <= vals.len(),
        0 <= j <= keys.len(),
    ensures
        forall|k: Seq<u8>|
            #[trigger] hash_fold(keys, vals, j).dom().contains(k) <==> exists|mm: int|
                0 <= mm < j && keys[mm] == k,
        forall|mm: int| 0 <= mm < j ==> hash_fold(keys, vals, j)[#[trigger] keys[mm]] == vals[mm],
    decreases j,
{
    if j > 0 {
        lemma_hash_fold_props(keys, vals, j - 1);
        assert forall|mm: int| 0 <= mm < j implies hash_fold(keys, vals, j)[#[trigger] keys[mm]]
            == vals[mm] by {
            if mm < j - 1 {
                assert(keys[mm] != keys[j - 1]);
            }
        }
        assert forall|k: Seq<u8>| #[trigger] hash_fold(keys, vals, j).dom().contains(k) implies
            exists|mm: int| 0 <= mm < j && keys[mm] == k by {
            if hash_fold(keys, vals, j - 1).dom().contains(k) {
                let mm = choose|mm: int| 0 <= mm < j - 1 && #[trigger] keys[mm] == k;
                assert(keys[mm] == k);
            } else {
                assert(keys[j - 1] == k);
            }
        }
        assert forall|k: Seq<u8>| (exists|mm: int| 0 <= mm < j && #[trigger] keys[mm] == k)
            implies hash_fold(keys, vals, j).dom().contains(k) by {
            let mm = choose|mm: int| 0 <= mm < j && #[trigger] keys[mm] == k;
            if mm < j - 1 {
                assert(exists|m2: int| 0 <= m2 < j - 1 && keys[m2] == k);
            }
        }
    }
}

/// An edge table rebuilt from one row's first `l` records, over `m`.
pub open spec fn row_fold(m: Map<Seq<u8>, Set<Seq<u8>>>, k: Seq<u8>, vs: Seq<Seq<u8>>, l: int) -> Map<
    Seq<u8>,
    Set<Seq<u8>>,
>
    decreases l,
{
    if l <= 0 {
        m
    } else {
        map_add(row_fold(m, k, vs, l - 1), k, vs[l - 1])
    }
}

/// An edge table rebuilt from its first `j` full rows, in record order.
pub open spec fn table_fold(keys: Seq<Seq<u8>>, vals: Seq<Seq<Seq<u8>>>, j: int) -> Map<
    Seq<u8>,
    Set<Seq<u8>>,
>
    decreases j,
{
    if j <= 0 {
        Map::<Seq<u8>, Set<Seq<u8>>>::empty()
    } else {
        row_fold(table_fold(keys, vals, j - 1), keys[j - 1], vals[j - 1], vals[j - 1].len() as int)
    }
}

/// What one row's fold does: the key's set grows by the row's first `l`
/// values, nothing else moves.
proof fn lemma_row_fold_props(m: Map<Seq<u8>, Set<Seq<u8>>>, k: Seq<u8>, vs: Seq<Seq<u8>>, l: int)
    requires
        0 <= l <= vs.len(),
    ensures
        forall|a: Seq<u8>|
            a != k ==> (#[trigger] row_fold(m, k, vs, l).dom().contains(a) == m.dom().contains(a)),
        forall|a: Seq<u8>|
            a != k && m.dom().contains(a) ==> #[trigger] row_fold(m, k, vs, l)[a] == m[a],
        l == 0 ==> row_fold(m, k, vs, l) == m,
        l > 0 ==> row_fold(m, k, vs, l).dom().contains(k) && row_fold(m, k, vs, l)[k] == (
        if m.dom().contains(k) {
            m[k]
        } else {
            Set::<Seq<u8>>::empty()
        }).union(vs.subrange(0, l).to_set()),
    decreases l,
{
    if l > 0 {
        lemma_row_fold_props(m, k, vs, l - 1);
        let base = if m.dom().contains(k) {
            m[k]
        } else {
            Set::<Seq<u8>>::empty()
        };
        let prev = row_fold(m, k, vs, l - 1);
        let cur = row_fold(m, k, vs, l);
        assert(cur == map_add(prev, k, vs[l - 1]));
        assert(cur[k] =~= base.union(vs.subrange(0, l).to_set())) by {
            assert forall|y: Seq<u8>| cur[k].contains(y) implies base.union(
                vs.subrange(0, l).to_set(),
            ).contains(y) by {
                if y != vs[l - 1] {
                    if l - 1 > 0 {
                        if !base.contains(y) {
                            let w = choose|w: int|
                                0 <= w < l - 1 && #[trigger] vs.subrange(0, l - 1)[w] == y;
                            assert(vs.subrange(0, l)[w] == y);
                        }
                    }
                } else {
                    assert(vs.subrange(0, l)[l - 1] == y);
                }
            }
            assert forall|y: Seq<u8>| base.union(vs.subrange(0, l).to_set()).contains(y) implies
                cur[k].contains(y) by {
                if base.contains(y) {
                } else {
                    let w = choose|w: int|
                        0 <= w < l && #[trigger] vs.subrange(0, l)[w] == y;
                    if w < l - 1 {
                        assert(vs.subrange(0, l - 1)[w] == y);
                        assert(vs.subrange(0, l - 1).to_set().contains(y));
                    } else {
                        assert(y == vs[l - 1]);
                    }
                }
            }
        }
    }
}

/// What the table fold holds after `j` rows: exactly the view of the
/// first `j` rows, with empty rows contributing nothing.
proof fn lemma_table_fold_props(keys: Seq<Seq<u8>>, vals: Seq<Seq<Seq<u8>>>, j: int)
    requires
        keys.no_duplicates(),
        keys.len() <= vals.len(),
        0 <= j <= keys.len(),
    ensures
        forall|a: Seq<u8>|
            #[trigger] table_fold(keys, vals, j).dom().contains(a) ==> exists|mm: int|
                0 <= mm < j && keys[mm] == a,
        forall|mm: int|
            0 <= mm < j && vals[mm].len() > 0 ==> table_fold(keys, vals, j).dom().contains(
                #[trigger] keys[mm],
            ) && table_fold(keys, vals, j)[keys[mm]] == vals[mm].to_set(),
    decreases j,
{
    if j > 0 {
        lemma_table_fold_props(keys, vals, j - 1);
        let prev = table_fold(keys, vals, j - 1);
        lemma_row_fold_props(prev, keys[j - 1], vals[j - 1], vals[j - 1].len() as int);
        assert(vals[j - 1].subrange(0, vals[j - 1].len() as int) =~= vals[j - 1]);
        assert(!prev.dom().contains(keys[j - 1])) by {
            if prev.dom().contains(keys[j - 1]) {
                let mm = choose|mm: int| 0 <= mm < j - 1 && #[trigger] keys[mm] == keys[j - 1];
            }
        }
        assert forall|mm: int|
            0 <= mm < j && vals[mm].len() > 0 implies table_fold(keys, vals, j).dom().contains(
                #[trigger] keys[mm],
            ) && table_fold(keys, vals, j)[keys[mm]] == vals[mm].to_set() by {
            if mm < j - 1 {
                assert(keys[mm] != keys[j - 1]);
            } else {
                assert(Set::<Seq<u8>>::empty().union(vals[j - 1].to_set()) =~= vals[
                    j - 1
                ].to_set());
            }
        }
    }
}

/// Folding a well-formed edge table's records rebuilds its view, when no
/// row is empty.
proof fn lemma_table_fold_full(t: IncludeMapping)
    requires
        t.wf(),
        forall|m: int| 0 <= m < t.vals@.len() ==> #[trigger] t.vals.deep_view()[m].len() > 0,
    ensures
        table_fold(t.keys.deep_view(), t.vals.deep_view(), t.keys@.len() as int) == t@,
{
    let keys = t.keys.deep_view();
    let vals = t.vals.deep_view();
    crate::order::lemma_sorted_no_duplicates(keys);
    lemma_table_fold_props(keys, vals, keys.len() as int);
    let m = table_fold(keys, vals, keys.len() as int);
    assert(m =~= t@) by {
        assert forall|k: Seq<u8>| m.dom().contains(k) implies t@.dom().contains(k) by {
            let mm = choose|mm: int| 0 <= mm < keys.len() && keys[mm] == k;
        }
        assert forall|k: Seq<u8>| t@.dom().contains(k) implies m.dom().contains(k) by {
            let mm = crate::graph::key_at(keys, k);
            assert(0 <= mm < keys.len() && keys[mm] == k);
            assert(vals[mm].len() > 0);
        }
        assert forall|k: Seq<u8>| m.dom().contains(k) implies m[k] == t@[k] by {
            let mm = crate::graph::key_at(keys, k);
            assert(0 <= mm < keys.len() && keys[mm] == k);
            assert(vals[mm].len() > 0);
            assert(m[keys[mm]] == vals[mm].to_set());
        }
    }
}

/// A nonempty edge-table rendering starts with its tag.
proof fn lemma_table_first(tag: u8, keys: Seq<Seq<u8>>, vals: Seq<Seq<Seq<u8>>>)
    ensures
        ser_table(tag, keys, vals).len() > 0 ==> ser_table(tag, keys, vals)[0] == tag,
    decreases keys.len(),
{
    if keys.len() > 0 && vals.len() > 0 {
        lemma_table_first(tag, keys.skip(1), vals.skip(1));
        if vals[0].len() > 0 {
            assert(ser_row(tag, keys[0], vals[0])[0] == tag);
        } else {
            assert(ser_row(tag, keys[0], vals[0]) =~= Seq::<u8>::empty());
        }
    }
}

} // verus!
