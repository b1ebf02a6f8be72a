//! Library-wide laws, stated and proved once.

use vstd::prelude::*;
use crate::digest::digest_spec;
use crate::digest::is_header_name;
use crate::graph::Index;
use crate::graph::key_at;
use crate::impact::step;
use crate::scan::scan_post;
use crate::order::lemma_sorted_no_duplicates;
use crate::order::lemma_sorted_same_set;
use crate::serial::serial_spec;
use crate::strip::LexState;
use crate::strip::boundary_safe;
use crate::strip::end_state;
use crate::strip::lemma_strip_concat;
use crate::strip::strip_spec;
use crate::strip::strip_state;

verus! {

/// Comment-only differences never change a header's digest: two contents
/// with the same comment-stripped form digest identically. (That a
/// non-comment edit does change the digest is a property of the hash on
/// concrete inputs, not a theorem: a fixed-length digest must collide
/// somewhere.)
pub proof fn lemma_digest_ignores_comments(p: Seq<u8>, c1: Seq<u8>, c2: Seq<u8>)
    requires
        is_header_name(p),
        strip_spec(c1) == strip_spec(c2),
    ensures
        digest_spec(p, c1) == digest_spec(p, c2),
{
}

/// The persisted artifact is canonical: two well-formed indexes with the
/// same contents (as sets and maps) write the same bytes, whatever order
/// they were built in. With the scan's output determined by its input,
/// scanning an unchanged tree twice persists byte-identical artifacts.
pub proof fn lemma_index_canonical(a: Index, b: Index)
    requires
        a.wf(),
        b.wf(),
        a.roots.deep_view().to_set() == b.roots.deep_view().to_set(),
        a.hashes@ == b.hashes@,
        a.fwd@ == b.fwd@,
        a.rev@ == b.rev@,
    ensures
        serial_spec(a) == serial_spec(b),
{
    lemma_sorted_same_set(a.roots.deep_view(), b.roots.deep_view());
    lemma_hash_rep(a, b);
    lemma_table_rep(
        a.fwd.keys.deep_view(),
        a.fwd.vals.deep_view(),
        b.fwd.keys.deep_view(),
        b.fwd.vals.deep_view(),
        a.fwd@,
    );
    lemma_table_rep(
        a.rev.keys.deep_view(),
        a.rev.vals.deep_view(),
        b.rev.keys.deep_view(),
        b.rev.vals.deep_view(),
        a.rev@,
    );
}

/// Two well-formed digest tables with the same map have the same layout.
proof fn lemma_hash_rep(a: Index, b: Index)
    requires
        a.wf(),
        b.wf(),
        a.hashes@ == b.hashes@,
    ensures
        a.hashes.keys.deep_view() == b.hashes.keys.deep_view(),
        a.hashes.vals@ == b.hashes.vals@,
{
    let ak = a.hashes.keys.deep_view();
    let bk = b.hashes.keys.deep_view();
    lemma_sorted_no_duplicates(ak);
    lemma_sorted_no_duplicates(bk);
    assert(ak.to_set() =~= bk.to_set()) by {
        assert forall|x: Seq<u8>| ak.to_set().contains(x) implies bk.to_set().contains(x) by {
            assert(a.hashes@.dom().contains(x));
            assert(b.hashes@.dom().contains(x));
        }
        assert forall|x: Seq<u8>| bk.to_set().contains(x) implies ak.to_set().contains(x) by {
            assert(b.hashes@.dom().contains(x));
            assert(a.hashes@.dom().contains(x));
        }
    }
    lemma_sorted_same_set(ak, bk);
    assert(a.hashes.vals@ =~= b.hashes.vals@) by {
        assert forall|i: int| 0 <= i < ak.len() implies a.hashes.vals@[i] == b.hashes.vals@[i] by {
            let k = ak[i];
            assert(ak.contains(k)) by {
                assert(ak[i] == k);
            }
            assert(key_at(ak, k) == i);
            assert(key_at(bk, k) == i);
            assert(a.hashes@[k] == a.hashes.vals@[i]);
            assert(b.hashes@[k] == b.hashes.vals@[i]);
        }
    }
}

/// Two well-formed edge tables with the same map have the same layout.
proof fn lemma_table_rep(
    ak: Seq<Seq<u8>>,
    av: Seq<Seq<Seq<u8>>>,
    bk: Seq<Seq<u8>>,
    bv: Seq<Seq<Seq<u8>>>,
    m: Map<Seq<u8>, Set<Seq<u8>>>,
)
    requires
        crate::order::sorted_strict(ak),
        crate::order::sorted_strict(bk),
        ak.len() == av.len(),
        bk.len() == bv.len(),
        forall|i: int| 0 <= i < av.len() ==> crate::order::sorted_strict(#[trigger] av[i]),
        forall|i: int| 0 <= i < bv.len() ==> crate::order::sorted_strict(#[trigger] bv[i]),
        m == Map::new(|k: Seq<u8>| ak.contains(k), |k: Seq<u8>| av[key_at(ak, k)].to_set()),
        m == Map::new(|k: Seq<u8>| bk.contains(k), |k: Seq<u8>| bv[key_at(bk, k)].to_set()),
    ensures
        ak == bk,
        av == bv,
{
    lemma_sorted_no_duplicates(ak);
    lemma_sorted_no_duplicates(bk);
    assert(ak.to_set() =~= bk.to_set()) by {
        assert forall|x: Seq<u8>| ak.to_set().contains(x) implies bk.to_set().contains(x) by {
            assert(m.dom().contains(x));
        }
        assert forall|x: Seq<u8>| bk.to_set().contains(x) implies ak.to_set().contains(x) by {
            assert(m.dom().contains(x));
        }
    }
    lemma_sorted_same_set(ak, bk);
    assert(av =~= bv) by {
        assert forall|i: int| 0 <= i < av.len() implies av[i] == bv[i] by {
            let k = ak[i];
            assert(ak.contains(k)) by {
                assert(ak[i] == k);
            }
            assert(key_at(ak, k) == i);
            assert(key_at(bk, k) == i);
            assert(m[k] == av[i].to_set());
            assert(m[k] == bv[i].to_set());
            lemma_sorted_same_set(av[i], bv[i]);
        }
    }
}


/// A block comment body free of the terminator, followed by the
/// terminator, is consumed whole and silently, leaving the scanner in
/// plain code.
proof fn lemma_block_tail(body: Seq<u8>)
    requires
        forall|i: int| #![trigger body[i]] 0 <= i < body.len() - 1 ==> !(body[i] == 42 && body[i + 1] == 47),
    ensures
        strip_state(body + seq![42u8, 47u8], LexState::Block) == Seq::<u8>::empty(),
        end_state(body + seq![42u8, 47u8], LexState::Block) == LexState::Code,
    decreases body.len(),
{
    let s = body + seq![42u8, 47u8];
    if body.len() == 0 {
        assert(s =~= seq![42u8, 47u8]);
        assert(s.len() == 2 && s[0] == 42 && s[1] == 47);
        assert(s.skip(2) =~= Seq::<u8>::empty());
        assert(strip_state(s, LexState::Block) == strip_state(s.skip(2), LexState::Code));
        assert(strip_state(s.skip(2), LexState::Code) == Seq::<u8>::empty());
        assert(end_state(s, LexState::Block) == end_state(s.skip(2), LexState::Code));
        assert(end_state(s.skip(2), LexState::Code) == LexState::Code);
    } else {
        assert(s[0] == body[0]);
        if body.len() == 1 {
            assert(s[1] == 42);
        } else {
            assert(s[1] == body[1]);
        }
        assert(!(s[0] == 42 && s[1] == 47));
        assert(s.skip(1) =~= body.skip(1) + seq![42u8, 47u8]);
        assert forall|i: int| #![trigger body.skip(1)[i]] 0 <= i < body.skip(1).len() - 1
            implies !(body.skip(1)[i] == 42 && body.skip(1)[i + 1] == 47) by {
            assert(body.skip(1)[i] == body[i + 1]);
            assert(body.skip(1)[i + 1] == body[i + 2]);
        }
        lemma_block_tail(body.skip(1));
        assert(strip_state(s.skip(1), LexState::Block) == Seq::<u8>::empty());
        assert(end_state(s.skip(1), LexState::Block) == LexState::Code);
        assert(strip_state(s, LexState::Block) == strip_state(s.skip(1), LexState::Block));
        assert(end_state(s, LexState::Block) == end_state(s.skip(1), LexState::Block));
    }
}

/// A line comment body without a newline is consumed whole and silently.
proof fn lemma_line_tail(body: Seq<u8>)
    requires
        forall|i: int| #![trigger body[i]] 0 <= i < body.len() ==> body[i] != 10,
    ensures
        strip_state(body, LexState::Line) == Seq::<u8>::empty(),
    decreases body.len(),
{
    if body.len() > 0 {
        assert forall|i: int| #![trigger body.skip(1)[i]] 0 <= i < body.skip(1).len() implies
            body.skip(1)[i] != 10 by {
            assert(body.skip(1)[i] == body[i + 1]);
        }
        lemma_line_tail(body.skip(1));
    }
}

/// Appending a terminated `/* ... */` comment to a header's content
/// leaves its digest unchanged, provided the content does not end inside
/// a comment and does not end with a byte the comment opener would merge
/// with (a trailing `/` would turn into a comment opener itself), and
/// the body does not contain the terminator.
pub proof fn lemma_append_block_comment(p: Seq<u8>, c: Seq<u8>, body: Seq<u8>)
    requires
        is_header_name(p),
        boundary_safe(c, LexState::Code),
        end_state(c, LexState::Code) == LexState::Code,
        forall|i: int| #![trigger body[i]] 0 <= i < body.len() - 1 ==> !(body[i] == 42 && body[i + 1] == 47),
    ensures
        digest_spec(p, c + (seq![47u8, 42u8] + body + seq![42u8, 47u8])) == digest_spec(p, c),
{
    let t = seq![47u8, 42u8] + body + seq![42u8, 47u8];
    lemma_strip_concat(c, t, LexState::Code);
    assert(t[0] == 47 && t[1] == 42);
    assert(t.skip(2) =~= body + seq![42u8, 47u8]);
    lemma_block_tail(body);
    assert(strip_state(t, LexState::Code) =~= Seq::<u8>::empty());
    assert(strip_spec(c + t) =~= strip_spec(c));
}

/// Appending a `// ...` comment (no newline in it) to a header's content
/// leaves its digest unchanged, under the same boundary conditions.
pub proof fn lemma_append_line_comment(p: Seq<u8>, c: Seq<u8>, body: Seq<u8>)
    requires
        is_header_name(p),
        boundary_safe(c, LexState::Code),
        end_state(c, LexState::Code) == LexState::Code,
        forall|i: int| #![trigger body[i]] 0 <= i < body.len() ==> body[i] != 10,
    ensures
        digest_spec(p, c + (seq![47u8, 47u8] + body)) == digest_spec(p, c),
{
    let t = seq![47u8, 47u8] + body;
    lemma_strip_concat(c, t, LexState::Code);
    assert(t[0] == 47 && t[1] == 47);
    assert(t.skip(2) =~= body);
    lemma_line_tail(body);
    assert(strip_state(t, LexState::Code) =~= Seq::<u8>::empty());
    assert(strip_spec(c + t) =~= strip_spec(c));
}


/// Two edge tables with the same step relation and no empty rows are the
/// same map.
pub proof fn lemma_edges_determined(m1: Map<Seq<u8>, Set<Seq<u8>>>, m2: Map<Seq<u8>, Set<Seq<u8>>>)
    requires
        forall|a: Seq<u8>, b: Seq<u8>| #[trigger] step(m1, a, b) == #[trigger] step(m2, a, b),
        forall|a: Seq<u8>| #[trigger] m1.dom().contains(a) ==> exists|b: Seq<u8>| m1[a].contains(b),
        forall|a: Seq<u8>| #[trigger] m2.dom().contains(a) ==> exists|b: Seq<u8>| m2[a].contains(b),
    ensures
        m1 == m2,
{
    assert forall|a: Seq<u8>| m1.dom().contains(a) implies m2.dom().contains(a) by {
        let b = choose|b: Seq<u8>| m1[a].contains(b);
        assert(step(m1, a, b));
        assert(step(m2, a, b));
    }
    assert forall|a: Seq<u8>| m2.dom().contains(a) implies m1.dom().contains(a) by {
        let b = choose|b: Seq<u8>| m2[a].contains(b);
        assert(step(m2, a, b));
        assert(step(m1, a, b));
    }
    assert forall|a: Seq<u8>| #[trigger] m1.dom().contains(a) implies m1[a] == m2[a] by {
        assert forall|b: Seq<u8>| m1[a].contains(b) == m2[a].contains(b) by {
            assert(step(m1, a, b) == step(m2, a, b));
        }
        assert(m1[a] =~= m2[a]);
    }
    assert(m1 =~= m2);
}

/// The scan is deterministic down to the persisted bytes: any two indexes
/// that meet the scan's contract for the same roots and files serialize
/// identically. Re-running a scan over an unchanged tree therefore
/// persists a byte-identical artifact.
pub proof fn lemma_scan_idempotent(
    a: Index,
    b: Index,
    roots: Seq<Seq<u8>>,
    fs: Seq<(Seq<u8>, Seq<u8>)>,
)
    requires
        scan_post(a, roots, fs),
        scan_post(b, roots, fs),
    ensures
        serial_spec(a) == serial_spec(b),
{
    lemma_sorted_same_set(a.roots.deep_view(), b.roots.deep_view());
    assert(a.hashes@ == b.hashes@);
    assert forall|x: Seq<u8>, y: Seq<u8>| #[trigger] step(a.fwd@, x, y) == #[trigger] step(
        b.fwd@,
        x,
        y,
    ) by {}
    lemma_edges_determined(a.fwd@, b.fwd@);
    assert forall|x: Seq<u8>, y: Seq<u8>| #[trigger] step(a.rev@, x, y) == #[trigger] step(
        b.rev@,
        x,
        y,
    ) by {}
    lemma_edges_determined(a.rev@, b.rev@);
    lemma_index_canonical(a, b);
}

} // verus!
