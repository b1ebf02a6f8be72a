//! Lexicographic ordering on byte strings, and sorted sequences of them.
//!
//! Every table in the crate keeps its keys in strictly increasing byte
//! order, so that a table's concrete layout is determined by its contents
//! and serialized output is canonical.

use vstd::prelude::*;

verus! {

/// Strict lexicographic order on byte strings: a proper prefix comes first,
/// otherwise the first differing byte decides.
pub open spec fn lex_lt(a: Seq<u8>, b: Seq<u8>) -> bool
    decreases a.len(),
{
    if b.len() == 0 {
        false
    } else if a.len() == 0 {
        true
    } else if a[0] < b[0] {
        true
    } else if a[0] > b[0] {
        false
    } else {
        lex_lt(a.skip(1), b.skip(1))
    }
}

/// No byte string is below itself.
pub proof fn lemma_lex_irreflexive(a: Seq<u8>)
    ensures
        !lex_lt(a, a),
    decreases a.len(),
{
    if a.len() > 0 {
        lemma_lex_irreflexive(a.skip(1));
    }
}

/// The order is transitive.
pub proof fn lemma_lex_transitive(a: Seq<u8>, b: Seq<u8>, c: Seq<u8>)
    requires
        lex_lt(a, b),
        lex_lt(b, c),
    ensures
        lex_lt(a, c),
    decreases a.len(),
{
    if c.len() == 0 || a.len() == 0 {
    } else if b.len() == 0 {
    } else {
        if a[0] == b[0] && b[0] == c[0] {
            lemma_lex_transitive(a.skip(1), b.skip(1), c.skip(1));
        }
    }
}

/// Three-way comparison result.
#[derive(PartialEq, Eq, Structural, Clone, Copy, Debug)]
pub enum Rank {
    Below,
    Same,
    Above,
}

/// Compares two byte strings in lexicographic order.
pub fn bytes_cmp(a: &Vec<u8>, b: &Vec<u8>) -> (r: Rank)
    ensures
        (r == Rank::Below) == lex_lt(a@, b@),
        (r == Rank::Same) == (a@ == b@),
        (r == Rank::Above) == lex_lt(b@, a@),
{
    let n: usize = if a.len() < b.len() {
        a.len()
    } else {
        b.len()
    };
    let mut i: usize = 0;
    proof {
        assert(a@.skip(0) =~= a@);
        assert(b@.skip(0) =~= b@);
    }
    while i < n
        invariant
            0 <= i <= n,
            n <= a.len(),
            n <= b.len(),
            n == if a@.len() < b@.len() {
                a@.len()
            } else {
                b@.len()
            },
            forall|j: int| 0 <= j < i ==> a@[j] == b@[j],
            lex_lt(a@, b@) == lex_lt(a@.skip(i as int), b@.skip(i as int)),
            lex_lt(b@, a@) == lex_lt(b@.skip(i as int), a@.skip(i as int)),
            (a@ == b@) == (a@.skip(i as int) == b@.skip(i as int)),
        decreases n - i,
    {
        let x = a[i];
        let y = b[i];
        proof {
            assert(a@.skip(i as int).len() > 0);
            assert(b@.skip(i as int).len() > 0);
            assert(a@.skip(i as int)[0] == a@[i as int]);
            assert(b@.skip(i as int)[0] == b@[i as int]);
            assert(a@.skip(i as int).skip(1) =~= a@.skip(i + 1));
            assert(b@.skip(i as int).skip(1) =~= b@.skip(i + 1));
        }
        if x < y {
            return Rank::Below;
        }
        if x > y {
            proof {
                if a@ == b@ {
                    assert(a@[i as int] == b@[i as int]);
                }
            }
            return Rank::Above;
        }
        proof {
            if a@.skip(i as int) == b@.skip(i as int) {
                assert(a@.skip(i + 1) == b@.skip(i + 1));
            }
            if a@.skip(i + 1) == b@.skip(i + 1) {
                assert(a@.skip(i as int) =~= seq![a@[i as int]] + a@.skip(i + 1));
                assert(b@.skip(i as int) =~= seq![b@[i as int]] + b@.skip(i + 1));
            }
        }
        i = i + 1;
    }
    proof {
        assert(a@.skip(i as int).len() == 0 || b@.skip(i as int).len() == 0);
    }
    if a.len() < b.len() {
        Rank::Below
    } else if b.len() < a.len() {
        proof {
            assert(b@.skip(i as int).len() == 0);
            assert(a@.skip(i as int).len() > 0);
            if a@ == b@ {
                assert(a@.len() == b@.len());
            }
        }
        Rank::Above
    } else {
        proof {
            assert(a@.skip(i as int) =~= b@.skip(i as int));
        }
        Rank::Same
    }
}

/// A sequence of byte strings in strictly increasing order.
pub open spec fn sorted_strict(s: Seq<Seq<u8>>) -> bool {
    forall|i: int, j: int| 0 <= i < j < s.len() ==> lex_lt(s[i], s[j])
}

/// A strictly sorted sequence names each element once.
pub proof fn lemma_sorted_no_duplicates(s: Seq<Seq<u8>>)
    requires
        sorted_strict(s),
    ensures
        s.no_duplicates(),
{
    assert forall|i: int, j: int| 0 <= i < s.len() && 0 <= j < s.len() && i != j implies s[i]
        != s[j] by {
        if i < j {
            lemma_lex_irreflexive(s[i]);
        } else {
            lemma_lex_irreflexive(s[j]);
        }
    }
}

/// Two strictly sorted sequences with the same elements are the same
/// sequence: sorting canonicalizes.
pub proof fn lemma_sorted_same_set(a: Seq<Seq<u8>>, b: Seq<Seq<u8>>)
    requires
        sorted_strict(a),
        sorted_strict(b),
        a.to_set() == b.to_set(),
    ensures
        a == b,
    decreases a.len(),
{
    if a.len() == 0 {
        if b.len() > 0 {
            assert(b.to_set().contains(b[0]));
            assert(a.to_set().contains(b[0]));
        }
        assert(a =~= b);
    } else {
        assert(a.to_set().contains(a[0]));
        assert(b.to_set().contains(a[0]));
        let j = choose|j: int| 0 <= j < b.len() && b[j] == a[0];
        assert(b.to_set().contains(b[0]));
        assert(a.to_set().contains(b[0]));
        let k = choose|k: int| 0 <= k < a.len() && a[k] == b[0];
        if j > 0 {
            // b[0] comes before a[0] in the order, yet b[0] = a[k] with k >= 1
            // puts a[0] before b[0]: contradiction with irreflexivity.
            assert(lex_lt(b[0], b[j]));
            if k > 0 {
                assert(lex_lt(a[0], a[k]));
                lemma_lex_transitive(a[0], b[0], a[0]);
                lemma_lex_irreflexive(a[0]);
            } else {
                lemma_lex_irreflexive(a[0]);
            }
        }
        assert(b.len() > 0 && b[0] == a[0]);
        let at = a.skip(1);
        let bt = b.skip(1);
        lemma_sorted_no_duplicates(a);
        lemma_sorted_no_duplicates(b);
        assert(at.to_set() =~= bt.to_set()) by {
            assert forall|x: Seq<u8>| at.to_set().contains(x) implies bt.to_set().contains(x) by {
                let i = choose|i: int| 0 <= i < at.len() && at[i] == x;
                assert(a[i + 1] == x);
                assert(a.to_set().contains(x));
                assert(b.to_set().contains(x));
                let m = choose|m: int| 0 <= m < b.len() && b[m] == x;
                assert(x != a[0]);
                assert(m > 0);
                assert(bt[m - 1] == x);
            }
            assert forall|x: Seq<u8>| bt.to_set().contains(x) implies at.to_set().contains(x) by {
                let i = choose|i: int| 0 <= i < bt.len() && bt[i] == x;
                assert(b[i + 1] == x);
                assert(b.to_set().contains(x));
                assert(a.to_set().contains(x));
                let m = choose|m: int| 0 <= m < a.len() && a[m] == x;
                assert(x != b[0]);
                assert(m > 0);
                assert(at[m - 1] == x);
            }
        }
        lemma_sorted_same_set(at, bt);
        assert(a =~= seq![a[0]] + at);
        assert(b =~= seq![b[0]] + bt);
    }
}

/// Inserts a byte string into a strictly sorted list of byte strings,
/// keeping the list sorted; a string already present is not added twice.
pub fn insert_sorted(v: &mut Vec<Vec<u8>>, x: Vec<u8>)
    requires
        sorted_strict(old(v).deep_view()),
    ensures
        sorted_strict(final(v).deep_view()),
        final(v).deep_view().to_set() == old(v).deep_view().to_set().insert(x@),
{
    let ghost orig = v.deep_view();
    let mut i: usize = 0;
    while i < v.len()
        invariant_except_break
            0 <= i <= v.len(),
            v.deep_view() == orig,
            sorted_strict(orig),
            forall|j: int| 0 <= j < i ==> lex_lt(orig[j], x@),
        ensures
            0 <= i <= v.len(),
            v.deep_view() == orig,
            forall|j: int| 0 <= j < i ==> lex_lt(orig[j], x@),
            i < v.len() ==> lex_lt(x@, orig[i as int]),
        decreases v.len() - i,
    {
        match bytes_cmp(&v[i], &x) {
            Rank::Below => {
                proof {
                    assert(v.deep_view()[i as int] == v@[i as int]@);
                }
                i = i + 1;
            },
            Rank::Same => {
                proof {
                    assert(v.deep_view()[i as int] == v@[i as int]@);
                    assert(orig[i as int] == x@);
                    assert(orig.to_set().contains(x@));
                    assert(orig.to_set() =~= orig.to_set().insert(x@));
                }
                return ;
            },
            Rank::Above => {
                proof {
                    assert(v.deep_view()[i as int] == v@[i as int]@);
                }
                break ;
            },
        }
    }
    let ghost pre = v@;
    v.insert(i, x);
    proof {
        let now = v.deep_view();
        assert(v@ == pre.insert(i as int, x));
        assert(now.len() == orig.len() + 1);
        assert forall|k: int| 0 <= k < now.len() implies now[k] == (orig.subrange(0, i as int)
            + seq![x@] + orig.skip(i as int))[k] by {
            assert(now[k] == v@[k]@);
            if k < i {
                assert(v@[k] == pre[k]);
            } else if k == i {
                assert(v@[k] == x);
            } else {
                assert(v@[k] == pre[k - 1]);
            }
        }
        assert(now =~= orig.subrange(0, i as int) + seq![x@] + orig.skip(i as int));
        assert forall|p: int, q: int| 0 <= p < q < now.len() implies lex_lt(now[p], now[q]) by {
            if p < i && q == i {
            } else if p == i && q > i {
                assert(lex_lt(x@, orig[q - 1])) by {
                    if q - 1 > i {
                        lemma_lex_transitive(x@, orig[i as int], orig[q - 1]);
                    }
                }
            } else if p < i && q > i {
                assert(lex_lt(orig[p], orig[q - 1]));
            } else if p > i && q > i {
                assert(lex_lt(orig[p - 1], orig[q - 1]));
            }
        }
        assert(now.to_set() =~= orig.to_set().insert(x@)) by {
            assert forall|y: Seq<u8>| now.to_set().contains(y) implies orig.to_set().insert(
                x@,
            ).contains(y) by {
                let m = choose|m: int| 0 <= m < now.len() && now[m] == y;
                if m < i {
                    assert(orig[m] == y);
                } else if m > i {
                    assert(orig[m - 1] == y);
                }
            }
            assert forall|y: Seq<u8>| orig.to_set().insert(x@).contains(y) implies
                now.to_set().contains(y) by {
                if y == x@ {
                    assert(now[i as int] == y);
                } else {
                    let m = choose|m: int| 0 <= m < orig.len() && orig[m] == y;
                    if m < i {
                        assert(now[m] == y);
                    } else {
                        assert(now[m + 1] == y);
                    }
                }
            }
        }
    }
}

/// Sorts a list of byte strings, dropping repeats: the result is strictly
/// sorted and holds exactly the strings of the input.
pub fn sort_unique(v: &Vec<Vec<u8>>) -> (r: Vec<Vec<u8>>)
    ensures
        sorted_strict(r.deep_view()),
        r.deep_view().to_set() == v.deep_view().to_set(),
{
    let mut out: Vec<Vec<u8>> = Vec::new();
    let mut i: usize = 0;
    proof {
        assert(out.deep_view().to_set() =~= v.deep_view().subrange(0, 0).to_set());
    }
    while i < v.len()
        invariant
            0 <= i <= v.len(),
            sorted_strict(out.deep_view()),
            out.deep_view().to_set() == v.deep_view().subrange(0, i as int).to_set(),
        decreases v.len() - i,
    {
        let x = v[i].clone();
        proof {
            assert(x@ == v.deep_view()[i as int]);
        }
        insert_sorted(&mut out, x);
        proof {
            let pre = v.deep_view().subrange(0, i as int);
            let post = v.deep_view().subrange(0, i + 1);
            let e = v.deep_view()[i as int];
            assert(post =~= pre + seq![e]);
            assert forall|y: Seq<u8>| post.to_set().contains(y) implies pre.to_set().insert(
                e,
            ).contains(y) by {
                let m = choose|m: int| 0 <= m < post.len() && post[m] == y;
                if m < i {
                    assert(pre[m] == y);
                }
            }
            assert forall|y: Seq<u8>| pre.to_set().insert(e).contains(y) implies
                post.to_set().contains(y) by {
                if y == e {
                    assert(post[i as int] == y);
                } else {
                    let m = choose|m: int| 0 <= m < pre.len() && pre[m] == y;
                    assert(post[m] == y);
                }
            }
            assert(post.to_set() =~= pre.to_set().insert(e));
        }
        i = i + 1;
    }
    proof {
        assert(v.deep_view().subrange(0, v.deep_view().len() as int) =~= v.deep_view());
    }
    out
}

} // verus!
