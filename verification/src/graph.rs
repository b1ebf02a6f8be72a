//! The dependency graph store.
//!
//! An [`IncludeMapping`] maps a path to the set of paths recorded against
//! it; the graph keeps one such table for forward edges (includer to
//! included) and one mirrored table for reverse edges (included to
//! includer). A [`HashTable`] maps a path to its content digest. All keys
//! and all per-key sets are kept in strictly increasing byte order, so a
//! table's layout is determined by its contents.

use vstd::prelude::*;
use crate::order::Rank;
use crate::order::bytes_cmp;
use crate::order::insert_sorted;
use crate::order::lemma_lex_irreflexive;
use crate::order::lemma_lex_transitive;
use crate::order::lemma_sorted_no_duplicates;
use crate::order::lex_lt;
use crate::order::sorted_strict;

verus! {

/// The unique position of `k` in `keys` (meaningful when `keys` holds `k`
/// and has no duplicates).
pub open spec fn key_at(keys: Seq<Seq<u8>>, k: Seq<u8>) -> int {
    choose|i: int| 0 <= i < keys.len() && keys[i] == k
}

/// Finds the place of `k` in a strictly sorted key list: either its index
/// (`r.1` true) or the index where it would be inserted (`r.1` false).
fn locate(keys: &Vec<Vec<u8>>, k: &Vec<u8>) -> (r: (usize, bool))
    requires
        sorted_strict(keys.deep_view()),
    ensures
        r.0 <= keys.len(),
        r.1 ==> r.0 < keys.len() && keys.deep_view()[r.0 as int] == k@,
        !r.1 ==> !keys.deep_view().contains(k@),
        !r.1 ==> forall|j: int| 0 <= j < r.0 ==> lex_lt(keys.deep_view()[j], k@),
        !r.1 ==> (r.0 < keys.len() ==> lex_lt(k@, keys.deep_view()[r.0 as int])),
{
    let ghost dv = keys.deep_view();
    let mut i: usize = 0;
    while i < keys.len()
        invariant_except_break
            0 <= i <= keys.len(),
            dv == keys.deep_view(),
            sorted_strict(dv),
            forall|j: int| 0 <= j < i ==> lex_lt(dv[j], k@),
        ensures
            0 <= i <= keys.len(),
            dv == keys.deep_view(),
            sorted_strict(dv),
            forall|j: int| 0 <= j < i ==> lex_lt(dv[j], k@),
            i < keys.len() ==> lex_lt(k@, dv[i as int]),
        decreases keys.len() - i,
    {
        match bytes_cmp(&keys[i], k) {
            Rank::Below => {
                proof {
                    assert(dv[i as int] == keys@[i as int]@);
                }
                i = i + 1;
            },
            Rank::Same => {
                proof {
                    assert(dv[i as int] == keys@[i as int]@);
                }
                return (i, true);
            },
            Rank::Above => {
                proof {
                    assert(dv[i as int] == keys@[i as int]@);
                }
                break ;
            },
        }
    }
    proof {
        assert forall|j: int| 0 <= j < dv.len() implies dv[j] != k@ by {
            if j < i {
                lemma_lex_irreflexive(dv[j]);
            } else if j == i {
                lemma_lex_irreflexive(k@);
            } else if i < dv.len() {
                assert(lex_lt(dv[i as int], dv[j]));
                assert(lex_lt(k@, dv[i as int]));
                lemma_lex_transitive(k@, dv[i as int], dv[j]);
                lemma_lex_irreflexive(dv[j]);
            }
        }
    }
    (i, false)
}

/// A mapping from a path to the set of paths recorded against it.
pub struct IncludeMapping {
    pub keys: Vec<Vec<u8>>,
    pub vals: Vec<Vec<Vec<u8>>>,
}

impl View for IncludeMapping {
    type V = Map<Seq<u8>, Set<Seq<u8>>>;

    open spec fn view(&self) -> Map<Seq<u8>, Set<Seq<u8>>> {
        Map::new(
            |k: Seq<u8>| self.keys.deep_view().contains(k),
            |k: Seq<u8>|
                self.vals.deep_view()[key_at(self.keys.deep_view(), k)].to_set(),
        )
    }
}

/// `m` with `v` added to the set recorded under `k`.
pub open spec fn map_add(
    m: Map<Seq<u8>, Set<Seq<u8>>>,
    k: Seq<u8>,
    v: Seq<u8>,
) -> Map<Seq<u8>, Set<Seq<u8>>> {
    let s = if m.dom().contains(k) {
        m[k]
    } else {
        Set::empty()
    };
    m.insert(k, s.insert(v))
}

impl IncludeMapping {
    /// Keys strictly sorted, one value list per key, each value list
    /// strictly sorted.
    pub open spec fn wf(&self) -> bool {
        &&& sorted_strict(self.keys.deep_view())
        &&& self.keys.len() == self.vals.len()
        &&& forall|i: int|
            0 <= i < self.vals.len() ==> sorted_strict(#[trigger] self.vals.deep_view()[i])
    }

    /// An empty mapping.
    pub fn new() -> (r: IncludeMapping)
        ensures
            r.wf(),
            r@ == Map::<Seq<u8>, Set<Seq<u8>>>::empty(),
    {
        let r = IncludeMapping { keys: Vec::new(), vals: Vec::new() };
        proof {
            assert(r@ =~= Map::<Seq<u8>, Set<Seq<u8>>>::empty());
        }
        r
    }

    /// Records `value` under `key`.
    pub fn insert(&mut self, key: Vec<u8>, value: Vec<u8>)
        requires
            old(self).wf(),
        ensures
            final(self).wf(),
            final(self)@ == map_add(old(self)@, key@, value@),
    {
        let ghost okeys = self.keys.deep_view();
        let ghost ovals = self.vals.deep_view();
        let ghost om = self@;
        proof {
            lemma_sorted_no_duplicates(okeys);
        }
        let loc = locate(&self.keys, &key);
        let i = loc.0;
        if loc.1 {
            proof {
                assert(okeys.contains(key@));
                assert(key_at(okeys, key@) == i as int);
            }
            let mut slot = self.vals.remove(i);
            proof {
                assert(slot.deep_view() == ovals[i as int]);
            }
            insert_sorted(&mut slot, value);
            self.vals.insert(i, slot);
            proof {
                assert(self.keys.deep_view() == okeys);
                let nvals = self.vals.deep_view();
                assert(nvals.len() == ovals.len());
                assert forall|j: int| 0 <= j < nvals.len() && j != i implies nvals[j] == ovals[j]
                    by {
                    assert(nvals[j] == self.vals@[j].deep_view());
                }
                assert(nvals[i as int].to_set() == ovals[i as int].to_set().insert(value@));
                assert forall|j: int| 0 <= j < nvals.len() implies sorted_strict(
                    #[trigger] nvals[j],
                ) by {}
                assert(self@ =~= map_add(om, key@, value@)) by {
                    // domain unchanged; values: only the slot of `key` changed
                    assert(self@.dom() =~= map_add(om, key@, value@).dom());
                    assert forall|k: Seq<u8>| self@.dom().contains(k) implies self@[k]
                        == map_add(om, key@, value@)[k] by {
                        let idx = key_at(okeys, k);
                        assert(0 <= idx < okeys.len() && okeys[idx] == k);
                        if k == key@ {
                            assert(idx == i as int);
                            assert(om.dom().contains(k));
                            assert(om[k] == ovals[i as int].to_set());
                        } else {
                            assert(idx != i as int) by {
                                if idx == i as int {
                                    assert(okeys[idx] == key@);
                                }
                            }
                            assert(nvals[idx] == ovals[idx]);
                        }
                    }
                }
            }
        } else {
            proof {
                assert(!okeys.contains(key@));
                if i < okeys.len() {
                    assert(lex_lt(key@, okeys[i as int]));
                }
            }
            let mut slot: Vec<Vec<u8>> = Vec::new();
            proof {
                assert(slot.deep_view().to_set() =~= Set::<Seq<u8>>::empty());
            }
            insert_sorted(&mut slot, value);
            let ghost pre_keys = self.keys@;
            let ghost pre_vals = self.vals@;
            self.keys.insert(i, key);
            self.vals.insert(i, slot);
            proof {
                let nkeys = self.keys.deep_view();
                let nvals = self.vals.deep_view();
                assert(self.keys@ == pre_keys.insert(i as int, key));
                assert(self.vals@ == pre_vals.insert(i as int, slot));
                assert(nkeys.len() == okeys.len() + 1);
                assert(nvals.len() == ovals.len() + 1);
                assert forall|j: int| 0 <= j < nkeys.len() implies nkeys[j] == (if j < i {
                    okeys[j]
                } else if j == i {
                    key@
                } else {
                    okeys[j - 1]
                }) by {
                    assert(nkeys[j] == self.keys@[j]@);
                }
                assert forall|j: int| 0 <= j < nvals.len() implies nvals[j] == (if j < i {
                    ovals[j]
                } else if j == i {
                    slot.deep_view()
                } else {
                    ovals[j - 1]
                }) by {
                    assert(nvals[j] == self.vals@[j].deep_view());
                }
                // sortedness of the new key list
                assert forall|p: int, q: int| 0 <= p < q < nkeys.len() implies lex_lt(
                    nkeys[p],
                    nkeys[q],
                ) by {
                    if p < i && q == i {
                    } else if p == i && q > i {
                        if q - 1 > i {
                            lemma_lex_transitive(key@, okeys[i as int], okeys[q - 1]);
                        }
                    } else if p < i && q > i {
                        assert(lex_lt(okeys[p], okeys[q - 1]));
                    } else if p > i && q > i {
                        assert(lex_lt(okeys[p - 1], okeys[q - 1]));
                    }
                }
                lemma_sorted_no_duplicates(nkeys);
                // view equality
                assert(self@ =~= map_add(om, key@, value@)) by {
                    assert forall|k: Seq<u8>| nkeys.contains(k) implies (k == key@
                        || okeys.contains(k)) by {
                        let m = choose|m: int| 0 <= m < nkeys.len() && nkeys[m] == k;
                        if m < i {
                            assert(okeys[m] == k);
                        } else if m > i {
                            assert(okeys[m - 1] == k);
                        }
                    }
                    assert forall|k: Seq<u8>| okeys.contains(k) implies nkeys.contains(k) by {
                        let m = choose|m: int| 0 <= m < okeys.len() && okeys[m] == k;
                        if m < i {
                            assert(nkeys[m] == k);
                        } else {
                            assert(nkeys[m + 1] == k);
                        }
                    }
                    assert(nkeys.contains(key@)) by {
                        assert(nkeys[i as int] == key@);
                    }
                    assert(self@.dom() =~= map_add(om, key@, value@).dom());
                    assert forall|k: Seq<u8>| self@.dom().contains(k) implies self@[k]
                        == map_add(om, key@, value@)[k] by {
                        let idx = key_at(nkeys, k);
                        assert(0 <= idx < nkeys.len() && nkeys[idx] == k);
                        if k == key@ {
                            assert(idx == i as int) by {
                                if idx < i {
                                    assert(okeys[idx] == key@);
                                } else if idx > i {
                                    assert(okeys[idx - 1] == key@);
                                }
                            }
                            assert(nvals[idx].to_set() == Set::<Seq<u8>>::empty().insert(
                                value@,
                            ));
                            assert(!om.dom().contains(k));
                        } else {
                            assert(idx != i as int);
                            let oidx = key_at(okeys, k);
                            assert(okeys.contains(k)) by {
                                if idx < i {
                                    assert(okeys[idx] == k);
                                } else {
                                    assert(okeys[idx - 1] == k);
                                }
                            }
                            assert(0 <= oidx < okeys.len() && okeys[oidx] == k);
                            if idx < i {
                                assert(okeys[idx] == k);
                                assert(oidx == idx);
                                assert(nvals[idx] == ovals[oidx]);
                            } else {
                                assert(okeys[idx - 1] == k);
                                assert(oidx == idx - 1);
                                assert(nvals[idx] == ovals[oidx]);
                            }
                            assert(om.dom().contains(k));
                            assert(om[k] == ovals[oidx].to_set());
                        }
                    }
                }
            }
        }
    }

    /// The value list recorded under `key`, if any.
    pub fn get(&self, key: &Vec<u8>) -> (r: Option<&Vec<Vec<u8>>>)
        requires
            self.wf(),
        ensures
            match r {
                Some(v) => {
                    &&& self@.dom().contains(key@)
                    &&& sorted_strict(v.deep_view())
                    &&& v.deep_view().to_set() == self@[key@]
                },
                None => !self@.dom().contains(key@),
            },
    {
        proof {
            lemma_sorted_no_duplicates(self.keys.deep_view());
        }
        let loc = locate(&self.keys, key);
        if loc.1 {
            proof {
                assert(self.keys.deep_view().contains(key@));
                assert(key_at(self.keys.deep_view(), key@) == loc.0 as int);
                assert(self.vals.deep_view()[loc.0 as int] == self.vals@[loc.0 as int].deep_view());
            }
            Some(&self.vals[loc.0])
        } else {
            None
        }
    }
}

/// A mapping from a path to its stored content digest.
pub struct HashTable {
    pub keys: Vec<Vec<u8>>,
    pub vals: Vec<u64>,
}

impl View for HashTable {
    type V = Map<Seq<u8>, u64>;

    open spec fn view(&self) -> Map<Seq<u8>, u64> {
        Map::new(
            |k: Seq<u8>| self.keys.deep_view().contains(k),
            |k: Seq<u8>| self.vals@[key_at(self.keys.deep_view(), k)],
        )
    }
}

impl HashTable {
    /// Keys strictly sorted, one digest per key.
    pub open spec fn wf(&self) -> bool {
        &&& sorted_strict(self.keys.deep_view())
        &&& self.keys.len() == self.vals.len()
    }

    /// An empty table.
    pub fn new() -> (r: HashTable)
        ensures
            r.wf(),
            r@ == Map::<Seq<u8>, u64>::empty(),
    {
        let r = HashTable { keys: Vec::new(), vals: Vec::new() };
        proof {
            assert(r@ =~= Map::<Seq<u8>, u64>::empty());
        }
        r
    }

    /// Stores `digest` under `key`, replacing any earlier digest.
    pub fn set_hash(&mut self, key: Vec<u8>, digest: u64)
        requires
            old(self).wf(),
        ensures
            final(self).wf(),
            final(self)@ == old(self)@.insert(key@, digest),
    {
        let ghost okeys = self.keys.deep_view();
        let ghost ovals = self.vals@;
        let ghost om = self@;
        proof {
            lemma_sorted_no_duplicates(okeys);
        }
        let loc = locate(&self.keys, &key);
        let i = loc.0;
        if loc.1 {
            proof {
                assert(key_at(okeys, key@) == i as int);
            }
            self.vals.set(i, digest);
            proof {
                assert(self@ =~= om.insert(key@, digest)) by {
                    assert(self@.dom() =~= om.insert(key@, digest).dom());
                    assert forall|k: Seq<u8>| self@.dom().contains(k) implies self@[k]
                        == om.insert(key@, digest)[k] by {
                        let idx = key_at(okeys, k);
                        assert(0 <= idx < okeys.len() && okeys[idx] == k);
                        if k == key@ {
                            assert(idx == i as int);
                        } else {
                            assert(idx != i as int) by {
                                if idx == i as int {
                                    assert(okeys[idx] == key@);
                                }
                            }
                        }
                    }
                }
            }
        } else {
            let ghost pre_keys = self.keys@;
            self.keys.insert(i, key);
            self.vals.insert(i, digest);
            proof {
                let nkeys = self.keys.deep_view();
                let nvals = self.vals@;
                assert forall|j: int| 0 <= j < nkeys.len() implies nkeys[j] == (if j < i {
                    okeys[j]
                } else if j == i {
                    key@
                } else {
                    okeys[j - 1]
                }) by {
                    assert(nkeys[j] == self.keys@[j]@);
                }
                assert forall|p: int, q: int| 0 <= p < q < nkeys.len() implies lex_lt(
                    nkeys[p],
                    nkeys[q],
                ) by {
                    if p < i && q == i {
                    } else if p == i && q > i {
                        if q - 1 > i {
                            lemma_lex_transitive(key@, okeys[i as int], okeys[q - 1]);
                        }
                    } else if p < i && q > i {
                        assert(lex_lt(okeys[p], okeys[q - 1]));
                    } else if p > i && q > i {
                        assert(lex_lt(okeys[p - 1], okeys[q - 1]));
                    }
                }
                lemma_sorted_no_duplicates(nkeys);
                assert(self@ =~= om.insert(key@, digest)) by {
                    assert forall|k: Seq<u8>| nkeys.contains(k) implies (k == key@
                        || okeys.contains(k)) by {
                        let m = choose|m: int| 0 <= m < nkeys.len() && nkeys[m] == k;
                        if m < i {
                            assert(okeys[m] == k);
                        } else if m > i {
                            assert(okeys[m - 1] == k);
                        }
                    }
                    assert forall|k: Seq<u8>| okeys.contains(k) implies nkeys.contains(k) by {
                        let m = choose|m: int| 0 <= m < okeys.len() && okeys[m] == k;
                        if m < i {
                            assert(nkeys[m] == k);
                        } else {
                            assert(nkeys[m + 1] == k);
                        }
                    }
                    assert(nkeys.contains(key@)) by {
                        assert(nkeys[i as int] == key@);
                    }
                    assert(self@.dom() =~= om.insert(key@, digest).dom());
                    assert forall|k: Seq<u8>| self@.dom().contains(k) implies self@[k]
                        == om.insert(key@, digest)[k] by {
                        let idx = key_at(nkeys, k);
                        assert(0 <= idx < nkeys.len() && nkeys[idx] == k);
                        if k == key@ {
                            assert(idx == i as int) by {
                                if idx < i {
                                    assert(okeys[idx] == key@);
                                } else if idx > i {
                                    assert(okeys[idx - 1] == key@);
                                }
                            }
                        } else {
                            assert(idx != i as int);
                            let oidx = key_at(okeys, k);
                            assert(okeys.contains(k)) by {
                                if idx < i {
                                    assert(okeys[idx] == k);
                                } else {
                                    assert(okeys[idx - 1] == k);
                                }
                            }
                            assert(0 <= oidx < okeys.len() && okeys[oidx] == k);
                            if idx < i {
                                assert(oidx == idx);
                            } else {
                                assert(oidx == idx - 1);
                            }
                        }
                    }
                }
            }
        }
    }

    /// The digest stored under `key`, if any.
    pub fn get(&self, key: &Vec<u8>) -> (r: Option<u64>)
        requires
            self.wf(),
        ensures
            match r {
                Some(d) => self@.dom().contains(key@) && self@[key@] == d,
                None => !self@.dom().contains(key@),
            },
    {
        proof {
            lemma_sorted_no_duplicates(self.keys.deep_view());
        }
        let loc = locate(&self.keys, key);
        if loc.1 {
            proof {
                assert(key_at(self.keys.deep_view(), key@) == loc.0 as int);
            }
            Some(self.vals[loc.0])
        } else {
            None
        }
    }
}

/// The persisted unit of state: scanned roots, per-file digests, and the
/// two mirrored edge tables.
pub struct Index {
    pub roots: Vec<Vec<u8>>,
    pub hashes: HashTable,
    pub fwd: IncludeMapping,
    pub rev: IncludeMapping,
}

impl Index {
    pub open spec fn wf(&self) -> bool {
        &&& sorted_strict(self.roots.deep_view())
        &&& self.hashes.wf()
        &&& self.fwd.wf()
        &&& self.rev.wf()
    }

    /// An empty index over no roots.
    pub fn new() -> (r: Index)
        ensures
            r.wf(),
            r.roots@.len() == 0,
            r.hashes@ == Map::<Seq<u8>, u64>::empty(),
            r.fwd@ == Map::<Seq<u8>, Set<Seq<u8>>>::empty(),
            r.rev@ == Map::<Seq<u8>, Set<Seq<u8>>>::empty(),
    {
        Index {
            roots: Vec::new(),
            hashes: HashTable::new(),
            fwd: IncludeMapping::new(),
            rev: IncludeMapping::new(),
        }
    }

    /// Records one edge in both directions: `from` includes `to`.
    pub fn add_edge(&mut self, from: Vec<u8>, to: Vec<u8>)
        requires
            old(self).wf(),
        ensures
            final(self).wf(),
            final(self).fwd@ == map_add(old(self).fwd@, from@, to@),
            final(self).rev@ == map_add(old(self).rev@, to@, from@),
            final(self).hashes@ == old(self).hashes@,
            final(self).roots == old(self).roots,
    {
        let from2 = from.clone();
        let to2 = to.clone();
        proof {
            assert(from2@ == from@);
            assert(to2@ == to@);
        }
        self.fwd.insert(from, to);
        self.rev.insert(to2, from2);
    }

    /// Records the digest of `file`.
    pub fn set_hash(&mut self, file: Vec<u8>, digest: u64)
        requires
            old(self).wf(),
        ensures
            final(self).wf(),
            final(self).hashes@ == old(self).hashes@.insert(file@, digest),
            final(self).fwd@ == old(self).fwd@,
            final(self).rev@ == old(self).rev@,
            final(self).roots == old(self).roots,
    {
        self.hashes.set_hash(file, digest);
    }
}

} // verus!
