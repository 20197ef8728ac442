//! The in-memory cache index.
//!
//! A `CacheIndex` couples a key-to-timestamp map with an age-ordered set of
//! (timestamp, key) entries, so that lookup, insert and removal are
//! logarithmic and the oldest entry — the one with the least (timestamp,
//! key) pair — can be found in logarithmic time. The two structures always
//! describe the same entries; the index is viewed abstractly as a map from
//! tile keys to the timestamps captured when they were stored.

use std::collections::BTreeMap;
use std::collections::BTreeSet;
use vstd::laws_cmp::obeys_cmp;
use vstd::prelude::*;

use crate::codec::TileKey;

verus! {

broadcast use vstd::laws_cmp::group_laws_cmp;

/// The exec-level key of an index entry: the fields of a `TileKey`.
pub open spec fn key_tuple(k: TileKey) -> (u64, u64, u8) {
    (k.tx, k.ty, k.zoom)
}

/// The key a tuple stands for; inverse of `key_tuple`.
pub open spec fn tuple_key(t: (u64, u64, u8)) -> TileKey {
    TileKey { tx: t.0, ty: t.1, zoom: t.2 }
}

/// The age-order entry of a key stored at timestamp `t`.
pub open spec fn age_entry(t: u64, k: TileKey) -> (u64, u64, u64, u8) {
    (t, k.tx, k.ty, k.zoom)
}

/// Lexicographic order on age-order entries, as std orders integer tuples.
pub open spec fn lex4_le(a: (u64, u64, u64, u8), b: (u64, u64, u64, u8)) -> bool {
    ||| a.0 < b.0
    ||| (a.0 == b.0 && a.1 < b.1)
    ||| (a.0 == b.0 && a.1 == b.1 && a.2 < b.2)
    ||| (a.0 == b.0 && a.1 == b.1 && a.2 == b.2 && a.3 <= b.3)
}

/// The total age order on stored entries: by timestamp first, then by key
/// fields as a deterministic tie-break, so there is always one unambiguous
/// oldest entry.
pub open spec fn age_le(t1: u64, k1: TileKey, t2: u64, k2: TileKey) -> bool {
    lex4_le(age_entry(t1, k1), age_entry(t2, k2))
}

/// The key-to-timestamp index together with its age-ordered eviction
/// structure.
pub struct CacheIndex {
    entries: BTreeMap<(u64, u64, u8), u64>,
    order: BTreeSet<(u64, u64, u64, u8)>,
}

impl View for CacheIndex {
    type V = Map<TileKey, u64>;

    closed spec fn view(&self) -> Map<TileKey, u64> {
        Map::new(
            |k: TileKey| self.entries@.contains_key(key_tuple(k)),
            |k: TileKey| self.entries@[key_tuple(k)],
        )
    }
}

impl CacheIndex {
    /// The two structures hold exactly the same entries, and every stored
    /// key is well formed.
    pub closed spec fn wf(self) -> bool {
        &&& forall|e: (u64, u64, u64, u8)| #[trigger]
            self.order@.contains(e) ==> {
                &&& self.entries@.contains_key((e.1, e.2, e.3))
                &&& self.entries@[(e.1, e.2, e.3)] == e.0
            }
        &&& forall|t: (u64, u64, u8)| #[trigger]
            self.entries@.contains_key(t) ==> self.order@.contains(
                (self.entries@[t], t.0, t.1, t.2),
            )
        &&& forall|t: (u64, u64, u8)| #[trigger] self.entries@.contains_key(t) ==> t.2 <= 99
    }

    /// Every key the index holds is well formed.
    pub proof fn lemma_keys_wf(self, k: TileKey)
        requires
            self.wf(),
            self@.contains_key(k),
        ensures
            k.wf(),
    {
        assert(self.entries@.contains_key(key_tuple(k)));
    }

    proof fn lemma_view_len(self)
        ensures
            self@.dom().finite(),
            self@.dom().len() == self.entries@.dom().len(),
    {
        let f = |t: (u64, u64, u8)| tuple_key(t);
        let dom = self.entries@.dom();
        assert(dom.finite());
        assert(vstd::relations::injective_on(f, dom));
        assert forall|k: TileKey| self@.dom().contains(k) implies dom.map(f).contains(k) by {
            assert(dom.contains(key_tuple(k)));
            assert(f(key_tuple(k)) == k);
        }
        assert(dom.map(f) =~= self@.dom());
        vstd::set_lib::lemma_map_size(dom, self@.dom(), f);
    }

    pub fn new() -> (r: CacheIndex)
        ensures
            r.wf(),
            r@ == Map::<TileKey, u64>::empty(),
    {
        let r = CacheIndex { entries: BTreeMap::new(), order: BTreeSet::new() };
        proof {
            assert(r@ =~= Map::<TileKey, u64>::empty());
        }
        r
    }

    /// The number of entries.
    pub fn len(&self) -> (n: usize)
        ensures
            n == self@.dom().len(),
    {
        proof {
            assert(obeys_cmp::<(u64, u64, u8)>());
            self.lemma_view_len();
        }
        self.entries.len()
    }

    /// The timestamp stored for a key, if the key is present.
    pub fn get(&self, k: &TileKey) -> (r: Option<u64>)
        ensures
            match r {
                Some(t) => self@.contains_key(*k) && t == self@[*k],
                None => !self@.contains_key(*k),
            },
    {
        proof {
            assert(obeys_cmp::<(u64, u64, u8)>());
        }
        let kt = (k.tx, k.ty, k.zoom);
        match self.entries.get(&kt) {
            Some(t) => Some(*t),
            None => None,
        }
    }

    pub fn contains(&self, k: &TileKey) -> (r: bool)
        ensures
            r == self@.contains_key(*k),
    {
        proof {
            assert(obeys_cmp::<(u64, u64, u8)>());
        }
        let kt = (k.tx, k.ty, k.zoom);
        self.entries.contains_key(&kt)
    }

    /// Inserts a new entry or re-stamps an existing one: the entry leaves
    /// its old position in the age order and takes the one given by the new
    /// timestamp.
    pub fn insert_or_update(&mut self, k: &TileKey, t: u64)
        requires
            old(self).wf(),
            k.wf(),
        ensures
            final(self).wf(),
            final(self)@ == old(self)@.insert(*k, t),
            final(self)@.dom().len() == if old(self)@.contains_key(*k) {
                old(self)@.dom().len() as int
            } else {
                old(self)@.dom().len() + 1int
            },
    {
        proof {
            assert(obeys_cmp::<(u64, u64, u8)>());
            assert(obeys_cmp::<(u64, u64, u64, u8)>());
            old(self).lemma_view_len();
        }
        let kt = (k.tx, k.ty, k.zoom);
        match self.entries.insert(kt, t) {
            Some(t_old) => {
                self.order.remove(&(t_old, k.tx, k.ty, k.zoom));
            },
            None => {},
        }
        self.order.insert((t, k.tx, k.ty, k.zoom));
        proof {
            assert(self@ =~= old(self)@.insert(*k, t));
            assert(self.entries@.dom() =~= old(self).entries@.dom().insert(kt));
            self.lemma_view_len();
        }
    }

    /// Removes a key from the index; a no-op if the key is absent.
    pub fn remove(&mut self, k: &TileKey) -> (r: bool)
        requires
            old(self).wf(),
        ensures
            final(self).wf(),
            r == old(self)@.contains_key(*k),
            final(self)@ == old(self)@.remove(*k),
            final(self)@.dom().len() == if old(self)@.contains_key(*k) {
                old(self)@.dom().len() - 1
            } else {
                old(self)@.dom().len() as int
            },
    {
        proof {
            assert(obeys_cmp::<(u64, u64, u8)>());
            assert(obeys_cmp::<(u64, u64, u64, u8)>());
            old(self).lemma_view_len();
        }
        let kt = (k.tx, k.ty, k.zoom);
        let r = match self.entries.remove(&kt) {
            Some(t_old) => {
                self.order.remove(&(t_old, k.tx, k.ty, k.zoom));
                true
            },
            None => false,
        };
        proof {
            assert(self@ =~= old(self)@.remove(*k));
            assert(self.entries@.dom() =~= old(self).entries@.dom().remove(kt));
            self.lemma_view_len();
        }
        r
    }

    /// The entry with the least (timestamp, key) pair: the next victim
    /// under capacity eviction.
    pub fn oldest(&self) -> (r: Option<(TileKey, u64)>)
        requires
            self.wf(),
        ensures
            match r {
                Some(p) => {
                    &&& self@.contains_key(p.0)
                    &&& self@[p.0] == p.1
                    &&& forall|k2: TileKey| #[trigger]
                        self@.contains_key(k2) ==> age_le(p.1, p.0, self@[k2], k2)
                },
                None => self@ == Map::<TileKey, u64>::empty(),
            },
    {
        match order_first(&self.order) {
            Some(e) => {
                let k = TileKey { tx: e.1, ty: e.2, zoom: e.3 };
                proof {
                    assert(self.entries@.contains_key(key_tuple(k)));
                    assert forall|k2: TileKey| #[trigger]
                        self@.contains_key(k2) implies age_le(e.0, k, self@[k2], k2) by {
                        let e2 = (self.entries@[key_tuple(k2)], k2.tx, k2.ty, k2.zoom);
                        assert(self.order@.contains(e2));
                        assert(lex4_le(e, e2));
                    }
                }
                Some((k, e.0))
            },
            None => {
                proof {
                    assert forall|k2: TileKey| !(#[trigger] self@.contains_key(k2)) by {
                        if self.entries@.contains_key(key_tuple(k2)) {
                            let e2 = (self.entries@[key_tuple(k2)], k2.tx, k2.ty, k2.zoom);
                            assert(self.order@.contains(e2));
                        }
                    }
                    assert(self@ =~= Map::<TileKey, u64>::empty());
                }
                None
            },
        }
    }

    fn clone_index(&self) -> (r: CacheIndex)
        ensures
            r@ == self@,
            self.wf() ==> r.wf(),
    {
        proof {
            assert(obeys_cmp::<(u64, u64, u8)>());
            assert(obeys_cmp::<(u64, u64, u64, u8)>());
        }
        let r = CacheIndex { entries: self.entries.clone(), order: self.order.clone() };
        proof {
            assert(r@ =~= self@);
        }
        r
    }

    /// Lists every entry, oldest first under the total age order.
    pub fn entries_by_age(&self) -> (v: Vec<(TileKey, u64)>)
        requires
            self.wf(),
        ensures
            v@.len() == self@.dom().len(),
            forall|i: int|
                0 <= i < v@.len() ==> self@.contains_key((#[trigger] v@[i]).0) && self@[v@[i].0]
                    == v@[i].1,
            forall|k: TileKey| #[trigger] self@.contains_key(k) ==> seq_has_key(v@, k),
            forall|i: int, j: int|
                0 <= i < j < v@.len() ==> age_le(
                    (#[trigger] v@[i]).1,
                    v@[i].0,
                    (#[trigger] v@[j]).1,
                    v@[j].0,
                ),
    {
        let mut scratch = self.clone_index();
        let mut out: Vec<(TileKey, u64)> = Vec::new();
        proof {
            scratch.lemma_view_len();
        }
        loop
            invariant
                scratch.wf(),
                scratch@.dom().finite(),
                forall|k: TileKey| #[trigger]
                    scratch@.contains_key(k) ==> self@.contains_key(k) && scratch@[k] == self@[k],
                forall|i: int|
                    0 <= i < out@.len() ==> self@.contains_key((#[trigger] out@[i]).0)
                        && self@[out@[i].0] == out@[i].1,
                forall|i: int| 0 <= i < out@.len() ==> !scratch@.contains_key((#[trigger] out@[i]).0),
                forall|k: TileKey| #[trigger]
                    self@.contains_key(k) ==> scratch@.contains_key(k) || seq_has_key(out@, k),
                out@.len() + scratch@.dom().len() == self@.dom().len(),
                forall|i: int, j: int|
                    0 <= i < j < out@.len() ==> age_le(
                        (#[trigger] out@[i]).1,
                        out@[i].0,
                        (#[trigger] out@[j]).1,
                        out@[j].0,
                    ),
                forall|i: int, k: TileKey|
                    0 <= i < out@.len() && #[trigger] scratch@.contains_key(k) ==> age_le(
                        (#[trigger] out@[i]).1,
                        out@[i].0,
                        scratch@[k],
                        k,
                    ),
            ensures
                scratch@ == Map::<TileKey, u64>::empty(),
            decreases scratch@.dom().len(),
        {
            let ghost scratch0 = scratch@;
            let ghost out0 = out@;
            match scratch.oldest() {
                Some(p) => {
                    let k = p.0;
                    let t = p.1;
                    scratch.remove(&k);
                    out.push((k, t));
                    proof {
                        let n0 = out0.len() as int;
                        assert(out@ == out0.push((k, t)));
                        assert(out@[n0] == (k, t));
                        assert forall|k2: TileKey| #[trigger]
                            self@.contains_key(k2) implies scratch@.contains_key(k2)
                            || seq_has_key(out@, k2) by {
                            if scratch0.contains_key(k2) {
                                if k2 == k {
                                    assert(out@[n0].0 == k2);
                                    assert(seq_has_key(out@, k2));
                                }
                            } else {
                                assert(seq_has_key(out0, k2));
                                let i = choose|i: int| 0 <= i < out0.len() && out0[i].0 == k2;
                                assert(out@[i].0 == k2);
                                assert(seq_has_key(out@, k2));
                            }
                        }
                        assert forall|i: int, j: int|
                            0 <= i < j < out@.len() implies age_le(
                            (#[trigger] out@[i]).1,
                            out@[i].0,
                            (#[trigger] out@[j]).1,
                            out@[j].0,
                        ) by {
                            if j == n0 {
                                assert(scratch0.contains_key(k));
                                assert(age_le(out0[i].1, out0[i].0, scratch0[k], k));
                            }
                        }
                    }
                },
                None => {
                    break;
                },
            }
        }
        proof {
            assert(scratch@.dom() =~= Set::<TileKey>::empty());
        }
        out
    }
}

/// Whether some element of `v` carries the key `k`.
pub open spec fn seq_has_key(v: Seq<(TileKey, u64)>, k: TileKey) -> bool {
    exists|i: int| 0 <= i < v.len() && v[i].0 == k
}

/// Relies on std's `BTreeSet::first`, which returns the minimum element of
/// the set; std orders tuples of integers lexicographically.
#[verifier::external_body]
fn order_first(s: &BTreeSet<(u64, u64, u64, u8)>) -> (r: Option<(u64, u64, u64, u8)>)
    ensures
        match r {
            Some(e) => s@.contains(e) && forall|e2: (u64, u64, u64, u8)| #[trigger]
                s@.contains(e2) ==> lex4_le(e, e2),
            None => s@ == Set::<(u64, u64, u64, u8)>::empty(),
        },
{
    match s.first() {
        Some(e) => Some(*e),
        None => None,
    }
}

} // verus!
