//! The cache façade.
//!
//! A `Cache` owns the root path, the configured lifetime and optional
//! maximum entry count, and the in-memory index. It is built from a listing
//! of the cache root supplied by the caller, and every subsequent operation
//! works on the index alone; the caller performs the file reads, writes and
//! deletes and reports their outcome, so that the index never drops an
//! entry whose file is still on disk, nor keeps one whose file was removed.

use vstd::prelude::*;
use vstd::string::StringExecFns;

use crate::CacheError;
use crate::codec::TileKey;
use crate::codec::decode;
use crate::codec::decoded_key;
use crate::codec::encode_key;
use crate::codec::key_name;
use crate::codec::name_matches;
use crate::index::CacheIndex;
use crate::index::age_le;
use crate::index::seq_has_key;

verus! {

/// One entry of a directory listing, as the caller observed it: the bare
/// filename, whether it is a regular file, and its modification time in
/// seconds.
pub struct FileInfo {
    pub name: String,
    pub is_file: bool,
    pub last_modified: u64,
}

/// What the caller found at the cache root: `Unavailable` when the root is
/// missing (and was not created) or is itself a regular file; otherwise the
/// listing of the directory.
pub enum RootState {
    Unavailable,
    Listed(Vec<FileInfo>),
}

/// A cache entry as reported to callers: its key, the absolute path of its
/// file, and the timestamp captured when it was scanned or stored.
pub struct CacheEntry {
    pub key: TileKey,
    pub path: String,
    pub last_modified: u64,
}

/// The key-to-timestamp map a scan of a listing builds: subdirectories and
/// foreign names are ignored, and when one key appears twice the later
/// listing entry wins.
pub open spec fn scan_map(l: Seq<FileInfo>) -> Map<TileKey, u64>
    decreases l.len(),
{
    if l.len() == 0 {
        Map::empty()
    } else {
        let prev = scan_map(l.drop_last());
        let f = l.last();
        if f.is_file && name_matches(f.name@) {
            prev.insert(decoded_key(f.name@), f.last_modified)
        } else {
            prev
        }
    }
}

/// Whether an entry stored at time `t` has outlived `life` at time `now`.
pub open spec fn expired(t: u64, life: u64, now: u64) -> bool {
    t + life < now
}

/// A scan holds exactly the keys of the grammar-matching regular files of
/// the listing.
pub proof fn lemma_scan_keys(l: Seq<FileInfo>, k: TileKey)
    ensures
        scan_map(l).contains_key(k) <==> exists|i: int|
            0 <= i < l.len() && (#[trigger] l[i]).is_file && name_matches(l[i].name@)
                && decoded_key(l[i].name@) == k,
    decreases l.len(),
{
    if l.len() > 0 {
        lemma_scan_keys(l.drop_last(), k);
        let prev = l.drop_last();
        let f = l.last();
        let n = l.len() - 1;
        if scan_map(l).contains_key(k) {
            if f.is_file && name_matches(f.name@) && decoded_key(f.name@) == k {
                assert(l[n].is_file && name_matches(l[n].name@) && decoded_key(l[n].name@) == k);
            } else {
                assert(scan_map(prev).contains_key(k));
                let i = choose|i: int|
                    0 <= i < prev.len() && (#[trigger] prev[i]).is_file && name_matches(
                        prev[i].name@,
                    ) && decoded_key(prev[i].name@) == k;
                assert(l[i].is_file && name_matches(l[i].name@) && decoded_key(l[i].name@) == k);
            }
        }
        if exists|i: int|
            0 <= i < l.len() && (#[trigger] l[i]).is_file && name_matches(l[i].name@)
                && decoded_key(l[i].name@) == k {
            let i = choose|i: int|
                0 <= i < l.len() && (#[trigger] l[i]).is_file && name_matches(l[i].name@)
                    && decoded_key(l[i].name@) == k;
            if i < n {
                assert(prev[i].is_file && name_matches(prev[i].name@) && decoded_key(prev[i].name@)
                    == k);
                assert(scan_map(prev).contains_key(k));
            }
            assert(scan_map(l).contains_key(k));
        }
    }
}

/// Builds an index from a directory listing.
fn scan_listing(listing: &Vec<FileInfo>) -> (idx: CacheIndex)
    ensures
        idx.wf(),
        idx@ == scan_map(listing@),
{
    let mut idx = CacheIndex::new();
    let n = listing.len();
    let mut i: usize = 0;
    proof {
        assert(listing@.subrange(0, 0) =~= Seq::<FileInfo>::empty());
    }
    while i < n
        invariant
            idx.wf(),
            i <= n,
            n == listing@.len(),
            idx@ == scan_map(listing@.subrange(0, i as int)),
        decreases n - i,
    {
        let f = &listing[i];
        if f.is_file {
            match decode(f.name.as_str()) {
                Some(k) => {
                    idx.insert_or_update(&k, f.last_modified);
                },
                None => {},
            }
        }
        proof {
            let sub1 = listing@.subrange(0, i as int + 1);
            assert(sub1.drop_last() =~= listing@.subrange(0, i as int));
            assert(sub1.last() == listing@[i as int]);
        }
        i = i + 1;
    }
    proof {
        assert(listing@.subrange(0, n as int) =~= listing@);
    }
    idx
}

/// The disk-backed tile cache: root path, entry lifetime in seconds,
/// optional maximum entry count, and the in-memory index.
pub struct Cache {
    root: String,
    life: u64,
    size: Option<usize>,
    index: CacheIndex,
}

impl View for Cache {
    type V = Map<TileKey, u64>;

    closed spec fn view(&self) -> Map<TileKey, u64> {
        self.index@
    }
}

impl Cache {
    pub closed spec fn wf(self) -> bool {
        self.index.wf()
    }

    /// The root path.
    pub closed spec fn spec_root(self) -> Seq<char> {
        self.root@
    }

    /// The configured lifetime, in seconds.
    pub closed spec fn spec_life(self) -> u64 {
        self.life
    }

    /// The configured maximum entry count, if any.
    pub closed spec fn spec_size(self) -> Option<usize> {
        self.size
    }

    /// Whether a new key `k` cannot be inserted before an eviction: a
    /// maximum is configured, `k` is absent, and the index is full.
    pub open spec fn at_capacity(self, k: TileKey) -> bool {
        match self.spec_size() {
            Some(n) => !self@.contains_key(k) && self@.dom().len() >= n,
            None => false,
        }
    }

    /// Checks the observed root state and rebuilds an index from its
    /// listing: the scan step shared by `new` and `set_path`. On
    /// `RootUnavailable` the index is left as it was.
    pub fn set_path_sub(state: &RootState, index: &mut CacheIndex) -> (r: Result<
        bool,
        CacheError,
    >)
        requires
            old(index).wf(),
        ensures
            final(index).wf(),
            match r {
                Ok(b) => b && (*state matches RootState::Listed(l) && final(index)@ == scan_map(
                    l@,
                )),
                Err(e) => {
                    &&& e == CacheError::RootUnavailable
                    &&& *state is Unavailable
                    &&& final(index)@ == old(index)@
                },
            },
    {
        match state {
            RootState::Unavailable => Err(CacheError::RootUnavailable),
            RootState::Listed(listing) => {
                *index = scan_listing(listing);
                Ok(true)
            },
        }
    }

    /// Opens a cache on a root whose state the caller observed: the index
    /// is seeded from the listing; a missing or non-directory root fails
    /// with `RootUnavailable`.
    pub fn new(p: &String, life: u64, size: Option<usize>, state: &RootState) -> (r: Result<
        Cache,
        CacheError,
    >)
        ensures
            match r {
                Ok(c) => {
                    &&& c.wf()
                    &&& (*state matches RootState::Listed(l) && c@ == scan_map(l@))
                    &&& c.spec_root() == p@
                    &&& c.spec_life() == life
                    &&& c.spec_size() == size
                },
                Err(e) => e == CacheError::RootUnavailable && *state is Unavailable,
            },
    {
        let mut index = CacheIndex::new();
        Self::set_path_sub(state, &mut index)?;
        Ok(Cache { root: p.clone(), life, size, index })
    }

    /// Points the cache at a new root whose state the caller observed: the
    /// old index is discarded and rebuilt from the listing. On
    /// `RootUnavailable` the cache keeps its root and index.
    pub fn set_path(&mut self, path: &String, state: &RootState) -> (r: Result<bool, CacheError>)
        requires
            old(self).wf(),
        ensures
            final(self).wf(),
            final(self).spec_life() == old(self).spec_life(),
            final(self).spec_size() == old(self).spec_size(),
            match r {
                Ok(b) => {
                    &&& b
                    &&& (*state matches RootState::Listed(l) && final(self)@ == scan_map(l@))
                    &&& final(self).spec_root() == path@
                },
                Err(e) => {
                    &&& e == CacheError::RootUnavailable
                    &&& *state is Unavailable
                    &&& final(self)@ == old(self)@
                    &&& final(self).spec_root() == old(self).spec_root()
                },
            },
    {
        match Self::set_path_sub(state, &mut self.index) {
            Ok(b) => {
                self.root = path.clone();
                Ok(b)
            },
            Err(e) => Err(e),
        }
    }

    /// The root path.
    pub fn root(&self) -> (r: &String)
        ensures
            r@ == self.spec_root(),
    {
        &self.root
    }

    /// The configured lifetime, in seconds.
    pub fn life(&self) -> (r: u64)
        ensures
            r == self.spec_life(),
    {
        self.life
    }

    /// The configured maximum entry count, if any.
    pub fn max_entries(&self) -> (r: Option<usize>)
        ensures
            r == self.spec_size(),
    {
        self.size
    }

    /// The number of entries in the index.
    pub fn len(&self) -> (n: usize)
        ensures
            n == self@.dom().len(),
    {
        self.index.len()
    }

    /// Whether the cache holds an entry for `k`.
    pub fn contains(&self, k: &TileKey) -> (r: bool)
        ensures
            r == self@.contains_key(*k),
    {
        self.index.contains(k)
    }

    /// Whether the cache holds the entry a filename stands for: false for
    /// any foreign name.
    pub fn is_exist(&self, path: &String) -> (r: bool)
        ensures
            r == (name_matches(path@) && self@.contains_key(decoded_key(path@))),
    {
        match decode(path.as_str()) {
            Some(k) => self.index.contains(&k),
            None => false,
        }
    }

    /// The absolute path of the entry for `k`: the root, a separator, and
    /// the canonical filename; `None` when `k` is absent.
    pub fn get_path(&self, k: &TileKey) -> (r: Option<String>)
        requires
            self.wf(),
        ensures
            match r {
                Some(p) => self@.contains_key(*k) && p@ == self.spec_root() + seq!['/']
                    + key_name(*k),
                None => !self@.contains_key(*k),
            },
    {
        if self.index.contains(k) {
            proof {
                self.index.lemma_keys_wf(*k);
            }
            let mut p = self.root.clone();
            proof {
                reveal_strlit("/");
            }
            p.append("/");
            let name = encode_key(k);
            p.append(name.as_str());
            proof {
                assert(p@ =~= self.spec_root() + seq!['/'] + key_name(*k));
            }
            Some(p)
        } else {
            None
        }
    }

    /// The absolute path of the entry a filename stands for; `None` for a
    /// foreign name or an absent key.
    pub fn get_full_path(&self, name: &String) -> (r: Option<String>)
        requires
            self.wf(),
        ensures
            match r {
                Some(p) => {
                    &&& name_matches(name@)
                    &&& self@.contains_key(decoded_key(name@))
                    &&& p@ == self.spec_root() + seq!['/'] + name@
                },
                None => !name_matches(name@) || !self@.contains_key(decoded_key(name@)),
            },
    {
        match decode(name.as_str()) {
            Some(k) => {
                if self.index.contains(&k) {
                    let mut p = self.root.clone();
                    proof {
                        reveal_strlit("/");
                    }
                    p.append("/");
                    p.append(name.as_str());
                    proof {
                        assert(p@ =~= self.spec_root() + seq!['/'] + name@);
                    }
                    Some(p)
                } else {
                    None
                }
            },
            None => None,
        }
    }

    /// The full entry stored for `k`: its key, absolute path and
    /// timestamp; `None` when `k` is absent.
    pub fn get_attr(&self, k: &TileKey) -> (r: Option<CacheEntry>)
        requires
            self.wf(),
        ensures
            match r {
                Some(e) => {
                    &&& self@.contains_key(*k)
                    &&& e.key == *k
                    &&& e.last_modified == self@[*k]
                    &&& e.path@ == self.spec_root() + seq!['/'] + key_name(*k)
                },
                None => !self@.contains_key(*k),
            },
    {
        match self.index.get(k) {
            Some(t) => {
                proof {
                    self.index.lemma_keys_wf(*k);
                }
                let mut p = self.root.clone();
                proof {
                    reveal_strlit("/");
                }
                p.append("/");
                let name = encode_key(k);
                p.append(name.as_str());
                proof {
                    assert(p@ =~= self.spec_root() + seq!['/'] + key_name(*k));
                }
                Some(CacheEntry { key: *k, path: p, last_modified: t })
            },
            None => None,
        }
    }

    /// The key capacity eviction must remove before `k` can be newly
    /// inserted: the oldest entry, reported only when a maximum is
    /// configured, `k` is absent, and the index is at or above it. The
    /// caller deletes that entry's file and then calls `remove`; `put` may
    /// run once nothing more must be evicted.
    pub fn need_evict(&self, k: &TileKey) -> (r: Option<TileKey>)
        requires
            self.wf(),
        ensures
            match r {
                Some(v) => {
                    &&& self.at_capacity(*k)
                    &&& self@.contains_key(v)
                    &&& forall|k2: TileKey| #[trigger]
                        self@.contains_key(k2) ==> age_le(self@[v], v, self@[k2], k2)
                },
                None => !self.at_capacity(*k) || self@.dom().len() == 0,
            },
    {
        match self.size {
            Some(n) => {
                if !self.index.contains(k) && self.index.len() >= n {
                    match self.index.oldest() {
                        Some(p) => Some(p.0),
                        None => None,
                    }
                } else {
                    None
                }
            },
            None => None,
        }
    }

    /// Removes the entry for `k` from the index, after the caller has
    /// deleted its file; a no-op if `k` is absent.
    pub fn remove(&mut self, k: &TileKey) -> (r: bool)
        requires
            old(self).wf(),
        ensures
            final(self).wf(),
            final(self).spec_root() == old(self).spec_root(),
            final(self).spec_life() == old(self).spec_life(),
            final(self).spec_size() == old(self).spec_size(),
            r == old(self)@.contains_key(*k),
            final(self)@ == old(self)@.remove(*k),
    {
        self.index.remove(k)
    }

    /// Records that the tile for `k` was stored in the cache root at time
    /// `now`: a new entry is created, or the existing one is re-stamped
    /// without changing the entry count. Capacity eviction must already
    /// have made room (see `need_evict`); a key outside the encodable
    /// range is rejected before anything changes.
    pub fn put(&mut self, k: &TileKey, now: u64) -> (r: Result<(), CacheError>)
        requires
            old(self).wf(),
            !old(self).at_capacity(*k),
        ensures
            final(self).wf(),
            final(self).spec_root() == old(self).spec_root(),
            final(self).spec_life() == old(self).spec_life(),
            final(self).spec_size() == old(self).spec_size(),
            match r {
                Ok(u) => {
                    &&& k.wf()
                    &&& final(self)@ == old(self)@.insert(*k, now)
                    &&& final(self)@.dom().len() == if old(self)@.contains_key(*k) {
                        old(self)@.dom().len() as int
                    } else {
                        old(self)@.dom().len() + 1int
                    }
                    &&& match final(self).spec_size() {
                        Some(n) => {
                            &&& (!old(self)@.contains_key(*k) ==> final(self)@.dom().len() <= n)
                            &&& (old(self)@.dom().len() <= n ==> final(self)@.dom().len() <= n)
                        },
                        None => true,
                    }
                },
                Err(e) => {
                    &&& e == CacheError::InvalidCoordinate
                    &&& !k.wf()
                    &&& final(self)@ == old(self)@
                },
            },
    {
        if k.zoom > 99 {
            return Err(CacheError::InvalidCoordinate);
        }
        self.index.insert_or_update(k, now);
        Ok(())
    }

    /// The keys of every entry that has outlived the lifetime at time
    /// `now`: what an expiry pass must delete from disk.
    pub fn expired_keys(&self, now: u64) -> (v: Vec<TileKey>)
        requires
            self.wf(),
        ensures
            forall|a: int|
                0 <= a < v@.len() ==> self@.contains_key(#[trigger] v@[a]) && expired(
                    self@[v@[a]],
                    self.spec_life(),
                    now,
                ),
            forall|k: TileKey| #[trigger]
                self@.contains_key(k) && expired(self@[k], self.spec_life(), now) ==> v@.contains(
                    k,
                ),
    {
        let snapshot = self.index.entries_by_age();
        let mut v: Vec<TileKey> = Vec::new();
        let life = self.life;
        let n = snapshot.len();
        let mut i: usize = 0;
        while i < n
            invariant
                i <= n,
                n == snapshot@.len(),
                life == self.spec_life(),
                forall|j: int|
                    0 <= j < snapshot@.len() ==> self@.contains_key((#[trigger] snapshot@[j]).0)
                        && self@[snapshot@[j].0] == snapshot@[j].1,
                forall|k: TileKey| #[trigger]
                    self@.contains_key(k) ==> seq_has_key(snapshot@, k),
                forall|a: int|
                    0 <= a < v@.len() ==> self@.contains_key(#[trigger] v@[a]) && expired(
                        self@[v@[a]],
                        life,
                        now,
                    ),
                forall|k: TileKey| #[trigger]
                    self@.contains_key(k) && expired(self@[k], life, now) && seq_has_key(
                        snapshot@.subrange(0, i as int),
                        k,
                    ) ==> v@.contains(k),
            decreases n - i,
        {
            let ghost v0 = v@;
            let k = snapshot[i].0;
            let t = snapshot[i].1;
            if now > life && t < now - life {
                v.push(k);
            }
            proof {
                assert forall|k2: TileKey| #[trigger]
                    self@.contains_key(k2) && expired(self@[k2], life, now)
                    && seq_has_key(
                    snapshot@.subrange(0, i as int + 1),
                    k2,
                ) implies v@.contains(k2) by {
                    let pre1 = snapshot@.subrange(0, i as int + 1);
                    let j = choose|j: int| 0 <= j < pre1.len() && pre1[j].0 == k2;
                    if j < i {
                        assert(snapshot@.subrange(0, i as int)[j].0 == k2);
                        assert(seq_has_key(snapshot@.subrange(0, i as int), k2));
                        assert(v0.contains(k2));
                        let a = choose|a: int| 0 <= a < v0.len() && v0[a] == k2;
                        assert(v@[a] == k2);
                    } else {
                        assert(k2 == snapshot@[i as int].0);
                        assert(self@[k2] == t);
                        assert(v@[v@.len() - 1] == k2);
                    }
                }
            }
            i = i + 1;
        }
        proof {
            assert(snapshot@.subrange(0, n as int) =~= snapshot@);
        }
        v
    }

    /// Removes every entry that has outlived the lifetime at time `now`,
    /// except those whose file the caller could not delete (`failed`), and
    /// returns the removed keys. Callers obtain the expired keys from
    /// `expired_keys`, delete the files, and pass back the failures, so
    /// the index never drops an entry whose file is still on disk.
    pub fn refresh(&mut self, now: u64, failed: &Vec<TileKey>) -> (removed: Vec<TileKey>)
        requires
            old(self).wf(),
        ensures
            final(self).wf(),
            final(self).spec_root() == old(self).spec_root(),
            final(self).spec_life() == old(self).spec_life(),
            final(self).spec_size() == old(self).spec_size(),
            forall|k: TileKey| #[trigger]
                final(self)@.contains_key(k) ==> old(self)@.contains_key(k) && final(self)@[k]
                    == old(self)@[k],
            forall|k: TileKey| #[trigger]
                old(self)@.contains_key(k) ==> (final(self)@.contains_key(k) <==> (!expired(
                    old(self)@[k],
                    old(self).spec_life(),
                    now,
                ) || failed@.contains(k))),
            forall|a: int|
                0 <= a < removed@.len() ==> old(self)@.contains_key(#[trigger] removed@[a])
                    && expired(old(self)@[removed@[a]], old(self).spec_life(), now)
                    && !failed@.contains(removed@[a]) && !final(self)@.contains_key(removed@[a]),
            forall|k: TileKey| #[trigger]
                old(self)@.contains_key(k) && expired(old(self)@[k], old(self).spec_life(), now)
                    && !failed@.contains(k) ==> removed@.contains(k),
    {
        let snapshot = self.index.entries_by_age();
        let ghost m0 = self@;
        let ghost root0 = self.spec_root();
        let ghost size0 = self.spec_size();
        let life = self.life;
        let mut removed: Vec<TileKey> = Vec::new();
        let n = snapshot.len();
        let mut i: usize = 0;
        while i < n
            invariant
                i <= n,
                n == snapshot@.len(),
                self.wf(),
                life == self.spec_life(),
                root0 == self.spec_root(),
                size0 == self.spec_size(),
                forall|j: int|
                    0 <= j < snapshot@.len() ==> m0.contains_key((#[trigger] snapshot@[j]).0)
                        && m0[snapshot@[j].0] == snapshot@[j].1,
                forall|k: TileKey| #[trigger]
                    m0.contains_key(k) ==> seq_has_key(snapshot@, k),
                forall|k: TileKey| #[trigger]
                    self@.contains_key(k) ==> m0.contains_key(k) && self@[k] == m0[k],
                forall|k: TileKey| #[trigger]
                    m0.contains_key(k) && (!expired(m0[k], life, now) || failed@.contains(k))
                        ==> self@.contains_key(k),
                forall|k: TileKey| #[trigger]
                    m0.contains_key(k) && expired(m0[k], life, now) && !failed@.contains(k)
                        && seq_has_key(snapshot@.subrange(0, i as int), k)
                        ==> !self@.contains_key(k) && removed@.contains(k),
                forall|a: int|
                    0 <= a < removed@.len() ==> m0.contains_key(#[trigger] removed@[a]) && expired(
                        m0[removed@[a]],
                        life,
                        now,
                    ) && !failed@.contains(removed@[a]) && !self@.contains_key(removed@[a]),
            decreases n - i,
        {
            let ghost removed0 = removed@;
            let ghost m_before = self@;
            let k = snapshot[i].0;
            let t = snapshot[i].1;
            if (now > life && t < now - life) && !key_in_vec(failed, &k) {
                self.index.remove(&k);
                removed.push(k);
            }
            proof {
                assert forall|k2: TileKey| #[trigger]
                    m0.contains_key(k2) && expired(m0[k2], life, now) && !failed@.contains(k2)
                    && seq_has_key(
                    snapshot@.subrange(0, i as int + 1),
                    k2,
                ) implies !self@.contains_key(k2) && removed@.contains(k2) by {
                    let pre1 = snapshot@.subrange(0, i as int + 1);
                    let j = choose|j: int| 0 <= j < pre1.len() && pre1[j].0 == k2;
                    if j < i {
                        assert(snapshot@.subrange(0, i as int)[j].0 == k2);
                        assert(seq_has_key(snapshot@.subrange(0, i as int), k2));
                        assert(removed0.contains(k2));
                        let a = choose|a: int| 0 <= a < removed0.len() && removed0[a] == k2;
                        assert(removed@[a] == k2);
                    } else {
                        assert(k2 == snapshot@[i as int].0);
                        assert(m0[k2] == t);
                        assert(removed@[removed@.len() - 1] == k2);
                    }
                }
                assert forall|a: int|
                    0 <= a < removed@.len() implies m0.contains_key(#[trigger] removed@[a])
                    && expired(m0[removed@[a]], life, now) && !failed@.contains(removed@[a])
                    && !self@.contains_key(removed@[a]) by {
                    if a < removed0.len() {
                        assert(removed@[a] == removed0[a]);
                    }
                }
            }
            i = i + 1;
        }
        proof {
            assert(snapshot@.subrange(0, n as int) =~= snapshot@);
        }
        removed
    }
}

/// Whether a vector of keys holds `k`.
fn key_in_vec(v: &Vec<TileKey>, k: &TileKey) -> (r: bool)
    ensures
        r == v@.contains(*k),
{
    let n = v.len();
    let mut i: usize = 0;
    while i < n
        invariant
            i <= n,
            n == v@.len(),
            forall|j: int| 0 <= j < i ==> v@[j] != *k,
        decreases n - i,
    {
        if v[i].tx == k.tx && v[i].ty == k.ty && v[i].zoom == k.zoom {
            proof {
                assert(v@[i as int] == *k);
            }
            return true;
        }
        i = i + 1;
    }
    proof {
        if v@.contains(*k) {
            let j = choose|j: int| 0 <= j < v@.len() && v@[j] == *k;
        }
    }
    false
}

/// After a put records `k`, the cache holds `k`; the path reported for it —
/// the root, a separator, and the canonical filename — ends in the
/// canonical filename of `k`.
pub proof fn lemma_put_path(m: Map<TileKey, u64>, k: TileKey, now: u64, root: Seq<char>)
    requires
        k.wf(),
    ensures
        m.insert(k, now).contains_key(k),
        key_name(k).len() == 34,
        (root + seq!['/'] + key_name(k)).subrange(
            root.len() as int + 1,
            root.len() as int + 35,
        ) == key_name(k),
{
    crate::codec::lemma_codec_round_trip(k);
    assert((root + seq!['/'] + key_name(k)).subrange(root.len() as int + 1, root.len() as int + 35)
        =~= key_name(k));
}

} // verus!
