use tilecache::cache::Cache;
use tilecache::cache::FileInfo;
use tilecache::cache::RootState;
use tilecache::codec::encode;
use tilecache::codec::TileKey;
use tilecache::CacheError;

fn key(tx: u64, ty: u64, zoom: u8) -> TileKey {
    TileKey { tx, ty, zoom }
}

fn file(name: &str, last_modified: u64) -> FileInfo {
    FileInfo {
        name: String::from(name),
        is_file: true,
        last_modified,
    }
}

fn subdir(name: &str) -> FileInfo {
    FileInfo {
        name: String::from(name),
        is_file: false,
        last_modified: 0,
    }
}

fn open_empty(root: &str, life: u64, max: Option<usize>) -> Cache {
    Cache::new(
        &String::from(root),
        life,
        max,
        &RootState::Listed(Vec::new()),
    )
    .unwrap()
}

/// Stores a key the way the full put protocol does: evict as long as the
/// index is at capacity, then record the entry.
fn put(cache: &mut Cache, k: &TileKey, now: u64) {
    while let Some(victim) = cache.need_evict(k) {
        // here a caller would delete the victim's file before this call
        cache.remove(&victim);
    }
    cache.put(k, now).unwrap();
}

#[test]
fn open_seeds_index_from_listing() {
    let k1 = key(1, 2, 3);
    let k2 = key(4, 5, 6);
    let listing = vec![
        file(&encode(1, 2, 3).unwrap(), 100),
        file("not-a-tile.png", 50),
        subdir("thumbnails"),
        file(&encode(4, 5, 6).unwrap(), 200),
    ];
    let cache = Cache::new(
        &String::from("/cache"),
        60,
        None,
        &RootState::Listed(listing),
    )
    .unwrap();
    assert_eq!(cache.len(), 2);
    assert!(cache.contains(&k1));
    assert!(cache.contains(&k2));
    assert!(cache.is_exist(&encode(1, 2, 3).unwrap()));
    assert!(!cache.is_exist(&String::from("not-a-tile.png")));
}

#[test]
fn open_fails_on_unavailable_root() {
    let r = Cache::new(&String::from("/cache"), 60, None, &RootState::Unavailable);
    assert!(matches!(r, Err(CacheError::RootUnavailable)));
}

#[test]
fn scan_later_duplicate_wins() {
    let name = encode(7, 7, 7).unwrap();
    let listing = vec![file(&name, 100), file(&name, 300)];
    let cache = Cache::new(
        &String::from("/cache"),
        60,
        None,
        &RootState::Listed(listing),
    )
    .unwrap();
    assert_eq!(cache.len(), 1);
    let e = cache.get_attr(&key(7, 7, 7)).unwrap();
    assert_eq!(e.last_modified, 300);
}

#[test]
fn put_then_get_path_ends_in_canonical_name() {
    let mut cache = open_empty("/cache", 60, None);
    let k = key(0x12345678, 0x9abcdef0, 8);
    put(&mut cache, &k, 1000);
    let p = cache.get_path(&k).unwrap();
    let name = encode(0x12345678, 0x9abcdef0, 8).unwrap();
    assert!(p.ends_with(&name));
    assert_eq!(p, format!("/cache/{}", name));
}

#[test]
fn get_path_none_for_absent_key() {
    let cache = open_empty("/cache", 60, None);
    assert_eq!(cache.get_path(&key(1, 1, 1)), None);
}

#[test]
fn get_attr_reports_key_path_and_timestamp() {
    let mut cache = open_empty("/tiles", 60, None);
    let k = key(3, 4, 5);
    put(&mut cache, &k, 777);
    let e = cache.get_attr(&k).unwrap();
    assert_eq!(e.key, k);
    assert_eq!(e.last_modified, 777);
    assert_eq!(e.path, format!("/tiles/{}", encode(3, 4, 5).unwrap()));
    assert!(cache.get_attr(&key(9, 9, 9)).is_none());
}

#[test]
fn capacity_eviction_drops_the_oldest() {
    // open("/cache", lifetime=60, max=2) on an empty directory
    let mut cache = open_empty("/cache", 60, Some(2));
    let k1 = key(1, 0, 0);
    let k2 = key(2, 0, 0);
    let k3 = key(3, 0, 0);
    put(&mut cache, &k1, 10);
    put(&mut cache, &k2, 20);
    assert_eq!(cache.len(), 2);
    // a third distinct key evicts k1, the oldest
    let victim = cache.need_evict(&k3).unwrap();
    assert_eq!(victim, k1);
    put(&mut cache, &k3, 30);
    assert_eq!(cache.len(), 2);
    assert!(!cache.contains(&k1));
    assert!(cache.contains(&k2));
    assert!(cache.contains(&k3));
}

#[test]
fn capacity_never_exceeded_over_many_puts() {
    let mut cache = open_empty("/cache", 60, Some(3));
    for i in 0..10u64 {
        put(&mut cache, &key(i, 0, 1), 100 + i);
        assert!(cache.len() <= 3);
    }
    assert_eq!(cache.len(), 3);
    // the three newest remain
    assert!(cache.contains(&key(7, 0, 1)));
    assert!(cache.contains(&key(8, 0, 1)));
    assert!(cache.contains(&key(9, 0, 1)));
}

#[test]
fn eviction_ties_break_by_key() {
    let mut cache = open_empty("/cache", 60, Some(2));
    let small = key(1, 5, 9);
    let large = key(2, 5, 9);
    put(&mut cache, &large, 40);
    put(&mut cache, &small, 40);
    // equal timestamps: the smaller key is the unambiguous oldest
    let victim = cache.need_evict(&key(3, 3, 3)).unwrap();
    assert_eq!(victim, small);
}

#[test]
fn no_eviction_without_a_maximum() {
    let mut cache = open_empty("/cache", 60, None);
    for i in 0..20u64 {
        put(&mut cache, &key(i, 1, 2), i);
        assert_eq!(cache.need_evict(&key(100 + i, 1, 2)), None);
    }
    assert_eq!(cache.len(), 20);
}

#[test]
fn re_put_updates_timestamp_and_keeps_count() {
    let mut cache = open_empty("/cache", 60, Some(5));
    let k1 = key(1, 1, 1);
    let k2 = key(2, 2, 2);
    put(&mut cache, &k1, 10);
    put(&mut cache, &k2, 20);
    assert_eq!(cache.len(), 2);
    put(&mut cache, &k1, 30);
    assert_eq!(cache.len(), 2);
    assert_eq!(cache.get_attr(&k1).unwrap().last_modified, 30);
    // k1 was re-stamped, so the oldest entry is now k2
    let mut full = cache;
    put(&mut full, &key(3, 3, 3), 40);
    put(&mut full, &key(4, 4, 4), 50);
    put(&mut full, &key(5, 5, 5), 60);
    let victim = full.need_evict(&key(6, 6, 6)).unwrap();
    assert_eq!(victim, k2);
}

#[test]
fn put_rejects_an_unencodable_key() {
    let mut cache = open_empty("/cache", 60, None);
    let bad = key(1, 1, 200);
    assert_eq!(cache.put(&bad, 10), Err(CacheError::InvalidCoordinate));
    assert_eq!(cache.len(), 0);
}

#[test]
fn expired_keys_lists_exactly_the_stale_entries() {
    let mut cache = open_empty("/cache", 60, None);
    let old1 = key(1, 0, 0);
    let old2 = key(2, 0, 0);
    let fresh = key(3, 0, 0);
    put(&mut cache, &old1, 100);
    put(&mut cache, &old2, 110);
    put(&mut cache, &fresh, 190);
    // at now=200 with lifetime 60: ages 100 and 90 exceed it, age 10 does not
    let expired = cache.expired_keys(200);
    assert_eq!(expired.len(), 2);
    assert!(expired.contains(&old1));
    assert!(expired.contains(&old2));
    assert!(!expired.contains(&fresh));
    // an entry exactly at the lifetime boundary is not expired
    assert!(cache.expired_keys(160).is_empty());
}

#[test]
fn refresh_removes_expired_entries() {
    let mut cache = open_empty("/cache", 60, None);
    let old1 = key(1, 0, 0);
    let fresh = key(2, 0, 0);
    put(&mut cache, &old1, 100);
    put(&mut cache, &fresh, 190);
    let removed = cache.refresh(200, &Vec::new());
    assert_eq!(removed, vec![old1]);
    assert_eq!(cache.len(), 1);
    assert!(!cache.contains(&old1));
    assert!(cache.contains(&fresh));
    assert_eq!(cache.get_attr(&fresh).unwrap().last_modified, 190);
}

#[test]
fn refresh_keeps_an_entry_whose_delete_failed() {
    let mut cache = open_empty("/cache", 60, None);
    let old1 = key(1, 0, 0);
    let old2 = key(2, 0, 0);
    put(&mut cache, &old1, 100);
    put(&mut cache, &old2, 110);
    // the caller could not delete old1's file: the entry must stay
    let removed = cache.refresh(300, &vec![old1]);
    assert_eq!(removed, vec![old2]);
    assert!(cache.contains(&old1));
    assert!(!cache.contains(&old2));
}

#[test]
fn foreign_file_is_ignored_by_open_and_refresh() {
    // a file named `not-a-tile.png` in the root is ignored by open
    let listing = vec![file("not-a-tile.png", 1)];
    let mut cache = Cache::new(
        &String::from("/cache"),
        60,
        None,
        &RootState::Listed(listing),
    )
    .unwrap();
    assert_eq!(cache.len(), 0);
    assert!(!cache.is_exist(&String::from("not-a-tile.png")));
    // refresh names nothing to delete: the foreign file stays untouched
    assert!(cache.expired_keys(1_000_000).is_empty());
    let removed = cache.refresh(1_000_000, &Vec::new());
    assert!(removed.is_empty());
}

#[test]
fn set_path_rescans_and_replaces_the_index() {
    let k1 = key(1, 2, 3);
    let k2 = key(4, 5, 6);
    let mut cache = Cache::new(
        &String::from("/old"),
        60,
        None,
        &RootState::Listed(vec![file(&encode(1, 2, 3).unwrap(), 10)]),
    )
    .unwrap();
    assert!(cache.contains(&k1));
    let r = cache.set_path(
        &String::from("/new"),
        &RootState::Listed(vec![file(&encode(4, 5, 6).unwrap(), 20)]),
    );
    assert_eq!(r, Ok(true));
    assert!(!cache.contains(&k1));
    assert!(cache.contains(&k2));
    assert_eq!(
        cache.get_path(&k2).unwrap(),
        format!("/new/{}", encode(4, 5, 6).unwrap())
    );
}

#[test]
fn set_path_failure_keeps_the_old_state() {
    let k1 = key(1, 2, 3);
    let mut cache = Cache::new(
        &String::from("/old"),
        60,
        None,
        &RootState::Listed(vec![file(&encode(1, 2, 3).unwrap(), 10)]),
    )
    .unwrap();
    let r = cache.set_path(&String::from("/missing"), &RootState::Unavailable);
    assert_eq!(r, Err(CacheError::RootUnavailable));
    assert!(cache.contains(&k1));
    assert_eq!(
        cache.get_path(&k1).unwrap(),
        format!("/old/{}", encode(1, 2, 3).unwrap())
    );
}

#[test]
fn getters_report_the_configuration() {
    let cache = open_empty("/cache", 60, Some(2));
    assert_eq!(cache.root(), "/cache");
    assert_eq!(cache.life(), 60);
    assert_eq!(cache.max_entries(), Some(2));
}

#[test]
fn subdirectory_with_a_valid_name_is_ignored() {
    let name = encode(1, 2, 3).unwrap();
    let listing = vec![subdir(&name)];
    let cache = Cache::new(
        &String::from("/cache"),
        60,
        None,
        &RootState::Listed(listing),
    )
    .unwrap();
    assert_eq!(cache.len(), 0);
    assert!(!cache.contains(&key(1, 2, 3)));
}

#[test]
fn get_full_path_resolves_a_stored_filename() {
    let name = encode(8, 9, 10).unwrap();
    let cache = Cache::new(
        &String::from("/cache"),
        60,
        None,
        &RootState::Listed(vec![file(&name, 5)]),
    )
    .unwrap();
    assert_eq!(
        cache.get_full_path(&name),
        Some(format!("/cache/{}", name))
    );
    // a foreign name and an absent key both miss
    assert_eq!(cache.get_full_path(&String::from("not-a-tile.png")), None);
    assert_eq!(cache.get_full_path(&encode(0, 0, 0).unwrap()), None);
}

#[test]
fn is_exist_misses_an_absent_key() {
    let cache = open_empty("/cache", 60, None);
    assert!(!cache.is_exist(&encode(1, 2, 3).unwrap()));
}

#[test]
fn uppercase_filename_is_recognized_and_kept() {
    let upper = String::from("00000000000000AB00000000000000CD12");
    let cache = Cache::new(
        &String::from("/cache"),
        60,
        None,
        &RootState::Listed(vec![file(&upper, 5)]),
    )
    .unwrap();
    // the file is indexed under its decoded key
    let k = key(0xab, 0xcd, 12);
    assert!(cache.contains(&k));
    // looked up by its own (uppercase) name, the path keeps that name
    assert_eq!(
        cache.get_full_path(&upper),
        Some(format!("/cache/{}", upper))
    );
    // the canonical path for the key uses the lowercase form
    assert_eq!(
        cache.get_path(&k),
        Some(format!("/cache/{}", encode(0xab, 0xcd, 12).unwrap()))
    );
}

#[test]
fn set_path_sub_rebuilds_an_index_from_a_listing() {
    let mut index = tilecache::index::CacheIndex::new();
    let state = RootState::Listed(vec![file(&encode(1, 1, 1).unwrap(), 7)]);
    assert_eq!(Cache::set_path_sub(&state, &mut index), Ok(true));
    assert_eq!(index.len(), 1);
    assert_eq!(index.get(&key(1, 1, 1)), Some(7));
    // an unavailable root leaves the index as it was
    let r = Cache::set_path_sub(&RootState::Unavailable, &mut index);
    assert_eq!(r, Err(CacheError::RootUnavailable));
    assert_eq!(index.len(), 1);
}
