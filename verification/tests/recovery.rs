use rand::rngs::SmallRng;
use rand::{RngCore, SeedableRng};
use seg::storage::Storage;
use seg::Seg;
use std::collections::HashSet;
use std::time::Duration;

// These should be changed to the paths to store to/recover from
const DATAPOOL_PATH: &str = "/mnt/pmem1.0/cassy/pool";
const SEGMENTS_FIELDS_PATH: &str = "/mnt/pmem1.0/cassy/segments_fields";
const TTL_BUCKETS_PATH: &str = "/mnt/pmem1.0/cassy/ttl";
const HASHTABLE_PATH: &str = "/mnt/pmem1.0/cassy/table";
const SEGMENTS: usize = 64;

// Creates a new `Seg` instance that is file backed if `file_backed`
fn new_cache(storage: &Storage, file_backed: bool) -> Seg {
    let datapool_path: Option<String> = if file_backed {
        Some(String::from(DATAPOOL_PATH))
    } else {
        None
    };

    make_cache(storage, false, datapool_path, None, None, None)
}

// Restores a `Seg` instance from the given paths
fn restore_cache(storage: &Storage) -> Seg {
    // The `Segments.data` has to be file backed if cache is being restored
    // The edge case where this isn't the case is tested below
    let datapool_path: Option<String> = Some(String::from(DATAPOOL_PATH));

    // Other `Segments` fields
    let segments_fields_path: Option<String> = Some(String::from(SEGMENTS_FIELDS_PATH));
    let ttl_buckets_path: Option<String> = Some(String::from(TTL_BUCKETS_PATH));
    let hashtable_path: Option<String> = Some(String::from(HASHTABLE_PATH));

    make_cache(
        storage,
        true,
        datapool_path,
        segments_fields_path,
        ttl_buckets_path,
        hashtable_path,
    )
}

// Returns a `Seg` instance
// Cache is restored only if `restore`,
// otherwise, new `Seg` instance is returned
fn make_cache(
    storage: &Storage,
    restore: bool,
    datapool_path: Option<String>,
    segments_fields_path: Option<String>,
    ttl_buckets_path: Option<String>,
    hashtable_path: Option<String>,
) -> Seg {
    let segment_size = 4096;
    let segments = SEGMENTS;
    let heap_size = segments * segment_size as usize;

    Seg::builder()
        .restore(restore)
        .segment_size(segment_size as i32)
        .heap_size(heap_size)
        .datapool_path(datapool_path) // set path
        .segments_fields_path(segments_fields_path) // set path
        .ttl_buckets_path(ttl_buckets_path) // set path
        .hashtable_path(hashtable_path) // set path
        .build_from(storage)
}

// Demolish the cache by attempting to save the `Segments`,
// `TtlBuckets` and `HashTable` to the paths specified
// If successful, return True. Else, return False.
fn demolish_cache(storage: &mut Storage, cache: Seg) -> bool {
    let segment_size = 4096;
    let segments = SEGMENTS;
    let heap_size = segments * segment_size as usize;
    let segments_fields_path: Option<String> = Some(String::from(SEGMENTS_FIELDS_PATH));
    let ttl_buckets_path: Option<String> = Some(String::from(TTL_BUCKETS_PATH));
    let hashtable_path: Option<String> = Some(String::from(HASHTABLE_PATH));

    Seg::demolisher()
        .heap_size(heap_size)
        .segments_fields_path(segments_fields_path)
        .ttl_buckets_path(ttl_buckets_path)
        .hashtable_path(hashtable_path)
        .demolish(cache, storage)
}

// Check that a file backed, new cache is file backed and the `Seg`
// and thus the `Segments` fields', `HashTable` and `TTLBuckets`
// are new (and not restored)
#[test]
fn new_cache_file_backed() {
    let storage = Storage::new();
    // create new, file backed cache
    let file_backed = true;
    let cache = new_cache(&storage, file_backed);
    // the `Segments.data` should be filed backed
    assert!(cache.segments.data_file_backed());
    // -- Check entire `Seg` --
    // the `Seg` should not be restored
    assert!(!cache._restored);
    // -- Check `Seg` fields/components --
    // the `Segments` fields' should not have been restored
    assert!(!cache.segments.fields_copied_back);
    // the `TtlBuckets` should not have been restored
    assert!(!cache.ttl_buckets.buckets_copied_back);
    // the `HashTable` should not have been restored
    assert!(!cache.hashtable.table_copied_back);
}

// Check that a new, not file backed cache is not file backed
// and the `Seg` is new (and not restored)
#[test]
fn new_cache_not_file_backed() {
    let storage = Storage::new();
    // create new, not file backed cache
    let file_backed = false;
    let cache = new_cache(&storage, file_backed);
    // the `Segments.data` should not be filed backed
    assert!(!cache.segments.data_file_backed());
    // the `Seg` should not be restored
    assert!(!cache._restored);
    // the `Segments` fields' should not have been restored
    assert!(!cache.segments.fields_copied_back);
    // the `TtlBuckets` should not have been restored
    assert!(!cache.ttl_buckets.buckets_copied_back);
    // the `HashTable` should not have been restored
    assert!(!cache.hashtable.table_copied_back);
}

// Check that a restored cache is file backed and the `Seg` is restored
#[test]
fn restored_cache_file_backed() {
    let storage = Storage::new();
    // restore, file backed cache
    let cache = restore_cache(&storage);
    // the `Segments.data` should be filed backed
    assert!(cache.segments.data_file_backed());
    // the `Seg` should be restored
    assert!(cache._restored);
    // the `Segments` fields' should have been restored
    assert!(cache.segments.fields_copied_back);
    // the `TtlBuckets` should have been restored
    assert!(cache.ttl_buckets.buckets_copied_back);
    // the `HashTable` should have been restored
    assert!(cache.hashtable.table_copied_back);
}

// Edge Case: Check that an attempt to restore a cache without specifing
// any paths for the `Segments.data`, `Segments` fields',
// `HashTable` and `TTLBuckets` will lead to `Segments.data` not
// being file backed and none of the other structures being restored
#[test]
fn restored_cache_no_paths_set() {
    let segment_size = 4096;
    let segments = 64;
    let heap_size = segments * segment_size as usize;
    let datapool_path: Option<String> = None;
    let segments_fields_path: Option<String> = None;

    let cache = Seg::builder()
        .restore(true)
        .segment_size(segment_size as i32)
        .heap_size(heap_size)
        .datapool_path(datapool_path) // set no path
        .segments_fields_path(segments_fields_path) // set no path
        .build();

    // the `Segments.data` should not be filed backed
    assert!(!cache.segments.data_file_backed());
    // the `Seg` should not be restored
    assert!(!cache._restored);
    // the `Segments` fields' should not have been restored
    assert!(!cache.segments.fields_copied_back);
    // the `TtlBuckets` should not have been restored
    assert!(!cache.ttl_buckets.buckets_copied_back);
    // the `HashTable` should not have been restored
    assert!(!cache.hashtable.table_copied_back);
}

// Check that if paths are specified, then the cache is gracefully
// shutdown
#[test]
fn cache_gracefully_shutdown() {
    let mut storage = Storage::new();
    let segment_size = 4096;
    let segments = SEGMENTS;
    let heap_size = segments * segment_size as usize;
    let datapool_path: Option<String> = Some(String::from(DATAPOOL_PATH));

    // create new, file backed cache
    let cache = Seg::builder()
        .restore(false)
        .segment_size(segment_size as i32)
        .heap_size(heap_size)
        .datapool_path(datapool_path) // set path
        .build();

    let segments_fields_path: Option<String> = Some(String::from(SEGMENTS_FIELDS_PATH));
    let ttl_buckets_path: Option<String> = Some(String::from(TTL_BUCKETS_PATH));
    let hashtable_path: Option<String> = Some(String::from(HASHTABLE_PATH));

    assert!(Seg::demolisher()
        .heap_size(heap_size)
        .segments_fields_path(segments_fields_path)
        .ttl_buckets_path(ttl_buckets_path)
        .hashtable_path(hashtable_path)
        .demolish(cache, &mut storage));
}

// Check that if paths are not specified, then the cache is not gracefully
// shutdown
#[test]
fn cache_not_gracefully_shutdown() {
    let mut storage = Storage::new();
    let segment_size = 4096;
    let segments = SEGMENTS;
    let heap_size = segments * segment_size as usize;
    let datapool_path: Option<String> = Some(String::from(DATAPOOL_PATH));

    // create new, file backed cache
    let cache = Seg::builder()
        .restore(false)
        .segment_size(segment_size as i32)
        .heap_size(heap_size)
        .datapool_path(datapool_path) // set path
        .build();

    let segments_fields_path: Option<String> = Some(String::from(SEGMENTS_FIELDS_PATH));
    let ttl_buckets_path: Option<String> = Some(String::from(TTL_BUCKETS_PATH));
    // Do not set HashTable path properly
    let hashtable_path: Option<String> = None;

    assert!(!Seg::demolisher()
        .heap_size(heap_size)
        .segments_fields_path(segments_fields_path)
        .ttl_buckets_path(ttl_buckets_path)
        .hashtable_path(hashtable_path)
        .demolish(cache, &mut storage));
}

// Creates a new cache, stores an item, gracefully shutsdown cache and restore cache
// Check item is still there and caches are equivalent
#[test]
fn new_file_backed_cache_changed_and_restored() {
    let mut storage = Storage::new();
    // create new, file backed cache
    let file_backed = true;
    let mut cache = new_cache(&storage, file_backed);

    assert!(!cache._restored);
    assert_eq!(cache.items(), 0);
    assert_eq!(cache.segments.free(), SEGMENTS);

    // "latte" should not be in a new, empty cache
    assert!(cache.get(b"latte").is_none());
    // insert "latte" into cache
    assert!(cache
        .insert(b"latte", b"", None, Duration::from_secs(5))
        .is_ok());
    // "latte" should now be in cache
    assert!(cache.get(b"latte").is_some());

    assert_eq!(cache.items(), 1);
    assert_eq!(cache.segments.free(), SEGMENTS - 1);

    // Get a copy of the cache to be compared later
    let old_cache = cache.clone();

    // gracefully shutdown cache
    assert!(demolish_cache(&mut storage, cache));

    // restore cache!
    // This cache is file backed by same file as the above cache
    // saved `Segments.data` to and the `Seg` is restored
    let mut new_cache = restore_cache(&storage);

    assert!(new_cache._restored);
    // "latte" should be in restored cache
    assert!(new_cache.get(b"latte").is_some());
    assert_eq!(new_cache.items(), 1);
    assert_eq!(new_cache.segments.free(), SEGMENTS - 1);

    // the restored cache should be equivalent to the old cache
    assert!(new_cache.equivalent_seg(old_cache));
}

// Creates a new cache, gracefully shutsdown cache and restore cache
// Check caches are equivalent
#[test]
fn new_file_backed_cache_not_changed_and_restored() {
    let mut storage = Storage::new();
    // create new, file backed cache
    let file_backed = true;
    let cache = new_cache(&storage, file_backed);

    assert!(!cache._restored);

    // Get a copy of the cache to be compared later
    let old_cache = cache.clone();

    // gracefully shutdown cache
    // `Segments.data` saved to file
    assert!(demolish_cache(&mut storage, cache));

    // restore cache!
    // This new cache is file backed by same file as the above cache
    // saved `Segments.data` to and the `Seg` is restored
    let new_cache = restore_cache(&storage);

    assert!(new_cache._restored);

    // the restored cache should be equivalent to the old cache
    assert!(new_cache.equivalent_seg(old_cache));
}

// Creates a new cache, stores an item, gracefully shutsdown cache and spawn new cache
// Check item is not in new cache and caches are not equivalent
#[test]
fn new_cache_changed_and_not_restored() {
    let mut storage = Storage::new();
    // create new, file backed cache
    let file_backed = true;
    let mut cache = new_cache(&storage, file_backed);

    assert!(!cache._restored);
    assert_eq!(cache.items(), 0);
    assert_eq!(cache.segments.free(), SEGMENTS);

    // "latte" should not be in a new, empty cache
    assert!(cache.get(b"latte").is_none());
    // insert "latte" into cache
    assert!(cache
        .insert(b"latte", b"", None, Duration::from_secs(5))
        .is_ok());
    // "latte" should now be in cache
    assert!(cache.get(b"latte").is_some());

    assert_eq!(cache.items(), 1);
    assert_eq!(cache.segments.free(), SEGMENTS - 1);

    // Get a copy of the cache to be compared later
    let old_cache = cache.clone();

    // gracefully shutdown cache
    // save `Segments.data`
    assert!(demolish_cache(&mut storage, cache));

    // create new, file backed cache.
    // This new cache is file backed by same file as the above cache
    // saved `Segments.data` to but since this cache is treated as new
    let mut new_cache = new_cache(&storage, true);

    assert!(!new_cache._restored);
    assert_eq!(new_cache.items(), 0);
    assert_eq!(new_cache.segments.free(), SEGMENTS);

    // "latte" should not be in new cache
    assert!(new_cache.get(b"latte").is_none());

    // the restored cache should not be equivalent to the old cache
    assert!(!new_cache.equivalent_seg(old_cache));
}

// Creates a new cache, fills it, gracefully shuts it down and restores it.
// Checks that the caches are equivalent and hold the same items.
#[test]
fn full_cache_recovery_long() {
    let mut storage = Storage::new();
    let ttl = Duration::ZERO;
    let value_size = 512;
    let key_size = 1;
    let iters = 1_000_000;

    // create new, file backed cache
    let file_backed = true;
    let mut cache = new_cache(&storage, file_backed);

    assert!(!cache._restored);
    assert_eq!(cache.items(), 0);
    assert_eq!(cache.segments.free(), SEGMENTS);

    // a fast generator seeded from the thread's generator
    let mut rng = SmallRng::from_rng(&mut rand::rng());

    let mut key = vec![0; key_size];
    let mut value = vec![0; value_size];

    // record all of the unique keys
    let mut unique_keys = HashSet::new();

    // fill cache
    for _ in 0..iters {
        rng.fill_bytes(&mut key);
        rng.fill_bytes(&mut value);

        let save_key = key.clone();
        unique_keys.insert(save_key);

        assert!(cache.insert(&key, &value, None, ttl).is_ok());
    }

    // record all active keys in cache
    // (this could be less than # unique keys if eviction has occurred)
    let mut unique_active_keys = Vec::new();
    for key in &unique_keys {
        // if this key exists, save it!
        if cache.get(&key).is_some() {
            unique_active_keys.push(key);
        }
    }

    // check that the number of active items in the cache equals the number
    // of active keys
    assert_eq!(cache.items(), unique_active_keys.len());

    // Get a copy of the cache to be compared later
    let old_cache = cache.clone();

    // gracefully shutdown cache
    // save `Segments.data`
    assert!(demolish_cache(&mut storage, cache));

    // restore cache!
    // This new cache is file backed by same file as the above cache
    // saved `Segments.data` to and the `Seg` is restored
    let mut new_cache = restore_cache(&storage);

    assert!(new_cache._restored);

    // the restored cache should be equivalent to the old cache
    assert!(new_cache.equivalent_seg(old_cache));

    // check that the number of active items in the restored cache
    // equals the number of active keys in the first cache
    assert_eq!(new_cache.items(), unique_active_keys.len());

    // check that every active key from the first cache is in
    // the restored cache
    while let Some(key) = unique_active_keys.pop() {
        assert!(new_cache.get(&key).is_some());
    }
}
