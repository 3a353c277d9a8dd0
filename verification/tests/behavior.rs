use seg::hashtable::HashTable;
use seg::snapshot::{decode_table, encode_table};
use seg::storage::Storage;
use seg::{Policy, Seg, SegError};
use std::time::Duration;

const MB: usize = 1024 * 1024;

fn small_cache() -> Seg {
    Seg::builder()
        .segment_size(4096)
        .heap_size(4096 * 64)
        .build()
}

#[test]
fn builder_example() {
    let mut cache = Seg::builder()
        .heap_size(64 * MB)
        .segment_size(1 * MB as i32)
        .hash_power(16)
        .eviction(Policy::Random)
        .build();
    assert_eq!(cache.items(), 0);
    assert_eq!(cache.segments.free(), 64);
}

#[test]
fn default_builder_is_valid() {
    let builder = Seg::builder();
    assert!(builder.is_valid());
    assert!(!Seg::builder().hash_power(2).is_valid());
    assert!(!Seg::builder().segment_size(0).is_valid());
    assert!(!Seg::builder().heap_size(10).segment_size(4096).is_valid());
}

#[test]
fn get_example() {
    let mut cache = small_cache();
    assert!(cache.get(b"coffee").is_none());
    assert!(cache.insert(b"coffee", b"strong", None, Duration::ZERO).is_ok());
    let item = cache.get(b"coffee").expect("didn't get item back");
    assert_eq!(item.value(), b"strong");
    assert_eq!(item.key(), b"coffee");
    assert_eq!(item.optional(), b"");
}

#[test]
fn get_no_freq_incr_example() {
    let mut cache = small_cache();
    assert!(cache.get_no_freq_incr(b"coffee").is_none());
    assert!(cache.insert(b"coffee", b"strong", Some(&b"opt"[..]), Duration::ZERO).is_ok());
    let before = cache.clone();
    let item = cache.get_no_freq_incr(b"coffee").expect("didn't get item back");
    assert_eq!(item.value(), b"strong");
    assert_eq!(item.optional(), b"opt");
    // the cache is left exactly as it was
    assert!(cache.equivalent_seg(before));
}

#[test]
fn insert_example() {
    let mut cache = small_cache();
    assert!(cache.get(b"drink").is_none());

    assert!(cache.insert(b"drink", b"coffee", None, Duration::ZERO).is_ok());
    let item = cache.get(b"drink").expect("didn't get item back");
    assert_eq!(item.value(), b"coffee");

    assert!(cache.insert(b"drink", b"whisky", None, Duration::ZERO).is_ok());
    let item = cache.get(b"drink").expect("didn't get item back");
    assert_eq!(item.value(), b"whisky");
    assert_eq!(cache.items(), 1);
}

#[test]
fn cas_example() {
    let mut cache = small_cache();

    // If the item is not in the cache, CAS will fail as 'NotFound'
    assert_eq!(
        cache.cas(b"drink", b"coffee", None, Duration::ZERO, 0),
        Err(SegError::NotFound)
    );

    // If a stale CAS value is provided, CAS will fail as 'Exists'
    assert!(cache.insert(b"drink", b"coffee", None, Duration::ZERO).is_ok());
    assert_eq!(
        cache.cas(b"drink", b"coffee", None, Duration::ZERO, 0),
        Err(SegError::Exists)
    );

    // Getting the CAS value and then performing the operation ensures
    // success in absence of a race with another client
    let current = cache.get(b"drink").expect("not found");
    assert_eq!(current.cas(), 1);
    assert!(cache
        .cas(b"drink", b"whisky", None, Duration::ZERO, current.cas())
        .is_ok());
    let item = cache.get(b"drink").expect("not found");
    assert_eq!(item.value(), b"whisky");
    assert_eq!(item.cas(), 2);
}

#[test]
fn cas_after_replace_is_stale() {
    let mut cache = small_cache();
    assert!(cache.insert(b"tea", b"green", None, Duration::ZERO).is_ok());
    let read = cache.get(b"tea").expect("not found");
    assert!(cache.insert(b"tea", b"black", None, Duration::ZERO).is_ok());
    let before = cache.clone();
    assert_eq!(
        cache.cas(b"tea", b"white", None, Duration::ZERO, read.cas()),
        Err(SegError::Exists)
    );
    assert!(cache.equivalent_seg(before));
    assert_eq!(cache.get(b"tea").unwrap().value(), b"black");
}

#[test]
fn delete_example() {
    let mut cache = small_cache();

    // If the item is not in the cache, delete will return false
    assert_eq!(cache.delete(b"coffee"), false);

    // And will return true on success
    assert!(cache.insert(b"coffee", b"strong", None, Duration::ZERO).is_ok());
    assert!(cache.get(b"coffee").is_some());
    assert_eq!(cache.delete(b"coffee"), true);
    assert!(cache.get(b"coffee").is_none());
    assert_eq!(cache.delete(b"coffee"), false);
}

#[test]
fn clear_then_get_finds_nothing() {
    let mut cache = small_cache();
    for i in 0..20 {
        let k = format!("key{}", i);
        assert!(cache.insert(k.as_bytes(), b"v", None, Duration::from_secs(i)).is_ok());
    }
    assert_eq!(cache.items(), 20);
    let freed = cache.clear();
    assert_eq!(cache.items(), 0);
    assert_eq!(cache.segments.free(), 64);
    assert!(freed >= 1);
    for i in 0..20 {
        let k = format!("key{}", i);
        assert!(cache.get(k.as_bytes()).is_none());
    }
}

#[test]
fn expiration_at_given_times() {
    let segments = 64;
    let mut cache = Seg::builder()
        .segment_size(2 * 1024)
        .heap_size(segments * 2 * 1024)
        .hash_power(16)
        .build();

    assert!(cache.insert(b"latte", b"", None, Duration::from_secs(5)).is_ok());
    assert!(cache.insert(b"espresso", b"", None, Duration::from_secs(15)).is_ok());
    assert_eq!(cache.items(), 2);
    assert_eq!(cache.segments.free(), segments - 2);

    // not enough time elapsed, not removed by expire
    assert_eq!(cache.expire_at(0), 0);
    assert!(cache.get(b"latte").is_some());
    assert!(cache.get(b"espresso").is_some());
    assert_eq!(cache.items(), 2);

    // five seconds later
    assert_eq!(cache.expire_at(5), 1);
    assert!(cache.get(b"latte").is_none());
    assert!(cache.get(b"espresso").is_some());
    assert_eq!(cache.items(), 1);
    assert_eq!(cache.segments.free(), segments - 1);

    // fifteen seconds later
    assert_eq!(cache.expire_at(15), 1);
    assert!(cache.get(b"espresso").is_none());
    assert_eq!(cache.items(), 0);
    assert_eq!(cache.segments.free(), segments);
}

#[test]
fn expire_right_after_insert_keeps_items() {
    let mut cache = small_cache();
    assert!(cache.insert(b"mocha", b"x", None, Duration::from_secs(60)).is_ok());
    assert_eq!(cache.expire(), 0);
    assert!(cache.get(b"mocha").is_some());
}

#[test]
fn ttl_picks_the_bucket() {
    let mut cache = small_cache();
    // 1500 seconds, given in milliseconds: whole seconds pick bucket 1500 / 8
    assert!(cache
        .insert(b"a", b"1", None, Duration::from_millis(1_500_999))
        .is_ok());
    assert_eq!(cache.ttl_buckets.buckets[187].segs.len(), 1);
    // zero goes to the last bucket
    assert!(cache.insert(b"b", b"2", None, Duration::ZERO).is_ok());
    assert_eq!(cache.ttl_buckets.buckets[1023].segs.len(), 1);
    // a time-to-live in the second range
    assert!(cache.insert(b"c", b"3", None, Duration::from_secs(4096)).is_ok());
    assert_eq!(cache.ttl_buckets.buckets[256 + 32].segs.len(), 1);
    assert_eq!(cache.segments.free(), 61);
}

#[test]
fn oversized_item_is_refused() {
    let mut cache = small_cache();
    let value = vec![7u8; 5000];
    let before = cache.clone();
    assert_eq!(
        cache.insert(b"k", &value, None, Duration::ZERO),
        Err(SegError::ItemOversized { size: 5008, key: &b"k"[..] })
    );
    assert!(cache.equivalent_seg(before));
    // an item that just fits is accepted: 5 + 1 + 4082 = 4088, padded to 4096
    let value = vec![7u8; 4082];
    assert!(cache.insert(b"k", &value, None, Duration::ZERO).is_ok());
    assert_eq!(cache.get(b"k").unwrap().value(), &value[..]);
}

#[test]
fn long_key_is_refused() {
    let mut cache = small_cache();
    let key = vec![1u8; 256];
    assert!(matches!(
        cache.insert(&key, b"v", None, Duration::ZERO),
        Err(SegError::ItemOversized { .. })
    ));
    let key = vec![1u8; 255];
    assert!(cache.insert(&key, b"v", None, Duration::ZERO).is_ok());
}

#[test]
fn no_eviction_runs_out_of_segments() {
    let mut cache = Seg::builder()
        .segment_size(64)
        .heap_size(64 * 2)
        .hash_power(4)
        .eviction(Policy::NoEviction)
        .build();
    let value = vec![0u8; 40];
    assert!(cache.insert(b"a", &value, None, Duration::ZERO).is_ok());
    assert!(cache.insert(b"b", &value, None, Duration::ZERO).is_ok());
    assert_eq!(
        cache.insert(b"c", &value, None, Duration::ZERO),
        Err(SegError::NoFreeSegments)
    );
    assert!(cache.get(b"a").is_some());
    assert!(cache.get(b"b").is_some());
    assert!(cache.get(b"c").is_none());
}

#[test]
fn eviction_makes_room() {
    let mut cache = Seg::builder()
        .segment_size(64)
        .heap_size(64 * 2)
        .hash_power(4)
        .eviction(Policy::Fifo)
        .build();
    let value = vec![0u8; 40];
    assert!(cache.insert(b"a", &value, None, Duration::ZERO).is_ok());
    assert!(cache.insert(b"b", &value, None, Duration::ZERO).is_ok());
    // the oldest segment, the one of "a", is evicted
    assert!(cache.insert(b"c", &value, None, Duration::ZERO).is_ok());
    assert!(cache.get(b"a").is_none());
    assert!(cache.get(b"b").is_some());
    assert!(cache.get(b"c").is_some());
    assert_eq!(cache.items(), 2);
}

#[test]
fn full_bucket_refuses_insert() {
    let mut cache = Seg::builder()
        .segment_size(4096)
        .heap_size(4096 * 64)
        .hash_power(3)
        .build();
    for i in 0..7 {
        let v = format!("{}", i);
        assert!(cache.insert(v.as_bytes(), v.as_bytes(), None, Duration::ZERO).is_ok());
    }
    assert_eq!(
        cache.insert(b"8", b"8", None, Duration::ZERO),
        Err(SegError::HashTableInsertEx)
    );
    assert!(cache.get(b"8").is_none());
    // replacing a key that is there needs no free slot
    assert!(cache.insert(b"3", b"three", None, Duration::ZERO).is_ok());
    assert_eq!(cache.get(b"3").unwrap().value(), b"three");
}

#[test]
fn integrity_is_checked() {
    let mut cache = small_cache();
    assert!(cache.insert(b"coffee", b"strong", None, Duration::ZERO).is_ok());
    assert_eq!(cache.check_integrity(), Ok(()));
    // point an empty slot of the table at nothing that was written
    cache.hashtable.slots[7] = (1u64 << 52) | 8;
    assert_eq!(cache.check_integrity(), Err(SegError::DataCorrupted));
}

#[test]
fn clone_is_equivalent_until_changed() {
    let mut cache = small_cache();
    assert!(cache.insert(b"x", b"1", None, Duration::ZERO).is_ok());
    let copy = cache.clone();
    assert!(cache.equivalent_seg(copy));
    let copy = cache.clone();
    assert!(cache.insert(b"y", b"2", None, Duration::ZERO).is_ok());
    assert!(!cache.equivalent_seg(copy));
}

#[test]
fn storage_reads_back_writes() {
    let mut storage = Storage::new();
    let p = String::from("/a");
    assert!(storage.read(&p).is_none());
    storage.write(&p, vec![1, 2, 3]);
    storage.write(&String::from("/b"), vec![4]);
    storage.write(&p, vec![5]);
    assert_eq!(storage.read(&p), Some(vec![5]));
    assert_eq!(storage.read(&String::from("/b")), Some(vec![4]));
    assert_eq!(storage.files.len(), 2);
}

#[test]
fn table_image_round_trip() {
    let mut table = HashTable::new(4);
    table.slots[9] = 0x1234_5678_9abc_def0;
    let bytes = encode_table(&table);
    assert_eq!(bytes.len(), 8 * (2 + 16));
    let back = decode_table(&bytes).expect("decodes");
    assert_eq!(back.power, 4);
    assert_eq!(back.nbuckets, 2);
    assert_eq!(back.slots, table.slots);
    assert!(back.table_copied_back);
    assert!(decode_table(&bytes[..bytes.len() - 1].to_vec()).is_none());
}

#[test]
fn closest_to_expiration_is_evicted() {
    let mut cache = Seg::builder()
        .segment_size(64)
        .heap_size(64 * 4)
        .hash_power(4)
        .eviction(Policy::Cte)
        .build();
    let value = vec![0u8; 40];
    let long = Duration::from_secs(3000);
    let short = Duration::from_secs(20);
    assert!(cache.insert(b"a", &value, None, long).is_ok());
    assert!(cache.insert(b"b", &value, None, long).is_ok());
    assert!(cache.insert(b"c", &value, None, short).is_ok());
    assert!(cache.insert(b"d", &value, None, short).is_ok());
    assert_eq!(cache.segments.free(), 0);
    // the head of the short chain expires first, so it goes
    assert!(cache.insert(b"e", &value, None, short).is_ok());
    assert!(cache.get(b"c").is_none());
    assert!(cache.get(b"a").is_some());
    assert!(cache.get(b"b").is_some());
    assert!(cache.get(b"d").is_some());
    assert!(cache.get(b"e").is_some());
}

#[test]
fn random_eviction_spares_the_tail() {
    let mut cache = Seg::builder()
        .segment_size(64)
        .heap_size(64 * 2)
        .hash_power(4)
        .eviction(Policy::Random)
        .build();
    let value = vec![0u8; 40];
    assert!(cache.insert(b"a", &value, None, Duration::ZERO).is_ok());
    assert!(cache.insert(b"b", &value, None, Duration::ZERO).is_ok());
    // only the first segment of the chain may go
    assert!(cache.insert(b"c", &value, None, Duration::ZERO).is_ok());
    assert!(cache.get(b"a").is_none());
    assert!(cache.get(b"b").is_some());
    assert!(cache.get(b"c").is_some());
}

#[test]
fn insert_at_stamps_and_expires() {
    let mut cache = Seg::builder()
        .segment_size(2 * 1024)
        .heap_size(64 * 2 * 1024)
        .hash_power(16)
        .build();
    // a segment taken at time 100 for a time-to-live of 5 s (bucket ttl 1)
    assert!(cache
        .insert_at(b"latte", b"", None, Duration::from_secs(5), 100)
        .is_ok());
    let seg = cache.ttl_buckets.buckets[0].segs[0] as usize;
    assert_eq!(cache.segments.headers[seg].create_at, 100);
    assert_eq!(cache.segments.headers[seg].ttl, 1);
    // a later insert into the same bucket reuses the segment
    assert!(cache
        .insert_at(b"mocha", b"", None, Duration::from_secs(6), 103)
        .is_ok());
    assert_eq!(cache.segments.free(), 63);
    assert_eq!(cache.expire_at(100), 0);
    assert!(cache.get(b"latte").is_some());
    assert_eq!(cache.expire_at(106), 1);
    assert!(cache.get(b"latte").is_none());
    assert!(cache.get(b"mocha").is_none());
    assert_eq!(cache.segments.free(), 64);
}

#[test]
fn accounting_of_segments() {
    let mut cache = small_cache();
    assert!(cache.insert(b"a", b"1", None, Duration::ZERO).is_ok());
    assert_eq!(cache.segments.free(), 63);
    // the tail of the bucket has room: no segment is taken
    assert!(cache.insert(b"b", b"2", None, Duration::ZERO).is_ok());
    assert!(cache.insert(b"a", b"3", None, Duration::ZERO).is_ok());
    assert_eq!(cache.segments.free(), 63);
    // another bucket takes a segment of its own
    assert!(cache.insert(b"c", b"4", None, Duration::from_secs(60)).is_ok());
    assert_eq!(cache.segments.free(), 62);
    // reads and deletes leave the segments alone
    assert!(cache.get(b"a").is_some());
    assert!(cache.delete(b"b"));
    assert_eq!(cache.segments.free(), 62);
    assert_eq!(cache.clear(), 2);
    assert_eq!(cache.segments.free(), 64);
}

// The read count of the one item in the table, from its slot.
fn only_freq(cache: &Seg) -> u64 {
    let mut found = None;
    for (i, x) in cache.hashtable.slots.iter().enumerate() {
        if i % 8 != 0 && *x != 0 {
            assert!(found.is_none());
            found = Some((*x >> 44) & 0x7f);
        }
    }
    found.unwrap()
}

#[test]
fn get_at_counts_once_a_second() {
    let mut cache = small_cache();
    assert!(cache.insert_secs(b"tea", b"green", None, 0, 10).is_ok());
    assert_eq!(only_freq(&cache), 0);
    assert_eq!(cache.get_at(b"tea", 10, 0).unwrap().value(), b"green");
    assert_eq!(only_freq(&cache), 1);
    assert!(cache.get_at(b"tea", 10, 0).is_some());
    assert_eq!(only_freq(&cache), 1);
    assert!(cache.get_at(b"tea", 11, 0).is_some());
    assert_eq!(only_freq(&cache), 2);
    assert!(cache.get_no_freq_incr(b"tea").is_some());
    assert_eq!(only_freq(&cache), 2);
    assert!(cache.get_at(b"coffee", 12, 0).is_none());
}

#[test]
fn get_at_above_sixteen_draws() {
    let mut cache = small_cache();
    assert!(cache.insert_secs(b"tea", b"green", None, 0, 0).is_ok());
    for second in 1..=17u32 {
        assert!(cache.get_at(b"tea", second, 7).is_some());
    }
    assert_eq!(only_freq(&cache), 17);
    // 18 is no multiple of 17: the count stays
    assert!(cache.get_at(b"tea", 18, 18).is_some());
    assert_eq!(only_freq(&cache), 17);
    // 34 is: the count goes up
    assert!(cache.get_at(b"tea", 19, 34).is_some());
    assert_eq!(only_freq(&cache), 18);
}

#[test]
fn insert_secs_matches_insert_at() {
    let mut a = small_cache();
    let mut b = small_cache();
    assert!(a.insert_secs(b"latte", b"foam", None, 5, 100).is_ok());
    assert!(b
        .insert_at(b"latte", b"foam", None, Duration::from_millis(5_900), 100)
        .is_ok());
    let sa = a.ttl_buckets.buckets[0].segs[0] as usize;
    let sb = b.ttl_buckets.buckets[0].segs[0] as usize;
    assert_eq!(a.segments.headers[sa].ttl, 1);
    assert_eq!(b.segments.headers[sb].ttl, 1);
    assert_eq!(a.segments.headers[sa].create_at, 100);
    assert_eq!(a.get_no_freq_incr(b"latte").unwrap().value(), b"foam");
}

#[test]
fn ttl_beyond_u32_is_clamped() {
    let mut a = small_cache();
    let mut b = small_cache();
    assert!(a.insert_secs(b"k", b"v", None, u64::MAX, 0).is_ok());
    assert!(b.insert_secs(b"k", b"v", None, u32::MAX as u64, 0).is_ok());
    let ia = a.ttl_buckets.buckets.iter().position(|t| !t.segs.is_empty()).unwrap();
    let ib = b.ttl_buckets.buckets.iter().position(|t| !t.segs.is_empty()).unwrap();
    assert_eq!(ia, ib);
    let sa = a.ttl_buckets.buckets[ia].segs[0] as usize;
    let sb = b.ttl_buckets.buckets[ib].segs[0] as usize;
    assert_eq!(a.segments.headers[sa].ttl, b.segments.headers[sb].ttl);
    assert!(a.segments.headers[sa].ttl > 0);
}

#[test]
fn expire_frees_every_expired_segment() {
    let mut cache = small_cache();
    let value = vec![7u8; 3000];
    // three items too large to share a segment, in one bucket
    assert!(cache.insert_secs(b"a", &value, None, 5, 100).is_ok());
    assert!(cache.insert_secs(b"b", &value, None, 5, 100).is_ok());
    assert!(cache.insert_secs(b"c", &value, None, 5, 100).is_ok());
    // and one that lives long
    assert!(cache.insert_secs(b"d", b"long", None, 100_000, 100).is_ok());
    assert_eq!(cache.segments.free(), 60);
    assert_eq!(cache.expire_at(100), 0);
    assert_eq!(cache.segments.free(), 60);
    assert_eq!(cache.expire_at(106), 3);
    assert_eq!(cache.segments.free(), 63);
    assert!(cache.get(b"a").is_none());
    assert!(cache.get(b"c").is_none());
    assert!(cache.get(b"d").is_some());
}

#[test]
fn one_byte_keys_all_fit() {
    let mut cache = Seg::builder()
        .segment_size(4096)
        .heap_size(4096 * 64)
        .hash_power(16)
        .build();
    for k in 0..=255u8 {
        assert_eq!(cache.insert(&[k], b"x", None, Duration::ZERO), Ok(()));
    }
    for k in 0..=255u8 {
        assert!(cache.get_no_freq_incr(&[k]).is_some());
    }
}
