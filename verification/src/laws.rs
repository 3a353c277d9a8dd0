//! Properties that relate the operations of the cache to one another.
use crate::error::SegError;
use crate::item::Item;
use crate::hashtable::lemma_one_byte_hashes;
use crate::insert::{insert_post, kept_but, needs_no_eviction, next_cas, oversized, placed, ttl_bucket};
use crate::ttl_buckets::MAX_N_TTL_BUCKET;
use crate::item::item_size_spec;
use crate::seg::Seg;
use crate::ttl_buckets::bucket_ttl_spec;
use vstd::prelude::*;

verus! {

/// Reading a key right after a successful insert of it gives back the
/// inserted key, value and optional data.
pub proof fn lemma_get_after_insert(
    a: &Seg,
    b: &Seg,
    c: &Seg,
    key: Seq<u8>,
    value: Seq<u8>,
    optional: Seq<u8>,
    secs: u64,
    now: u32,
    r: Option<Item>,
)
    requires
        insert_post(a, b, key, value, optional, secs, now, Ok(())),
        Seg::get_post(b, c, key, r),
    ensures
        r matches Some(item) && item.key_view() == key && item.value_view() == value
            && item.optional_view() == optional,
{
}

/// An insert succeeds when the item fits in a segment, the last segment of
/// its bucket's chain has room for it or a segment is free, and the key is
/// already there or its bucket has a free slot.
pub proof fn lemma_insert_succeeds(
    a: &Seg,
    b: &Seg,
    key: Seq<u8>,
    value: Seq<u8>,
    optional: Seq<u8>,
    secs: u64,
    now: u32,
    r: Result<(), SegError>,
)
    requires
        insert_post(a, b, key, value, optional, secs, now, r),
        !oversized(key.len(), value.len(), optional.len(), a.seg_size()),
        a.free_q().len() > 0 || a.tail_room(
            ttl_bucket(secs),
            item_size_spec(key.len(), value.len(), optional.len()) as int,
        ),
        a@.contains_key(key) || !a.bucket_full(key),
    ensures
        r is Ok,
{
}

/// Reading a key right after it was removed finds nothing.
pub proof fn lemma_get_after_delete(
    a: &Seg,
    b: &Seg,
    c: &Seg,
    key: Seq<u8>,
    removed: bool,
    r: Option<Item>,
)
    requires
        Seg::delete_post(a, b, key, removed),
        Seg::get_post(b, c, key, r),
    ensures
        r is None,
{
}

/// Removing a key right after a successful insert of it reports that it
/// was there.
pub proof fn lemma_delete_after_insert(
    a: &Seg,
    b: &Seg,
    c: &Seg,
    key: Seq<u8>,
    value: Seq<u8>,
    optional: Seq<u8>,
    secs: u64,
    now: u32,
    removed: bool,
)
    requires
        insert_post(a, b, key, value, optional, secs, now, Ok(())),
        Seg::delete_post(b, c, key, removed),
    ensures
        removed,
{
}

/// A CAS with the value just read for a key is not refused as stale or
/// missing: it inserts the item as an insert would.
pub proof fn lemma_cas_after_get(
    a: &Seg,
    b: &Seg,
    c: &Seg,
    key: Seq<u8>,
    item: Item,
    value: Seq<u8>,
    optional: Seq<u8>,
    secs: u64,
    now: u32,
    r: Result<(), SegError>,
)
    requires
        Seg::get_post(a, b, key, Some(item)),
        Seg::cas_post(b, c, key, value, optional, secs, now, item.spec_cas(), r),
    ensures
        insert_post(b, c, key, value, optional, secs, now, r),
        !(r matches Err(SegError::NotFound)),
        !(r matches Err(SegError::Exists)),
{
}

/// Once the item of a key has been replaced, a CAS with the value read
/// before the replacement is refused as stale and changes nothing.
pub proof fn lemma_cas_after_replace(
    a: &Seg,
    b: &Seg,
    c: &Seg,
    d: &Seg,
    key: Seq<u8>,
    item: Item,
    value: Seq<u8>,
    optional: Seq<u8>,
    value2: Seq<u8>,
    optional2: Seq<u8>,
    secs: u64,
    now: u32,
    secs2: u64,
    now2: u32,
    r: Result<(), SegError>,
)
    requires
        Seg::get_post(a, b, key, Some(item)),
        insert_post(b, c, key, value, optional, secs, now, Ok(())),
        Seg::cas_post(c, d, key, value2, optional2, secs2, now2, item.spec_cas(), r),
    ensures
        r matches Err(SegError::Exists),
        *d == *c,
{
    assert(c.cas_of(key) == next_cas(b.cas_of(key)));
}

/// After the cache is cleared, reading any key finds nothing.
pub proof fn lemma_get_after_clear(
    a: &Seg,
    b: &Seg,
    c: &Seg,
    n: usize,
    key: Seq<u8>,
    r: Option<Item>,
)
    requires
        Seg::clear_post(a, b, n),
        Seg::get_post(b, c, key, r),
    ensures
        r is None,
{
}

/// An item is stored with a time-to-live of at most one second more than
/// the one it was inserted with (a time-to-live of zero meaning the longest
/// one), and an expiry at a time when its segment's time-to-live has passed
/// removes it.
pub proof fn lemma_expire_after_insert(
    a: &Seg,
    b: &Seg,
    c: &Seg,
    key: Seq<u8>,
    value: Seq<u8>,
    optional: Seq<u8>,
    secs: u64,
    at: u32,
    later: u32,
    n: usize,
)
    requires
        insert_post(a, b, key, value, optional, secs, at, Ok(())),
        Seg::expire_post(b, c, later, n),
        b.segments.headers@[b.seg_of_key(key)].create_at + b.segments.headers@[b.seg_of_key(
            key,
        )].ttl <= later,
    ensures
        secs >= 1 ==> b.segments.headers@[b.seg_of_key(key)].ttl <= secs + 1,
        !c@.contains_key(key),
{
    if secs >= 1 {
        lemma_ttl_bound(secs);
    }
}

/// The segments of the bucket for a time-to-live of `secs >= 1` seconds
/// have a time-to-live of at most `secs + 1`.
pub proof fn lemma_ttl_bound(secs: u64)
    requires
        1 <= secs,
    ensures
        bucket_ttl_spec(ttl_bucket(secs)) <= secs + 1,
{
    let t = if secs > u32::MAX {
        u32::MAX
    } else {
        secs as u32
    };
    assert(ttl_bucket(secs) == crate::ttl_buckets::bucket_index_spec(t));
    assert(bucket_ttl_spec(ttl_bucket(secs)) <= secs + 1) by (nonlinear_arith)
        requires
            ttl_bucket(secs) == crate::ttl_buckets::bucket_index_spec(t),
            t == (if secs > u32::MAX { u32::MAX } else { secs as u32 }),
            secs >= 1,
    {
    }
}

/// The segments of the bucket for a time-to-live of `secs >= 1` seconds
/// live less than a bucket's width short of `secs`: widths of 8, 128, 2048
/// and 32768 seconds up to 2048, 32768, 524288 and 8355840 seconds; beyond
/// that every time-to-live shares the last bucket, of 8355841 seconds.
pub proof fn lemma_ttl_lower_bound(secs: u64)
    requires
        1 <= secs,
    ensures
        secs < 2048 ==> bucket_ttl_spec(ttl_bucket(secs)) > secs - 8,
        2048 <= secs < 32768 ==> bucket_ttl_spec(ttl_bucket(secs)) > secs - 128,
        32768 <= secs < 524288 ==> bucket_ttl_spec(ttl_bucket(secs)) > secs - 2048,
        524288 <= secs < 8355840 ==> bucket_ttl_spec(ttl_bucket(secs)) > secs - 32768,
        8355840 <= secs ==> bucket_ttl_spec(ttl_bucket(secs)) == 8355841,
{
    let t: int = if secs > u32::MAX {
        u32::MAX as int
    } else {
        secs as int
    };
    let i = ttl_bucket(secs);
    if secs < 2048 {
        assert(i == t / 8);
        assert(bucket_ttl_spec(i) == 8 * ((t / 8) % 256) + 1);
        assert(8 * ((t / 8) % 256) + 1 > t - 8) by (nonlinear_arith)
            requires
                1 <= t < 2048,
        ;
    } else if secs < 32768 {
        assert(i == t / 128 + 256);
        assert(bucket_ttl_spec(i) == 128 * ((t / 128 + 256) % 256) + 1) by (nonlinear_arith)
            requires
                i == t / 128 + 256,
                2048 <= t < 32768,
                bucket_ttl_spec(i) == crate::ttl_buckets::interval_spec(i / 256) * (i % 256) + 1,
        ;
        assert(128 * ((t / 128 + 256) % 256) + 1 > t - 128) by (nonlinear_arith)
            requires
                2048 <= t < 32768,
        ;
    } else if secs < 524288 {
        assert(i == t / 2048 + 512);
        assert(bucket_ttl_spec(i) == 2048 * ((t / 2048 + 512) % 256) + 1) by (nonlinear_arith)
            requires
                i == t / 2048 + 512,
                32768 <= t < 524288,
                bucket_ttl_spec(i) == crate::ttl_buckets::interval_spec(i / 256) * (i % 256) + 1,
        ;
        assert(2048 * ((t / 2048 + 512) % 256) + 1 > t - 2048) by (nonlinear_arith)
            requires
                32768 <= t < 524288,
        ;
    } else if secs < 8355840 {
        assert(t / 32768 + 768 < 1023) by (nonlinear_arith)
            requires
                524288 <= t < 8355840,
        ;
        assert(i == t / 32768 + 768);
        assert(bucket_ttl_spec(i) == 32768 * ((t / 32768 + 768) % 256) + 1) by (nonlinear_arith)
            requires
                i == t / 32768 + 768,
                524288 <= t < 8355840,
                bucket_ttl_spec(i) == crate::ttl_buckets::interval_spec(i / 256) * (i % 256) + 1,
        ;
        assert(32768 * ((t / 32768 + 768) % 256) + 1 > t - 32768) by (nonlinear_arith)
            requires
                524288 <= t < 8355840,
        ;
    } else {
        if t < 0x8000_0000 {
            assert(t / 32768 + 768 >= 1023) by (nonlinear_arith)
                requires
                    8355840 <= t,
            ;
        }
        assert(i == 1023);
    }
}

/// Every segment in a chain of the cache `a` was created no later than
/// `at`, as holds when `at` is read from the cache's clock.
pub open spec fn stamped_by(a: &Seg, at: u32) -> bool {
    forall|bb: int, p: int|
        0 <= bb < MAX_N_TTL_BUCKET && 0 <= p < a.chain(bb).len()
            ==> #[trigger] a.segments.headers@[a.chain(bb)[p] as int].create_at <= at
}

/// The segments left in the chains after an eviction were there before,
/// with the same headers.
proof fn lemma_evicted_stamped(a: &Seg, e: &Seg, vb: int, vp: int, at: u32)
    requires
        a.inv(),
        stamped_by(a, at),
        0 <= vb < MAX_N_TTL_BUCKET,
        0 <= vp < a.chain(vb).len(),
        Seg::evicted_at(a, e, vb, vp),
    ensures
        stamped_by(e, at),
{
    let v = a.chain(vb)[vp];
    assert forall|bb: int, p: int|
        0 <= bb < MAX_N_TTL_BUCKET && 0 <= p < e.chain(bb).len() implies #[trigger] e.segments.headers@[e.chain(
        bb,
    )[p] as int].create_at <= at by {
        let q = if bb == vb && p >= vp {
            p + 1
        } else {
            p
        };
        assert(e.chain(bb)[p] == a.chain(bb)[q]);
        assert(a.chain(bb)[q] != v);
        assert(a.chain(bb)[q] < a.nsegs());
        assert(a.segments.headers@[a.chain(bb)[q] as int].create_at <= at);
    }
}

/// The segment that a reservation at time `at` leaves last in the chain of
/// bucket `tb` was created no later than `at`.
proof fn lemma_reserved_stamped(a: &Seg, b: &Seg, tb: int, size: int, at: u32)
    requires
        stamped_by(a, at),
        0 <= tb < MAX_N_TTL_BUCKET,
        Seg::reserved(a, b, tb, size, at),
        forall|bb: int, p: int|
            0 <= bb < MAX_N_TTL_BUCKET && 0 <= p < a.chain(bb).len() ==> #[trigger] a.chain(bb)[p]
                < a.nsegs(),
        a.free_q().len() > 0 ==> a.free_q().last() < a.nsegs(),
    ensures
        b.chain(tb).len() > 0,
        b.segments.headers@[b.chain(tb).last() as int].create_at <= at,
{
    if a.tail_room(tb, size) {
        let t = a.chain(tb).last();
        assert(a.chain(tb)[a.chain(tb).len() - 1] == t);
    } else {
        if a.chain(tb).len() > 0 {
            assert(a.chain(tb)[a.chain(tb).len() - 1] == a.chain(tb).last());
        }
        assert(b.chain(tb).last() == a.free_q().last());
    }
}

/// Eager expiration: an item inserted at time `at` with a time-to-live of
/// `secs` seconds, when the segments were created no later than `at`, is
/// removed by an expiry at any time from `at + secs + 1` on.
pub proof fn lemma_expired_after_ttl(
    a: &Seg,
    b: &Seg,
    c: &Seg,
    key: Seq<u8>,
    value: Seq<u8>,
    optional: Seq<u8>,
    secs: u64,
    at: u32,
    later: u32,
    n: usize,
)
    requires
        a.inv(),
        stamped_by(a, at),
        insert_post(a, b, key, value, optional, secs, at, Ok(())),
        1 <= secs,
        at + secs + 1 <= later,
        Seg::expire_post(b, c, later, n),
    ensures
        !c@.contains_key(key),
{
    let tb = ttl_bucket(secs);
    let size = item_size_spec(key.len(), value.len(), optional.len()) as int;
    lemma_ttl_bound(secs);
    assert(0 <= tb < MAX_N_TTL_BUCKET);
    assert forall|bb: int, p: int|
        0 <= bb < MAX_N_TTL_BUCKET && 0 <= p < a.chain(bb).len() implies #[trigger] a.chain(bb)[p]
        < a.nsegs() by {}
    if a.free_q().len() > 0 {
        assert(a.free_q()[a.free_q().len() - 1] < a.nsegs());
    }
    if needs_no_eviction(a, tb, size) {
        lemma_reserved_stamped(a, b, tb, size, at);
    } else {
        let (e, vb, vp) = choose|e: Seg, vb: int, vp: int|
            #![trigger a.victim(vb, vp), Seg::evicted_at(a, &e, vb, vp)]
            a.victim(vb, vp) && Seg::evicted_at(a, &e, vb, vp) && Seg::reserved(&e, b, tb, size, at)
                && crate::insert::kept_but(a, b, key, a.chain(vb)[vp] as int);
        lemma_evicted_stamped(a, &e, vb, vp, at);
        assert forall|bb: int, p: int|
            0 <= bb < MAX_N_TTL_BUCKET && 0 <= p < e.chain(bb).len() implies #[trigger] e.chain(bb)[p]
            < e.nsegs() by {
            let q = if bb == vb && p >= vp {
                p + 1
            } else {
                p
            };
            assert(e.chain(bb)[p] == a.chain(bb)[q]);
        }
        assert(e.free_q().last() == a.chain(vb)[vp]);
        assert(a.chain(vb)[vp] < a.nsegs());
        lemma_reserved_stamped(&e, b, tb, size, at);
    }
    let s = b.seg_of_key(key);
    assert(b.segments.headers@[s].create_at <= at);
    assert(b.segments.headers@[s].ttl <= secs + 1);
}

/// Expiring never adds an item, and an item of a segment that has not
/// expired at the time of expiry stays in the cache unchanged.
pub proof fn lemma_expire_keeps_live(a: &Seg, b: &Seg, now: u32, n: usize, key: Seq<u8>)
    requires
        Seg::expire_post(a, b, now, n),
        a@.contains_key(key),
        !a.seg_expired(a.seg_of_key(key), now),
    ensures
        b@.contains_key(key),
        b@[key] == a@[key],
{
}

/// A time to live longer than `u32::MAX` seconds acts as `u32::MAX`
/// seconds: an insert promises the same outcomes of both.
pub proof fn lemma_ttl_clamped(
    a: &Seg,
    b: &Seg,
    key: Seq<u8>,
    value: Seq<u8>,
    optional: Seq<u8>,
    secs: u64,
    now: u32,
    r: Result<(), SegError>,
)
    ensures
        insert_post(a, b, key, value, optional, secs, now, r) == insert_post(
            a,
            b,
            key,
            value,
            optional,
            if secs > u32::MAX {
                u32::MAX as u64
            } else {
                secs
            },
            now,
            r,
        ),
{
    let c: u64 = if secs > u32::MAX {
        u32::MAX as u64
    } else {
        secs
    };
    assert(ttl_bucket(secs) == ttl_bucket(c));
}

/// Expiring frees exactly the segments of the chains whose time-to-live
/// has passed, each once, and returns how many they are: the segments
/// added to the free queue are those segments, and the count is their
/// number.
pub proof fn lemma_expire_frees_expired(a: &Seg, b: &Seg, now: u32, n: usize)
    requires
        a.inv(),
        Seg::expire_post(a, b, now, n),
    ensures
        b.free_q().subrange(a.free_q().len() as int, b.free_q().len() as int).to_set()
            == a.expired_segs(now),
        n == a.expired_segs(now).len(),
        a.expired_segs(now).len() == 0 ==> b@ == a@,
{
    let lo = a.free_q().len() as int;
    let tail = b.free_q().subrange(lo, b.free_q().len() as int);
    assert forall|s: u32| #[trigger] tail.contains(s) implies a.expired_segs(now).contains(s) by {
        let i = choose|i: int| 0 <= i < tail.len() && tail[i] == s;
        assert(b.free_q()[lo + i] == s);
    }
    assert forall|s: u32| #[trigger] a.expired_segs(now).contains(s) implies tail.contains(s) by {
        let (bb, p) = choose|bb: int, p: int|
            0 <= bb < MAX_N_TTL_BUCKET && 0 <= p < a.chain(bb).len() && #[trigger] a.chain(bb)[p]
                == s as int;
        let y = a.chain(bb);
        let x = b.chain(bb);
        assert(Seg::chain_suffix(x, y));
        let k = y.len() - x.len();
        if p >= k {
            assert(x[0] == y[k]);
            assert(x[p - k] == y[p]);
            assert(b.segments.headers@[x[0] as int] == a.segments.headers@[x[0] as int]);
            assert(!b.seg_expired(x[0] as int, now));
            if p > k {
                assert(a.segments.headers@[y[k] as int].create_at <= a.segments.headers@[y[p] as int].create_at);
            }
            assert(a.segments.headers@[y[k] as int].ttl == a.segments.headers@[y[p] as int].ttl);
            assert(false);
        }
        assert(s < a.nsegs());
        assert(!a.free_q().contains(s));
        if b.in_chain(s as int) {
            let (b2, q) = choose|b2: int, q: int|
                0 <= b2 < MAX_N_TTL_BUCKET && 0 <= q < b.chain(b2).len() && #[trigger] b.chain(b2)[q]
                    == s as int;
            assert(Seg::chain_suffix(b.chain(b2), a.chain(b2)));
            let k2 = a.chain(b2).len() - b.chain(b2).len();
            assert(b.chain(b2)[q] == a.chain(b2)[k2 + q]);
            assert(b2 == bb && k2 + q == p);
            assert(false);
        }
        assert(b.nsegs() == a.nsegs());
        assert(b.covered());
        assert(b.free_q().contains((s as int) as u32) || b.in_chain(s as int));
        assert(b.free_q().contains(s));
        let j = choose|j: int| 0 <= j < b.free_q().len() && b.free_q()[j] == s;
        if j < lo {
            assert(b.free_q().subrange(0, lo)[j] == a.free_q()[j]);
            assert(false);
        }
        assert(tail[j - lo] == s);
    }
    assert(tail.to_set() =~= a.expired_segs(now));
    assert(tail.no_duplicates()) by {
        assert forall|i: int, j: int| 0 <= i < tail.len() && 0 <= j < tail.len() && i != j implies tail[i]
            != tail[j] by {
            assert(tail[i] == b.free_q()[lo + i]);
            assert(tail[j] == b.free_q()[lo + j]);
        }
    }
    tail.unique_seq_to_set();
    if a.expired_segs(now).len() == 0 {
        assert forall|k: Seq<u8>| #[trigger] a@.contains_key(k) implies b@.contains_key(k) by {
            if !b@.contains_key(k) {
                let i = choose|i: int| a.holds(i, k);
                a.lemma_holds_model(i, k);
                assert(a.slot_ok(i));
                let t = a.seg_of(i);
                assert(a.expired_segs(now).contains(t as u32));
                vstd::set_lib::lemma_set_empty_equivalency_len(a.expired_segs(now));
                assert(false);
            }
        }
        assert(b@ =~= a@);
    }
}

/// A table of at least 2^11 hash slots that holds only keys of one byte
/// never has a full bucket for a key of one byte: such keys fall in
/// distinct buckets.
pub proof fn lemma_one_byte_keys_fit(a: &Seg, key: Seq<u8>)
    requires
        a.inv(),
        a.hashtable.power >= 11,
        key.len() == 1,
        forall|k: Seq<u8>| #[trigger] a@.contains_key(k) ==> k.len() == 1,
    ensures
        !a.bucket_full(key),
{
    if a.bucket_full(key) {
        let bk = a.bucket_of(key);
        let n = (a.hashtable.power - 3) as nat;
        assert forall|j: int| 1 <= j < 3 implies #[trigger] a.key_of(bk * 8 + j) == key by {
            let i = bk * 8 + j;
            assert(a.occupied(i));
            assert(a.slot_ok(i));
            let k = a.key_of(i);
            assert(a.holds(i, k));
            a.lemma_holds_model(i, k);
            assert(i / 8 == bk);
            if k != key {
                lemma_one_byte_hashes(k, key, n);
                assert(false);
            }
        }
        assert(a.occupied(bk * 8 + 1) && a.occupied(bk * 8 + 2));
        assert(a.key_of(bk * 8 + 1) != a.key_of(bk * 8 + 2));
    }
}

/// An insert of a key of one byte into a cache of at least 2^11 hash slots
/// that holds only keys of one byte never fails for want of a free slot in
/// the hash table.
pub proof fn lemma_one_byte_insert(
    a: &Seg,
    b: &Seg,
    key: Seq<u8>,
    value: Seq<u8>,
    optional: Seq<u8>,
    secs: u64,
    now: u32,
    r: Result<(), SegError>,
)
    requires
        a.inv(),
        a.hashtable.power >= 11,
        key.len() == 1,
        forall|k: Seq<u8>| #[trigger] a@.contains_key(k) ==> k.len() == 1,
        insert_post(a, b, key, value, optional, secs, now, r),
    ensures
        !(r matches Err(SegError::HashTableInsertEx)),
{
    if r matches Err(SegError::HashTableInsertEx) {
        assert forall|k: Seq<u8>| #[trigger] b@.contains_key(k) implies k.len() == 1 by {
            assert(a@.contains_key(k));
        }
        lemma_one_byte_keys_fit(b, key);
    }
}

/// An item inserted at clock reading `at` into a bucket whose chain was
/// empty sits in a segment created at `at`, and an expiry at a later
/// reading keeps it, unchanged, until its time-to-live, less the width of
/// its bucket, has passed.
pub proof fn lemma_insert_survives_expire(
    a: &Seg,
    b: &Seg,
    c: &Seg,
    key: Seq<u8>,
    value: Seq<u8>,
    optional: Seq<u8>,
    secs: u64,
    at: u32,
    later: u32,
    n: usize,
)
    requires
        a.inv(),
        1 <= secs,
        a.chain(ttl_bucket(secs)).len() == 0,
        insert_post(a, b, key, value, optional, secs, at, Ok(())),
        Seg::expire_post(b, c, later, n),
    ensures
        b.segments.headers@[b.seg_of_key(key)].create_at == at,
        secs < 2048 && later + 8 <= at + secs ==> c@.contains_key(key) && c@[key] == b@[key],
        secs < 32768 && later + 128 <= at + secs ==> c@.contains_key(key) && c@[key] == b@[key],
        secs < 524288 && later + 2048 <= at + secs ==> c@.contains_key(key) && c@[key] == b@[key],
        secs < 8355840 && later + 32768 <= at + secs ==> c@.contains_key(key) && c@[key]
            == b@[key],
{
    let tb = ttl_bucket(secs);
    let size = item_size_spec(key.len(), value.len(), optional.len()) as int;
    assert(0 <= tb < MAX_N_TTL_BUCKET);
    if needs_no_eviction(a, tb, size) {
        assert(Seg::reserved(a, b, tb, size, at));
        assert(!a.tail_room(tb, size));
        assert(b.chain(tb) == a.chain(tb).push(a.free_q().last()));
        assert(b.chain(tb).last() == a.free_q().last());
    } else {
        let (e, vb, vp) = choose|e: Seg, vb: int, vp: int|
            #![trigger a.victim(vb, vp), Seg::evicted_at(a, &e, vb, vp)]
            a.victim(vb, vp) && Seg::evicted_at(a, &e, vb, vp) && Seg::reserved(&e, b, tb, size, at)
                && kept_but(a, b, key, a.chain(vb)[vp] as int);
        assert(vb != tb);
        assert(e.chain(tb) == a.chain(tb));
        assert(!e.tail_room(tb, size));
        assert(b.chain(tb) == e.chain(tb).push(e.free_q().last()));
        assert(b.chain(tb).last() == e.free_q().last());
    }
    assert(b.segments.headers@[b.seg_of_key(key)].create_at == at);
    lemma_ttl_lower_bound(secs);
    if secs < 8355840 && later + 32768 <= at + secs || secs < 524288 && later + 2048 <= at + secs
        || secs < 32768 && later + 128 <= at + secs || secs < 2048 && later + 8 <= at + secs {
        assert(!b.seg_expired(b.seg_of_key(key), later));
        lemma_expire_keeps_live(b, c, later, n, key);
    }
}

} // verus!
