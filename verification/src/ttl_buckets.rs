//! The time-to-live buckets: each bucket holds the chain of segments whose
//! items have time-to-live values in the bucket's range.
use vstd::prelude::*;

verus! {

/// Number of buckets in each of the four ranges of time-to-live values.
pub const N_BUCKET_PER_STEP: usize = 256;

/// Total number of buckets.
pub const MAX_N_TTL_BUCKET: usize = 1024;

/// Width, in seconds, of the buckets of the first range (up to 2048 s).
pub const TTL_BUCKET_INTERVAL_1: u32 = 8;

/// Width of the buckets of the second range (up to 32768 s).
pub const TTL_BUCKET_INTERVAL_2: u32 = 128;

/// Width of the buckets of the third range (up to 524288 s).
pub const TTL_BUCKET_INTERVAL_3: u32 = 2048;

/// Width of the buckets of the last range.
pub const TTL_BUCKET_INTERVAL_4: u32 = 32768;

/// The bucket for items with a time-to-live of `t` seconds. Zero, and values
/// that do not fit in an `i32`, go to the last bucket.
pub open spec fn bucket_index_spec(t: u32) -> int {
    if t == 0 || t >= 0x8000_0000 {
        1023
    } else if t < 2048 {
        t as int / 8
    } else if t < 32768 {
        t as int / 128 + 256
    } else if t < 524288 {
        t as int / 2048 + 512
    } else if t as int / 32768 + 768 < 1023 {
        t as int / 32768 + 768
    } else {
        1023
    }
}

pub open spec fn interval_spec(step: int) -> int {
    if step == 0 {
        8
    } else if step == 1 {
        128
    } else if step == 2 {
        2048
    } else {
        32768
    }
}

/// The time-to-live of the segments of bucket `i`: the lower end of the
/// bucket's range, plus one.
pub open spec fn bucket_ttl_spec(i: int) -> int {
    interval_spec(i / 256) * (i % 256) + 1
}

/// Computes the bucket for a time-to-live of `t` seconds.
pub fn bucket_index(t: u32) -> (i: usize)
    ensures
        i == bucket_index_spec(t),
        i < MAX_N_TTL_BUCKET,
{
    if t == 0 || t >= 0x8000_0000 {
        MAX_N_TTL_BUCKET - 1
    } else if t < 2048 {
        (t / TTL_BUCKET_INTERVAL_1) as usize
    } else if t < 32768 {
        (t / TTL_BUCKET_INTERVAL_2) as usize + N_BUCKET_PER_STEP
    } else if t < 524288 {
        (t / TTL_BUCKET_INTERVAL_3) as usize + 2 * N_BUCKET_PER_STEP
    } else {
        let i = (t / TTL_BUCKET_INTERVAL_4) as usize + 3 * N_BUCKET_PER_STEP;
        if i < MAX_N_TTL_BUCKET - 1 {
            i
        } else {
            MAX_N_TTL_BUCKET - 1
        }
    }
}

/// Computes the time-to-live of the segments of bucket `i`.
pub fn bucket_ttl(i: usize) -> (r: u32)
    requires
        i < MAX_N_TTL_BUCKET,
    ensures
        r == bucket_ttl_spec(i as int),
{
    let step = i / N_BUCKET_PER_STEP;
    let j = (i % N_BUCKET_PER_STEP) as u32;
    let interval = if step == 0 {
        TTL_BUCKET_INTERVAL_1
    } else if step == 1 {
        TTL_BUCKET_INTERVAL_2
    } else if step == 2 {
        TTL_BUCKET_INTERVAL_3
    } else {
        TTL_BUCKET_INTERVAL_4
    };
    assert(interval * j + 1 <= 32768 * 255 + 1) by (nonlinear_arith)
        requires
            interval <= 32768,
            j <= 255,
    ;
    interval * j + 1
}

/// A bucket: its time-to-live and its chain of segments, oldest first.
pub struct TtlBucket {
    pub ttl: u32,
    pub segs: Vec<u32>,
}

pub struct TtlBuckets {
    pub buckets: Vec<TtlBucket>,
    /// The buckets were read back from a saved image.
    pub buckets_copied_back: bool,
}

impl TtlBuckets {
    /// The buckets of every range, all empty.
    pub fn new() -> (r: TtlBuckets)
        ensures
            r.buckets@.len() == MAX_N_TTL_BUCKET,
            forall|b: int|
                0 <= b < MAX_N_TTL_BUCKET ==> (#[trigger] r.buckets@[b]).segs@.len() == 0
                    && r.buckets@[b].ttl == bucket_ttl_spec(b),
            !r.buckets_copied_back,
    {
        let mut buckets: Vec<TtlBucket> = Vec::with_capacity(MAX_N_TTL_BUCKET);
        let mut i: usize = 0;
        while i < MAX_N_TTL_BUCKET
            invariant
                i <= MAX_N_TTL_BUCKET,
                buckets@.len() == i,
                forall|b: int|
                    0 <= b < i ==> (#[trigger] buckets@[b]).segs@.len() == 0 && buckets@[b].ttl
                        == bucket_ttl_spec(b),
            decreases MAX_N_TTL_BUCKET - i,
        {
            buckets.push(TtlBucket { ttl: bucket_ttl(i), segs: Vec::new() });
            i = i + 1;
        }
        TtlBuckets { buckets, buckets_copied_back: false }
    }
}

} // verus!
