//! The images of a cache's structures: how the hash table, the segments'
//! metadata and the time-to-live buckets are written as words, and read
//! back.
use crate::hashtable::HashTable;
use crate::image::{bytes_to_words, bytes_words, words_bytes, words_to_bytes};
use crate::segments::{Policy, SegmentHeader, Segments};
use crate::ttl_buckets::{TtlBucket, TtlBuckets, MAX_N_TTL_BUCKET};
use vstd::prelude::*;

verus! {

pub open spec fn table_words(power: u8, nbuckets: usize, slots: Seq<u64>) -> Seq<u64> {
    seq![power as u64, nbuckets as u64] + slots
}

pub open spec fn u32s_words(s: Seq<u32>) -> Seq<u64> {
    Seq::new(s.len(), |i: int| s[i] as u64)
}

pub open spec fn headers_words(h: Seq<SegmentHeader>) -> Seq<u64> {
    Seq::new(
        3 * h.len(),
        |i: int|
            if i % 3 == 0 {
                h[i / 3].write_offset as u64
            } else if i % 3 == 1 {
                h[i / 3].create_at as u64
            } else {
                h[i / 3].ttl as u64
            },
    )
}

pub open spec fn segments_words(
    segment_size: u32,
    free_q: Seq<u32>,
    headers: Seq<SegmentHeader>,
) -> Seq<u64> {
    seq![segment_size as u64, headers.len() as u64, free_q.len() as u64] + u32s_words(free_q)
        + headers_words(headers)
}

/// The chains of the buckets, one after the other.
pub open spec fn flat(cs: Seq<Seq<u32>>) -> Seq<u32>
    decreases cs.len(),
{
    if cs.len() == 0 {
        Seq::empty()
    } else {
        flat(cs.drop_last()) + cs.last()
    }
}

pub open spec fn chains_of(t: Seq<TtlBucket>) -> Seq<Seq<u32>> {
    Seq::new(t.len(), |b: int| t[b].segs@)
}

pub open spec fn ttl_words(t: Seq<TtlBucket>) -> Seq<u64> {
    Seq::new(t.len(), |b: int| t[b].ttl as u64) + Seq::new(t.len(), |b: int| t[b].segs@.len() as u64)
        + u32s_words(flat(chains_of(t)))
}

/// The image of a hash table.
pub open spec fn table_image(t: &HashTable) -> Seq<u8> {
    words_bytes(table_words(t.power, t.nbuckets, t.slots@))
}

/// The image of the segments' metadata: segment size, headers and free
/// queue.
pub open spec fn segments_image(s: &Segments) -> Seq<u8> {
    words_bytes(segments_words(s.segment_size, s.free_q@, s.headers@))
}

/// The image of the time-to-live buckets.
pub open spec fn ttl_image(t: &TtlBuckets) -> Seq<u8> {
    words_bytes(ttl_words(t.buckets@))
}

/// Number of entries of the chains before that of bucket `b`.
pub open spec fn flat_start(cs: Seq<Seq<u32>>, b: int) -> int {
    flat(cs.subrange(0, b)).len() as int
}

pub proof fn lemma_flat(cs: Seq<Seq<u32>>)
    ensures
        forall|b: int|
            0 <= b < cs.len() ==> #[trigger] flat_start(cs, b) + cs[b].len() <= flat(cs).len(),
        forall|b: int|
            0 <= b < cs.len() ==> #[trigger] flat(cs).subrange(
                flat_start(cs, b),
                flat_start(cs, b) + cs[b].len(),
            ) == cs[b],
        forall|b: int| 0 <= b < cs.len() ==> #[trigger] flat_start(cs, b + 1) == flat_start(cs, b) + cs[b].len(),
        flat_start(cs, cs.len() as int) == flat(cs).len(),
    decreases cs.len(),
{
    assert(cs.subrange(0, cs.len() as int) =~= cs);
    if cs.len() > 0 {
        let p = cs.drop_last();
        lemma_flat(p);
        assert forall|b: int| 0 <= b < cs.len() implies #[trigger] flat_start(cs, b + 1) == flat_start(
            cs,
            b,
        ) + cs[b].len() by {
            assert(cs.subrange(0, b + 1).drop_last() =~= cs.subrange(0, b));
        }
        assert forall|b: int|
            0 <= b < cs.len() implies #[trigger] flat_start(cs, b) + cs[b].len() <= flat(cs).len()
            && flat(cs).subrange(flat_start(cs, b), flat_start(cs, b) + cs[b].len()) == cs[b] by {
            if b < p.len() {
                assert(cs.subrange(0, b) =~= p.subrange(0, b));
                assert(flat_start(cs, b) == flat_start(p, b));
                assert(cs[b] == p[b]);
                assert(flat(cs) == flat(p) + cs.last());
                assert(flat_start(p, b) + p[b].len() <= flat(p).len());
                assert(flat(cs).subrange(flat_start(cs, b), flat_start(cs, b) + cs[b].len())
                    =~= flat(p).subrange(flat_start(p, b), flat_start(p, b) + p[b].len()));
            } else {
                assert(cs.subrange(0, b) =~= p);
                assert(p.subrange(0, p.len() as int) =~= p);
                assert(flat(cs).subrange(flat_start(cs, b), flat_start(cs, b) + cs[b].len())
                    =~= cs.last());
            }
        }
    }
}


/// Encodes a hash table.
pub fn encode_table(t: &HashTable) -> (r: Vec<u8>)
    ensures
        r@ == table_image(t),
{
    let mut w: Vec<u64> = Vec::new();
    w.push(t.power as u64);
    w.push(t.nbuckets as u64);
    let mut i: usize = 0;
    while i < t.slots.len()
        invariant
            i <= t.slots@.len(),
            w@ == seq![t.power as u64, t.nbuckets as u64] + t.slots@.subrange(0, i as int),
        decreases t.slots@.len() - i,
    {
        w.push(t.slots[i]);
        i = i + 1;
        assert(w@ =~= seq![t.power as u64, t.nbuckets as u64] + t.slots@.subrange(0, i as int));
    }
    assert(t.slots@.subrange(0, t.slots@.len() as int) =~= t.slots@);
    words_to_bytes(&w)
}

/// Decodes a hash table image.
pub fn decode_table(bytes: &Vec<u8>) -> (r: Option<HashTable>)
    ensures
        r matches Some(t) ==> table_image(&t) == bytes@ && t.table_copied_back,
        forall|p: u8, nb: usize, sl: Seq<u64>|
            bytes@ == words_bytes(#[trigger] table_words(p, nb, sl)) ==> (r matches Some(t) && t.power
                == p && t.nbuckets == nb && t.slots@ == sl),
{
    let w = match bytes_to_words(bytes) {
        Some(w) => w,
        None => {
            proof {
                assert forall|p: u8, nb: usize, sl: Seq<u64>|
                    bytes@ == words_bytes(#[trigger] table_words(p, nb, sl)) implies false by {
                    crate::image::lemma_words_bytes(table_words(p, nb, sl));
                }
            }
            return None;
        },
    };
    proof {
        assert forall|p: u8, nb: usize, sl: Seq<u64>|
            bytes@ == words_bytes(#[trigger] table_words(p, nb, sl)) implies w@ == table_words(p, nb, sl) by {
            crate::image::lemma_bytes_words_roundtrip(table_words(p, nb, sl));
        }
    }
    if w.len() < 2 || w[0] > 255 || w[1] > usize::MAX as u64 {
        return None;
    }
    let mut slots: Vec<u64> = Vec::new();
    let mut i: usize = 2;
    while i < w.len()
        invariant
            2 <= i <= w@.len(),
            slots@ == w@.subrange(2, i as int),
        decreases w@.len() - i,
    {
        slots.push(w[i]);
        i = i + 1;
        assert(slots@ =~= w@.subrange(2, i as int));
    }
    let t = HashTable { power: w[0] as u8, nbuckets: w[1] as usize, slots, table_copied_back: true };
    proof {
        assert(table_words(t.power, t.nbuckets, t.slots@) =~= w@);
        assert forall|p: u8, nb: usize, sl: Seq<u64>|
            bytes@ == words_bytes(#[trigger] table_words(p, nb, sl)) implies t.power == p && t.nbuckets
            == nb && t.slots@ == sl by {
            assert(w@[0] == p as u64);
            assert(w@[1] == nb as u64);
            assert(sl =~= w@.subrange(2, w@.len() as int));
        }
    }
    Some(t)
}


/// Encodes the segments' metadata.
pub fn encode_segments(s: &Segments) -> (r: Vec<u8>)
    ensures
        r@ == segments_image(s),
{
    let mut w: Vec<u64> = Vec::new();
    w.push(s.segment_size as u64);
    w.push(s.headers.len() as u64);
    w.push(s.free_q.len() as u64);
    let ghost pre = seq![s.segment_size as u64, s.headers@.len() as u64, s.free_q@.len() as u64];
    let mut i: usize = 0;
    while i < s.free_q.len()
        invariant
            i <= s.free_q@.len(),
            w@ == pre + u32s_words(s.free_q@.subrange(0, i as int)),
        decreases s.free_q@.len() - i,
    {
        w.push(s.free_q[i] as u64);
        i = i + 1;
        assert(w@ =~= pre + u32s_words(s.free_q@.subrange(0, i as int)));
    }
    assert(s.free_q@.subrange(0, s.free_q@.len() as int) =~= s.free_q@);
    let ghost pre2 = w@;
    let mut j: usize = 0;
    while j < s.headers.len()
        invariant
            j <= s.headers@.len(),
            w@ == pre2 + headers_words(s.headers@.subrange(0, j as int)),
        decreases s.headers@.len() - j,
    {
        let h = s.headers[j];
        w.push(h.write_offset as u64);
        w.push(h.create_at as u64);
        w.push(h.ttl as u64);
        j = j + 1;
        assert(w@ =~= pre2 + headers_words(s.headers@.subrange(0, j as int)));
    }
    assert(s.headers@.subrange(0, s.headers@.len() as int) =~= s.headers@);
    assert(w@ =~= segments_words(s.segment_size, s.free_q@, s.headers@));
    words_to_bytes(&w)
}

/// The words are those of some segments' metadata: their counts agree
/// with their length and every value fits in 32 bits.
pub open spec fn segments_words_ok(w: Seq<u64>) -> bool {
    &&& w.len() >= 3
    &&& w[0] <= u32::MAX
    &&& 3 + w[2] + 3 * w[1] == w.len()
    &&& forall|k: int| 3 <= k < w.len() ==> #[trigger] w[k] <= u32::MAX
}

pub proof fn lemma_segments_words(ss: u32, fq: Seq<u32>, hs: Seq<SegmentHeader>)
    requires
        fq.len() <= u64::MAX,
        hs.len() <= u64::MAX,
    ensures
        segments_words_ok(segments_words(ss, fq, hs)),
{
    let w = segments_words(ss, fq, hs);
    assert forall|k: int| 3 <= k < w.len() implies #[trigger] w[k] <= u32::MAX by {
        if k < 3 + fq.len() {
            assert(w[k] == u32s_words(fq)[k - 3]);
        } else {
            assert(w[k] == headers_words(hs)[k - 3 - fq.len()]);
        }
    }
}

/// The metadata of segments is determined by its words.
pub proof fn lemma_segments_words_inj(
    ss1: u32,
    fq1: Seq<u32>,
    hs1: Seq<SegmentHeader>,
    ss2: u32,
    fq2: Seq<u32>,
    hs2: Seq<SegmentHeader>,
)
    requires
        segments_words(ss1, fq1, hs1) == segments_words(ss2, fq2, hs2),
        fq1.len() <= u64::MAX,
        hs1.len() <= u64::MAX,
        fq2.len() <= u64::MAX,
        hs2.len() <= u64::MAX,
    ensures
        ss1 == ss2,
        fq1 == fq2,
        hs1 == hs2,
{
    let w = segments_words(ss1, fq1, hs1);
    assert(w[0] == ss1 as u64 && w[0] == ss2 as u64);
    assert(w[1] == hs1.len() && w[1] == hs2.len());
    assert(w[2] == fq1.len() && w[2] == fq2.len());
    assert forall|k: int| 0 <= k < fq1.len() implies fq1[k] == fq2[k] by {
        assert(w[3 + k] == fq1[k] as u64);
        assert(w[3 + k] == fq2[k] as u64);
    }
    assert(fq1 =~= fq2);
    let base = 3 + fq1.len();
    assert forall|k: int| 0 <= k < hs1.len() implies hs1[k] == hs2[k] by {
        assert(w[base + 3 * k] == headers_words(hs1)[3 * k]);
        assert(w[base + 3 * k] == headers_words(hs2)[3 * k]);
        assert(w[base + 3 * k + 1] == headers_words(hs1)[3 * k + 1]);
        assert(w[base + 3 * k + 1] == headers_words(hs2)[3 * k + 1]);
        assert(w[base + 3 * k + 2] == headers_words(hs1)[3 * k + 2]);
        assert(w[base + 3 * k + 2] == headers_words(hs2)[3 * k + 2]);
    }
    assert(hs1 =~= hs2);
}

/// Decodes an image of the segments' metadata, with the data pool `data`.
pub fn decode_segments(
    bytes: &Vec<u8>,
    data: Vec<u8>,
    evict_policy: Policy,
    datapool_path: Option<String>,
) -> (r: Option<Segments>)
    ensures
        r is Some <==> bytes@.len() % 8 == 0 && segments_words_ok(bytes_words(bytes@)),
        r matches Some(s) ==> segments_image(&s) == bytes@ && s.data@ == data@ && s.evict_policy
            == evict_policy && s.datapool_path == datapool_path && s.fields_copied_back,
{
    let w = match bytes_to_words(bytes) {
        Some(w) => w,
        None => return None,
    };
    let wl = w.len();
    if wl < 3 || w[0] > u32::MAX as u64 {
        return None;
    }
    let n = w[1];
    let fl = w[2];
    if 3 + fl as u128 + 3 * (n as u128) != wl as u128 {
        return None;
    }
    let fl = fl as usize;
    let n = n as usize;
    let mut free_q: Vec<u32> = Vec::new();
    let mut i: usize = 0;
    while i < fl
        invariant
            w@ == bytes_words(bytes@),
            wl == w@.len(),
            3 + fl + 3 * n == wl,
            w@[0] <= u32::MAX,
            w@[1] == n,
            w@[2] == fl,
            i <= fl,
            free_q@.len() == i,
            u32s_words(free_q@) == w@.subrange(3, 3 + i),
            forall|k: int| 3 <= k < 3 + i ==> #[trigger] w@[k] <= u32::MAX,
        decreases fl - i,
    {
        let x = w[3 + i];
        if x > u32::MAX as u64 {
            assert(bytes_words(bytes@)[3 + i] == x);
            return None;
        }
        let ghost old_free = free_q@;
        free_q.push(x as u32);
        i = i + 1;
        proof {
            assert forall|k: int| 0 <= k < i implies #[trigger] u32s_words(free_q@)[k] == w@.subrange(3, 3 + i)[k] by {
                if k < i - 1 {
                    assert(free_q@[k] == old_free[k]);
                    assert(u32s_words(old_free)[k] == w@.subrange(3, 3 + i - 1)[k]);
                }
            }
            assert(u32s_words(free_q@) =~= w@.subrange(3, 3 + i));
        }
    }
    let mut headers: Vec<SegmentHeader> = Vec::new();
    let mut j: usize = 0;
    let base = 3 + fl;
    while j < n
        invariant
            w@ == bytes_words(bytes@),
            wl == w@.len(),
            base == 3 + fl,
            base + 3 * n == wl,
            w@[0] <= u32::MAX,
            w@[1] == n,
            w@[2] == fl,
            j <= n,
            headers@.len() == j,
            headers_words(headers@) == w@.subrange(base as int, base + 3 * j),
            forall|k: int| 3 <= k < base + 3 * j ==> #[trigger] w@[k] <= u32::MAX,
        decreases n - j,
    {
        let a = w[base + 3 * j];
        let c = w[base + 3 * j + 1];
        let t = w[base + 3 * j + 2];
        if a > u32::MAX as u64 || c > u32::MAX as u64 || t > u32::MAX as u64 {
            assert(bytes_words(bytes@)[base + 3 * j] == a);
            assert(bytes_words(bytes@)[base + 3 * j + 1] == c);
            assert(bytes_words(bytes@)[base + 3 * j + 2] == t);
            return None;
        }
        headers.push(SegmentHeader { write_offset: a as u32, create_at: c as u32, ttl: t as u32 });
        j = j + 1;
        assert(headers_words(headers@) =~= w@.subrange(base as int, base + 3 * j));
    }
    let s = Segments {
        headers,
        data,
        segment_size: w[0] as u32,
        free_q,
        evict_policy,
        datapool_path,
        fields_copied_back: true,
    };
    assert(segments_words(s.segment_size, s.free_q@, s.headers@) =~= w@);
    Some(s)
}


/// Encodes the time-to-live buckets.
pub fn encode_ttl(t: &TtlBuckets) -> (r: Vec<u8>)
    ensures
        r@ == ttl_image(t),
{
    let nb = t.buckets.len();
    let mut w: Vec<u64> = Vec::new();
    let mut b: usize = 0;
    while b < nb
        invariant
            nb == t.buckets@.len(),
            b <= nb,
            w@ == Seq::new(b as nat, |k: int| t.buckets@[k].ttl as u64),
        decreases nb - b,
    {
        w.push(t.buckets[b].ttl as u64);
        b = b + 1;
        assert(w@ =~= Seq::new(b as nat, |k: int| t.buckets@[k].ttl as u64));
    }
    let ghost w1 = w@;
    let mut b: usize = 0;
    while b < nb
        invariant
            nb == t.buckets@.len(),
            b <= nb,
            w@ == w1 + Seq::new(b as nat, |k: int| t.buckets@[k].segs@.len() as u64),
        decreases nb - b,
    {
        w.push(t.buckets[b].segs.len() as u64);
        b = b + 1;
        assert(w@ =~= w1 + Seq::new(b as nat, |k: int| t.buckets@[k].segs@.len() as u64));
    }
    let ghost w2 = w@;
    let ghost cs = chains_of(t.buckets@);
    let mut b: usize = 0;
    while b < nb
        invariant
            nb == t.buckets@.len(),
            cs == chains_of(t.buckets@),
            b <= nb,
            w@ == w2 + u32s_words(flat(cs.subrange(0, b as int))),
        decreases nb - b,
    {
        let ghost wb = w@;
        let len = t.buckets[b].segs.len();
        let mut p: usize = 0;
        while p < len
            invariant
                nb == t.buckets@.len(),
                b < nb,
                len == t.buckets@[b as int].segs@.len(),
                p <= len,
                w@ == wb + u32s_words(t.buckets@[b as int].segs@.subrange(0, p as int)),
            decreases len - p,
        {
            w.push(t.buckets[b].segs[p] as u64);
            p = p + 1;
            assert(w@ =~= wb + u32s_words(t.buckets@[b as int].segs@.subrange(0, p as int)));
        }
        proof {
            assert(t.buckets@[b as int].segs@.subrange(0, len as int) =~= t.buckets@[b as int].segs@);
            assert(cs.subrange(0, b + 1).drop_last() =~= cs.subrange(0, b as int));
            assert(cs.subrange(0, b + 1).last() == cs[b as int]);
            assert(u32s_words(flat(cs.subrange(0, b + 1))) =~= u32s_words(flat(cs.subrange(0, b as int)))
                + u32s_words(cs[b as int]));
        }
        b = b + 1;
    }
    proof {
        assert(cs.subrange(0, nb as int) =~= cs);
        assert(w@ =~= ttl_words(t.buckets@));
    }
    words_to_bytes(&w)
}

/// Sum of the chain lengths recorded for the first `b` buckets.
pub open spec fn lens_sum(w: Seq<u64>, b: int) -> int
    decreases b,
{
    if b <= 0 {
        0
    } else {
        lens_sum(w, b - 1) + w[MAX_N_TTL_BUCKET + b - 1]
    }
}

pub proof fn lemma_lens_sum_mono(w: Seq<u64>, a: int, b: int)
    requires
        0 <= a <= b,
    ensures
        lens_sum(w, a) <= lens_sum(w, b),
    decreases b - a,
{
    if a < b {
        lemma_lens_sum_mono(w, a, b - 1);
    }
}

/// The words are those of time-to-live buckets: their recorded chain
/// lengths agree with their length and every value fits in 32 bits.
pub open spec fn ttl_words_ok(w: Seq<u64>) -> bool {
    &&& w.len() >= 2 * MAX_N_TTL_BUCKET
    &&& forall|k: int| 0 <= k < MAX_N_TTL_BUCKET ==> #[trigger] w[k] <= u32::MAX
    &&& 2 * MAX_N_TTL_BUCKET + lens_sum(w, MAX_N_TTL_BUCKET as int) == w.len()
    &&& forall|k: int| 2 * MAX_N_TTL_BUCKET <= k < w.len() ==> #[trigger] w[k] <= u32::MAX
}

/// Decodes an image of the time-to-live buckets.
pub fn decode_ttl(bytes: &Vec<u8>) -> (r: Option<TtlBuckets>)
    ensures
        r is Some <==> bytes@.len() % 8 == 0 && ttl_words_ok(bytes_words(bytes@)),
        r matches Some(t) ==> ttl_image(&t) == bytes@ && t.buckets@.len() == MAX_N_TTL_BUCKET
            && t.buckets_copied_back,
{
    let w = match bytes_to_words(bytes) {
        Some(w) => w,
        None => return None,
    };
    let wl = w.len();
    if wl < 2 * MAX_N_TTL_BUCKET {
        return None;
    }
    let mut k: usize = 0;
    while k < MAX_N_TTL_BUCKET
        invariant
            w@ == bytes_words(bytes@),
            wl == w@.len(),
            wl >= 2 * MAX_N_TTL_BUCKET,
            k <= MAX_N_TTL_BUCKET,
            forall|kk: int| 0 <= kk < k ==> #[trigger] w@[kk] <= u32::MAX,
        decreases MAX_N_TTL_BUCKET - k,
    {
        if w[k] > u32::MAX as u64 {
            return None;
        }
        k = k + 1;
    }
    let mut buckets: Vec<TtlBucket> = Vec::new();
    let mut pos: usize = 2 * MAX_N_TTL_BUCKET;
    let mut b: usize = 0;
    while b < MAX_N_TTL_BUCKET
        invariant
            w@ == bytes_words(bytes@),
            wl == w@.len(),
            wl >= 2 * MAX_N_TTL_BUCKET,
            forall|kk: int| 0 <= kk < MAX_N_TTL_BUCKET ==> #[trigger] w@[kk] <= u32::MAX,
            b <= MAX_N_TTL_BUCKET,
            buckets@.len() == b,
            pos == 2 * MAX_N_TTL_BUCKET + lens_sum(w@, b as int),
            pos >= 2 * MAX_N_TTL_BUCKET,
            pos <= wl,
            forall|kk: int| 0 <= kk < b ==> #[trigger] buckets@[kk].ttl == w@[kk],
            forall|kk: int| 0 <= kk < b ==> #[trigger] buckets@[kk].segs@.len() == w@[MAX_N_TTL_BUCKET + kk],
            u32s_words(flat(chains_of(buckets@))) == w@.subrange(2 * MAX_N_TTL_BUCKET, pos as int),
            forall|kk: int| 2 * MAX_N_TTL_BUCKET <= kk < pos ==> #[trigger] w@[kk] <= u32::MAX,
        decreases MAX_N_TTL_BUCKET - b,
    {
        let l = w[MAX_N_TTL_BUCKET + b];
        if l > (wl - pos) as u64 {
            proof {
                lemma_lens_sum_mono(w@, b + 1, MAX_N_TTL_BUCKET as int);
                assert(lens_sum(w@, b + 1) == lens_sum(w@, b as int) + w@[MAX_N_TTL_BUCKET + b]);
            }
            return None;
        }
        let l = l as usize;
        let mut segs: Vec<u32> = Vec::new();
        let mut p: usize = 0;
        while p < l
            invariant
                w@ == bytes_words(bytes@),
                wl == w@.len(),
                pos >= 2 * MAX_N_TTL_BUCKET,
                pos + l <= wl,
                p <= l,
                segs@.len() == p,
                u32s_words(segs@) == w@.subrange(pos as int, pos + p),
                forall|kk: int| 2 * MAX_N_TTL_BUCKET <= kk < pos + p ==> #[trigger] w@[kk] <= u32::MAX,
            decreases l - p,
        {
            let x = w[pos + p];
            if x > u32::MAX as u64 {
                assert(bytes_words(bytes@)[pos + p] == x);
                return None;
            }
            let ghost old_segs = segs@;
            segs.push(x as u32);
            p = p + 1;
            proof {
                assert forall|kk: int| 0 <= kk < p implies #[trigger] u32s_words(segs@)[kk]
                    == w@.subrange(pos as int, pos + p)[kk] by {
                    if kk < p - 1 {
                        assert(segs@[kk] == old_segs[kk]);
                        assert(u32s_words(old_segs)[kk] == w@.subrange(pos as int, pos + p - 1)[kk]);
                    }
                }
                assert(u32s_words(segs@) =~= w@.subrange(pos as int, pos + p));
            }
        }
        let ghost before = buckets@;
        let ghost segs_v = segs@;
        buckets.push(TtlBucket { ttl: w[b] as u32, segs });
        proof {
            let cs = chains_of(buckets@);
            assert(cs.drop_last() =~= chains_of(before));
            assert(cs.last() == segs_v);
            assert(flat(cs) == flat(chains_of(before)) + segs_v);
            assert(u32s_words(flat(cs)) =~= u32s_words(flat(chains_of(before))) + u32s_words(segs_v));
            assert(w@.subrange(2 * MAX_N_TTL_BUCKET, pos as int) + w@.subrange(pos as int, pos + l)
                =~= w@.subrange(2 * MAX_N_TTL_BUCKET, pos + l));
            assert(lens_sum(w@, b + 1) == lens_sum(w@, b as int) + w@[MAX_N_TTL_BUCKET + b]);
            assert(u32s_words(flat(cs)) =~= w@.subrange(2 * MAX_N_TTL_BUCKET, pos + l));
        }
        pos = pos + l;
        b = b + 1;
    }
    if pos != wl {
        return None;
    }
    let t = TtlBuckets { buckets, buckets_copied_back: true };
    proof {
        assert(ttl_words(t.buckets@) =~= w@);
    }
    Some(t)
}


pub proof fn lemma_flat_start_zero(cs: Seq<Seq<u32>>)
    ensures
        flat_start(cs, 0) == 0,
{
    assert(cs.subrange(0, 0) =~= Seq::<Seq<u32>>::empty());
}

/// The recorded lengths of the words of buckets add up to where each
/// bucket's chain starts.
pub proof fn lemma_ttl_lens_sum(bs: Seq<TtlBucket>, b: int)
    requires
        bs.len() == MAX_N_TTL_BUCKET,
        0 <= b <= MAX_N_TTL_BUCKET,
        forall|k: int| 0 <= k < bs.len() ==> #[trigger] bs[k].segs@.len() <= u64::MAX,
    ensures
        lens_sum(ttl_words(bs), b) == flat_start(chains_of(bs), b),
    decreases b,
{
    let cs = chains_of(bs);
    lemma_flat(cs);
    if b == 0 {
        lemma_flat_start_zero(cs);
    } else {
        lemma_ttl_lens_sum(bs, b - 1);
        let w = ttl_words(bs);
        assert(w[MAX_N_TTL_BUCKET + b - 1] == bs[b - 1].segs@.len());
        let k = b - 1;
        assert(flat_start(cs, k + 1) == flat_start(cs, k) + cs[k].len());
        assert(k + 1 == b);
        assert(cs[k].len() == bs[k].segs@.len());
    }
}

/// The words of buckets are well formed.
pub proof fn lemma_ttl_words(bs: Seq<TtlBucket>)
    requires
        bs.len() == MAX_N_TTL_BUCKET,
        forall|k: int| 0 <= k < bs.len() ==> #[trigger] bs[k].segs@.len() <= u64::MAX,
    ensures
        ttl_words_ok(ttl_words(bs)),
{
    let w = ttl_words(bs);
    let cs = chains_of(bs);
    lemma_flat(cs);
    lemma_ttl_lens_sum(bs, MAX_N_TTL_BUCKET as int);
    assert forall|k: int| 0 <= k < MAX_N_TTL_BUCKET implies #[trigger] w[k] <= u32::MAX by {
        assert(w[k] == bs[k].ttl as u64);
    }
    assert forall|k: int| 2 * MAX_N_TTL_BUCKET <= k < w.len() implies #[trigger] w[k] <= u32::MAX by {
        assert(w[k] == u32s_words(flat(cs))[k - 2 * MAX_N_TTL_BUCKET]);
    }
}

/// Buckets are determined by their words.
pub proof fn lemma_ttl_words_inj(bs1: Seq<TtlBucket>, bs2: Seq<TtlBucket>)
    requires
        bs1.len() == MAX_N_TTL_BUCKET,
        bs2.len() == MAX_N_TTL_BUCKET,
        forall|k: int| 0 <= k < bs1.len() ==> #[trigger] bs1[k].segs@.len() <= u64::MAX,
        forall|k: int| 0 <= k < bs2.len() ==> #[trigger] bs2[k].segs@.len() <= u64::MAX,
        ttl_words(bs1) == ttl_words(bs2),
    ensures
        forall|b: int|
            0 <= b < MAX_N_TTL_BUCKET ==> #[trigger] bs1[b].ttl == bs2[b].ttl && bs1[b].segs@
                == bs2[b].segs@,
{
    let w = ttl_words(bs1);
    let c1 = chains_of(bs1);
    let c2 = chains_of(bs2);
    lemma_flat(c1);
    lemma_flat(c2);
    lemma_ttl_lens_sum(bs1, MAX_N_TTL_BUCKET as int);
    lemma_ttl_lens_sum(bs2, MAX_N_TTL_BUCKET as int);
    let f1 = flat(c1);
    let f2 = flat(c2);
    assert(f1.len() == f2.len());
    assert forall|k: int| 0 <= k < f1.len() implies f1[k] == f2[k] by {
        assert(w[2 * MAX_N_TTL_BUCKET + k] == u32s_words(f1)[k]);
        assert(w[2 * MAX_N_TTL_BUCKET + k] == u32s_words(f2)[k]);
    }
    assert(f1 =~= f2);
    assert forall|b: int| 0 <= b < MAX_N_TTL_BUCKET implies #[trigger] bs1[b].ttl == bs2[b].ttl
        && bs1[b].segs@ == bs2[b].segs@ by {
        assert(w[b] == bs1[b].ttl as u64 && w[b] == bs2[b].ttl as u64);
        lemma_ttl_lens_sum(bs1, b);
        lemma_ttl_lens_sum(bs2, b);
        lemma_ttl_lens_sum_eq(bs1, bs2, b);
        assert(w[MAX_N_TTL_BUCKET + b] == bs1[b].segs@.len());
        assert(w[MAX_N_TTL_BUCKET + b] == bs2[b].segs@.len());
        assert(c1[b] == f1.subrange(flat_start(c1, b), flat_start(c1, b) + c1[b].len()));
        assert(c2[b] == f2.subrange(flat_start(c2, b), flat_start(c2, b) + c2[b].len()));
    }
}

pub proof fn lemma_ttl_lens_sum_eq(bs1: Seq<TtlBucket>, bs2: Seq<TtlBucket>, b: int)
    requires
        ttl_words(bs1) == ttl_words(bs2),
    ensures
        lens_sum(ttl_words(bs1), b) == lens_sum(ttl_words(bs2), b),
{
}

} // verus!
