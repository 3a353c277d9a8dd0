//! Checking, at run time, that the structures of a cache are consistent:
//! used to accept restored images and to check the integrity of a cache.
use crate::hashtable::{
    get_offset, get_seg, get_tag, hash, hash_spec, info_offset, info_seg, info_tag,
    lemma_info_bounds, lemma_two_pow_28, lemma_two_pow_le, lemma_two_pow_pos, tag, tag_of,
    two_pow,
};
use crate::item::{item_fits, item_key, item_len, read_bytes};
use crate::seg::Seg;
use crate::structure::{cas_slots_ok, chains_ok, chains_timed, lemma_addr, segments_ok};
use crate::segments::{SegmentHeader, MAX_SEGMENTS, MAX_SEGMENT_SIZE};
use crate::ttl_buckets::{bucket_ttl, bucket_ttl_spec, TtlBuckets, MAX_N_TTL_BUCKET};
use vstd::prelude::*;

verus! {

/// `marks[t]` is 1 for the segments of the free queue and 0 for the others.
pub open spec fn free_marks(marks: Seq<u8>, free_q: Seq<u32>, n: int) -> bool {
    &&& marks.len() == n
    &&& forall|t: int| 0 <= t < n ==> (#[trigger] marks[t] == 1 <==> free_q.contains(t as u32))
    &&& forall|t: int| 0 <= t < n ==> #[trigger] marks[t] <= 1
}

/// `marks[t]` is 2 for the segments in a chain, 1 for the free ones, 0 for
/// the others.
pub open spec fn chain_marks(s: &Seg, marks: Seq<u8>) -> bool {
    &&& marks.len() == s.nsegs()
    &&& forall|t: int| 0 <= t < s.nsegs() ==> (#[trigger] marks[t] == 2 <==> s.in_chain(t))
}

impl Seg {
    /// Checks the shape of the hash table.
    fn check_shape(&self) -> (r: bool)
        ensures
            r == self.hashtable.shaped(),
    {
        let power = self.hashtable.power;
        if power < 3 || power > 31 {
            return false;
        }
        let mut nb: usize = 1;
        let mut k: u8 = 3;
        while k < power
            invariant
                3 <= k <= power <= 31,
                nb == two_pow((k - 3) as nat),
            decreases power - k,
        {
            proof {
                lemma_two_pow_le((k - 3) as nat, 27);
                lemma_two_pow_28();
            }
            assert(two_pow((k + 1 - 3) as nat) == 2 * two_pow((k - 3) as nat));
            nb = nb * 2;
            k = k + 1;
        }
        proof {
            lemma_two_pow_le((k - 3) as nat, 28);
            lemma_two_pow_28();
            lemma_two_pow_pos((k - 3) as nat);
        }
        nb == self.hashtable.nbuckets && self.hashtable.slots.len() == nb * 8
    }

    /// Checks that every bucket's first slot fits in 48 bits.
    fn check_cas(&self) -> (r: bool)
        requires
            self.hashtable.shaped(),
        ensures
            r == cas_slots_ok(self.slots(), self.nbuckets()),
    {
        let nb = self.hashtable.nbuckets;
        let slen = self.hashtable.slots.len();
        let mut b: usize = 0;
        while b < nb
            invariant
                slen == self.slots().len(),
                self.hashtable.shaped(),
                nb == self.nbuckets(),
                b <= nb,
                forall|bb: int| 0 <= bb < b ==> #[trigger] self.slots()[bb * 8] < 0x1_0000_0000_0000,
            decreases nb - b,
        {
            if self.hashtable.slots[b * 8] >= 0x1_0000_0000_0000 {
                return false;
            }
            b = b + 1;
        }
        true
    }

    /// Checks the shape of the segments and of the free queue; when it is
    /// right, returns the marks of the free segments.
    fn check_segments(&self) -> (r: Option<Vec<u8>>)
        ensures
            r is Some <==> segments_ok(self.segments),
            r matches Some(m) ==> free_marks(m@, self.free_q(), self.nsegs()),
    {
        let ss = self.segments.segment_size;
        let n = self.segments.headers.len();
        if ss < 1 || ss > MAX_SEGMENT_SIZE || n < 1 || n > MAX_SEGMENTS {
            return None;
        }
        assert((n as u64) * (ss as u64) <= 0x1_0000_0000_0000) by (nonlinear_arith)
            requires
                n <= MAX_SEGMENTS,
                ss <= MAX_SEGMENT_SIZE,
        ;
        if self.segments.data.len() as u64 != (n as u64) * (ss as u64) {
            return None;
        }
        let mut s: usize = 0;
        while s < n
            invariant
                n == self.nsegs(),
                ss == self.seg_size(),
                s <= n,
                forall|t: int|
                    0 <= t < s ==> #[trigger] self.segments.headers@[t].write_offset <= ss
                        && self.segments.headers@[t].write_offset % 8 == 0,
            decreases n - s,
        {
            let wo = self.segments.headers[s].write_offset;
            if wo > ss || wo % 8 != 0 {
                return None;
            }
            s = s + 1;
        }
        let mut marks: Vec<u8> = vec![0u8; n];
        let fl = self.segments.free_q.len();
        let mut j: usize = 0;
        while j < fl
            invariant
                n == self.nsegs(),
                fl == self.free_q().len(),
                j <= fl,
                marks@.len() == n,
                forall|i: int| 0 <= i < j ==> #[trigger] self.free_q()[i] < n,
                forall|i1: int, i2: int|
                    0 <= i1 < j && 0 <= i2 < j && i1 != i2 ==> self.free_q()[i1] != self.free_q()[i2],
                forall|t: int|
                    0 <= t < n ==> (#[trigger] marks@[t] == 1 <==> exists|i: int|
                        0 <= i < j && self.free_q()[i] == t),
                forall|t: int| 0 <= t < n ==> #[trigger] marks@[t] <= 1,
            decreases fl - j,
        {
            let t = self.segments.free_q[j];
            if t as usize >= n {
                return None;
            }
            if marks[t as usize] != 0 {
                proof {
                    let i = choose|i: int| 0 <= i < j && self.free_q()[i] == t;
                    assert(self.free_q()[i] == self.free_q()[j as int]);
                }
                return None;
            }
            marks.set(t as usize, 1);
            j = j + 1;
        }
        proof {
            assert forall|t: int| 0 <= t < n implies (#[trigger] marks@[t] == 1
                <==> self.free_q().contains(t as u32)) by {
                if self.free_q().contains(t as u32) {
                    let i = choose|i: int| 0 <= i < fl && self.free_q()[i] == t as u32;
                    assert(0 <= i < j && self.free_q()[i] == t);
                }
            }
        }
        Some(marks)
    }
}


/// Position `q` of bucket `bb`'s chain comes before position `p` of bucket
/// `b`'s chain.
pub open spec fn before(s: &Seg, b: int, p: int, bb: int, q: int) -> bool {
    &&& 0 <= bb < MAX_N_TTL_BUCKET
    &&& 0 <= q < s.chain(bb).len()
    &&& (bb < b || (bb == b && q < p))
}

/// Bucket `bb` has the time-to-live of its range, and its chain holds
/// segments with that time-to-live, created in the order of the chain.
pub open spec fn bucket_timed(h: Seq<SegmentHeader>, t: TtlBuckets, bb: int) -> bool {
    let segs = t.buckets@[bb].segs@;
    &&& t.buckets@[bb].ttl == bucket_ttl_spec(bb)
    &&& forall|p: int| 0 <= p < segs.len() ==> #[trigger] h[segs[p] as int].ttl == t.buckets@[bb].ttl
    &&& forall|p: int, q: int|
        0 <= p < q < segs.len() ==> #[trigger] h[segs[p] as int].create_at <= #[trigger] h[segs[q] as int].create_at
}

impl Seg {
    /// Checks that every chain is timed as its bucket requires.
    fn check_timed(&self) -> (r: bool)
        requires
            chains_ok(self.nsegs(), self.free_q(), self.ttl_buckets),
        ensures
            r == chains_timed(self.segments.headers@, self.ttl_buckets),
    {
        let ghost h = self.segments.headers@;
        let ghost t = self.ttl_buckets;
        let mut b: usize = 0;
        while b < MAX_N_TTL_BUCKET
            invariant
                h == self.segments.headers@,
                t == self.ttl_buckets,
                chains_ok(self.nsegs(), self.free_q(), self.ttl_buckets),
                b <= MAX_N_TTL_BUCKET,
                forall|bb: int| 0 <= bb < b ==> #[trigger] bucket_timed(h, t, bb),
            decreases MAX_N_TTL_BUCKET - b,
        {
            let ttl = self.ttl_buckets.buckets[b].ttl;
            if ttl != bucket_ttl(b) {
                return false;
            }
            let len = self.ttl_buckets.buckets[b].segs.len();
            let mut p: usize = 0;
            let mut last_at: u32 = 0;
            while p < len
                invariant
                    h == self.segments.headers@,
                    t == self.ttl_buckets,
                    chains_ok(self.nsegs(), self.free_q(), self.ttl_buckets),
                    b < MAX_N_TTL_BUCKET,
                    ttl == t.buckets@[b as int].ttl,
                    len == t.buckets@[b as int].segs@.len(),
                    p <= len,
                    p > 0 ==> last_at == h[t.buckets@[b as int].segs@[p - 1] as int].create_at,
                    forall|q: int|
                        0 <= q < p ==> #[trigger] h[t.buckets@[b as int].segs@[q] as int].ttl == ttl
                            && h[t.buckets@[b as int].segs@[q] as int].create_at <= last_at,
                    forall|q1: int, q2: int|
                        0 <= q1 < q2 < p ==> #[trigger] h[t.buckets@[b as int].segs@[q1] as int].create_at
                            <= #[trigger] h[t.buckets@[b as int].segs@[q2] as int].create_at,
                decreases len - p,
            {
                let s = self.ttl_buckets.buckets[b].segs[p];
                proof {
                    assert(t.buckets@[b as int].segs@[p as int] == s);
                    assert(s < self.nsegs());
                }
                let hd = self.segments.headers[s as usize];
                if hd.ttl != ttl {
                    proof {
                        assert(h[t.buckets@[b as int].segs@[p as int] as int].ttl != t.buckets@[b as int].ttl);
                    }
                    return false;
                }
                if p > 0 && hd.create_at < last_at {
                    proof {
                        let q = p - 1;
                        assert(h[t.buckets@[b as int].segs@[q as int] as int].create_at > h[t.buckets@[b as int].segs@[p as int] as int].create_at);
                    }
                    return false;
                }
                last_at = hd.create_at;
                p = p + 1;
            }
            proof {
                assert(bucket_timed(h, t, b as int));
            }
            b = b + 1;
        }
        proof {
            assert forall|bb: int, p: int|
                0 <= bb < MAX_N_TTL_BUCKET && 0 <= p < t.buckets@[bb].segs@.len() implies #[trigger] h[t.buckets@[bb].segs@[p] as int].ttl
                == t.buckets@[bb].ttl by {
                assert(bucket_timed(h, t, bb));
            }
            assert forall|bb: int, p: int, q: int|
                0 <= bb < MAX_N_TTL_BUCKET && 0 <= p < q < t.buckets@[bb].segs@.len() implies #[trigger] h[t.buckets@[bb].segs@[p] as int].create_at
                <= #[trigger] h[t.buckets@[bb].segs@[q] as int].create_at by {
                assert(bucket_timed(h, t, bb));
            }
            assert forall|bb: int| 0 <= bb < MAX_N_TTL_BUCKET implies #[trigger] t.buckets@[bb].ttl
                == bucket_ttl_spec(bb) by {
                assert(bucket_timed(h, t, bb));
            }
        }
        true
    }

    /// Checks how the chains share the segments with the free queue; when
    /// it is right, returns the marks of the segments in chains.
    fn check_chains(&self, marks: Vec<u8>) -> (r: Option<Vec<u8>>)
        requires
            segments_ok(self.segments),
            free_marks(marks@, self.free_q(), self.nsegs()),
        ensures
            r is Some <==> chains_ok(self.nsegs(), self.free_q(), self.ttl_buckets),
            r matches Some(m) ==> chain_marks(self, m@),
            r matches Some(m) ==> forall|t: int|
                0 <= t < self.nsegs() ==> (#[trigger] m@[t] == 1 <==> self.free_q().contains(
                    t as u32,
                )),
    {
        if self.ttl_buckets.buckets.len() != MAX_N_TTL_BUCKET {
            return None;
        }
        let n = self.segments.headers.len();
        let mut marks = marks;
        let mut b: usize = 0;
        while b < MAX_N_TTL_BUCKET
            invariant
                self.ttl_buckets.buckets@.len() == MAX_N_TTL_BUCKET,
                n == self.nsegs(),
                b <= MAX_N_TTL_BUCKET,
                marks@.len() == n,
                forall|t: int|
                    0 <= t < n ==> (#[trigger] marks@[t] == 1 <==> self.free_q().contains(t as u32)),
                forall|t: int|
                    0 <= t < n ==> (#[trigger] marks@[t] == 2 <==> exists|bb: int, q: int|
                        before(self, b as int, 0, bb, q) && self.chain(bb)[q] == t),
                forall|t: int| 0 <= t < n ==> #[trigger] marks@[t] <= 2,
                forall|bb: int, q: int|
                    before(self, b as int, 0, bb, q) ==> #[trigger] self.chain(bb)[q] < n
                        && !self.free_q().contains(self.chain(bb)[q]),
                forall|b1: int, q1: int, b2: int, q2: int|
                    before(self, b as int, 0, b1, q1) && before(self, b as int, 0, b2, q2) && (b1
                        != b2 || q1 != q2) ==> #[trigger] self.chain(b1)[q1] != #[trigger] self.chain(
                        b2,
                    )[q2],
            decreases MAX_N_TTL_BUCKET - b,
        {
            let len = self.ttl_buckets.buckets[b].segs.len();
            let mut p: usize = 0;
            while p < len
                invariant
                    self.ttl_buckets.buckets@.len() == MAX_N_TTL_BUCKET,
                    n == self.nsegs(),
                    b < MAX_N_TTL_BUCKET,
                    len == self.chain(b as int).len(),
                    p <= len,
                    marks@.len() == n,
                    forall|t: int|
                        0 <= t < n ==> (#[trigger] marks@[t] == 1 <==> self.free_q().contains(
                            t as u32,
                        )),
                    forall|t: int|
                        0 <= t < n ==> (#[trigger] marks@[t] == 2 <==> exists|bb: int, q: int|
                            before(self, b as int, p as int, bb, q) && self.chain(bb)[q] == t),
                    forall|t: int| 0 <= t < n ==> #[trigger] marks@[t] <= 2,
                    forall|bb: int, q: int|
                        before(self, b as int, p as int, bb, q) ==> #[trigger] self.chain(bb)[q] < n
                            && !self.free_q().contains(self.chain(bb)[q]),
                    forall|b1: int, q1: int, b2: int, q2: int|
                        before(self, b as int, p as int, b1, q1) && before(
                            self,
                            b as int,
                            p as int,
                            b2,
                            q2,
                        ) && (b1 != b2 || q1 != q2) ==> #[trigger] self.chain(b1)[q1]
                            != #[trigger] self.chain(b2)[q2],
                decreases len - p,
            {
                let t = self.ttl_buckets.buckets[b].segs[p];
                proof {
                    assert(self.chain(b as int)[p as int] == t);
                }
                if t as usize >= n {
                    return None;
                }
                if marks[t as usize] == 1 {
                    return None;
                }
                if marks[t as usize] == 2 {
                    proof {
                        let (bb, q) = choose|bb: int, q: int|
                            before(self, b as int, p as int, bb, q) && self.chain(bb)[q] == t;
                        assert(self.chain(bb)[q] == self.chain(b as int)[p as int]);
                    }
                    return None;
                }
                marks.set(t as usize, 2);
                proof {
                    assert forall|t2: int| 0 <= t2 < n implies (#[trigger] marks@[t2] == 2
                        <==> exists|bb: int, q: int|
                        before(self, b as int, p + 1, bb, q) && self.chain(bb)[q] == t2) by {
                        if t2 == t {
                            assert(before(self, b as int, p + 1, b as int, p as int));
                        } else if marks@[t2] == 2 {
                            let (bb, q) = choose|bb: int, q: int|
                                before(self, b as int, p as int, bb, q) && self.chain(bb)[q] == t2;
                            assert(before(self, b as int, p + 1, bb, q));
                        } else if exists|bb: int, q: int|
                            before(self, b as int, p + 1, bb, q) && self.chain(bb)[q] == t2 {
                            let (bb, q) = choose|bb: int, q: int|
                                before(self, b as int, p + 1, bb, q) && self.chain(bb)[q] == t2;
                            assert(before(self, b as int, p as int, bb, q));
                        }
                    }
                    assert forall|b1: int, q1: int, b2: int, q2: int|
                        before(self, b as int, p + 1, b1, q1) && before(self, b as int, p + 1, b2, q2)
                            && (b1 != b2 || q1 != q2) implies #[trigger] self.chain(b1)[q1]
                        != #[trigger] self.chain(b2)[q2] by {
                        if b1 == b && q1 == p {
                            assert(before(self, b as int, p as int, b2, q2));
                            if self.chain(b2)[q2] == t {
                                assert(marks@[t as int] == 2);
                            }
                        } else if b2 == b && q2 == p {
                            assert(before(self, b as int, p as int, b1, q1));
                        }
                    }
                }
                p = p + 1;
            }
            proof {
                assert forall|bb: int, q: int|
                    before(self, b + 1, 0, bb, q) == before(self, b as int, len as int, bb, q) by {}
            }
            b = b + 1;
        }
        proof {
            assert forall|t: int| 0 <= t < n implies (#[trigger] marks@[t] == 2 <==> self.in_chain(t)) by {
                if marks@[t] == 2 {
                    let (bb, q) = choose|bb: int, q: int|
                        before(self, MAX_N_TTL_BUCKET as int, 0, bb, q) && self.chain(bb)[q] == t;
                    assert(self.chain(bb)[q] == t);
                }
                if self.in_chain(t) {
                    let (bb, q) = choose|bb: int, q: int|
                        0 <= bb < MAX_N_TTL_BUCKET && 0 <= q < self.chain(bb).len()
                            && #[trigger] self.chain(bb)[q] == t;
                    assert(before(self, MAX_N_TTL_BUCKET as int, 0, bb, q));
                }
            }
        }
        Some(marks)
    }
}


impl Seg {
    /// Checks what must hold of an occupied slot.
    fn check_slot(&self, i: usize, marks: &Vec<u8>) -> (r: bool)
        requires
            self.structure_ok(),
            chain_marks(self, marks@),
            self.occupied(i as int),
        ensures
            r == self.slot_ok(i as int),
    {
        let x = self.hashtable.slots[i];
        proof {
            lemma_info_bounds(x);
        }
        let s = get_seg(x) as usize;
        let n = self.segments.headers.len();
        if s >= n {
            return false;
        }
        if marks[s] != 2 {
            return false;
        }
        let ss = self.segments.segment_size as u64;
        let off = get_offset(x);
        let dlen = self.segments.data.len();
        assert((s as u64) * ss <= 0x1_0000_0000_0000) by (nonlinear_arith)
            requires
                s < MAX_SEGMENTS,
                ss <= MAX_SEGMENT_SIZE,
        ;
        let a: u64 = (s as u64) * ss + off;
        if a + 5 > dlen as u64 {
            return false;
        }
        let au = a as usize;
        let klen = self.segments.data[au] as u64;
        let vlen = self.segments.data[au + 1] as u64 + 256 * (self.segments.data[au + 2] as u64)
            + 65536 * (self.segments.data[au + 3] as u64);
        let olen = self.segments.data[au + 4] as u64;
        let len: u64 = 5 + olen + klen + vlen;
        assert(len == item_len(self.data(), a as int));
        if a + len > dlen as u64 {
            return false;
        }
        let wo = self.segments.headers[s].write_offset as u64;
        if off + len > wo {
            return false;
        }
        let key = read_bytes(&self.segments.data, au + 5 + olen as usize, klen as usize);
        assert(key@ == self.key_of(i as int));
        let h = hash(key.as_slice());
        let nb = self.hashtable.nbuckets;
        if (h % (nb as u64)) as usize != i / 8 {
            return false;
        }
        get_tag(x) == tag(h)
    }

    /// Checks every occupied slot.
    fn check_slots(&self, marks: &Vec<u8>) -> (r: bool)
        requires
            self.structure_ok(),
            chain_marks(self, marks@),
        ensures
            r == forall|i: int| #[trigger] self.occupied(i) ==> self.slot_ok(i),
    {
        let len = self.hashtable.slots.len();
        let mut i: usize = 0;
        while i < len
            invariant
                self.structure_ok(),
                chain_marks(self, marks@),
                len == self.slots().len(),
                i <= len,
                forall|j: int| 0 <= j < i && #[trigger] self.occupied(j) ==> self.slot_ok(j),
            decreases len - i,
        {
            if i % 8 != 0 && self.hashtable.slots[i] != 0 {
                if !self.check_slot(i, marks) {
                    assert(self.occupied(i as int));
                    return false;
                }
            }
            i = i + 1;
        }
        true
    }

    /// Tells whether the items of two occupied slots have the same key.
    fn same_key(&self, i: usize, j: usize) -> (r: bool)
        requires
            self.structure_ok(),
            self.occupied(i as int),
            self.occupied(j as int),
            self.slot_ok(i as int),
            self.slot_ok(j as int),
        ensures
            r == (self.key_of(i as int) == self.key_of(j as int)),
    {
        let ai = self.addr_of_ok_slot(i);
        let aj = self.addr_of_ok_slot(j);
        let dlen = self.segments.data.len();
        let ki = self.segments.data[ai] as usize;
        let kj = self.segments.data[aj] as usize;
        if ki != kj {
            return false;
        }
        let oi = self.segments.data[ai + 4] as usize;
        let key = read_bytes(&self.segments.data, ai + 5 + oi, ki);
        let oj = self.segments.data[aj + 4] as usize;
        crate::item::bytes_eq(&self.segments.data, aj + 5 + oj, key.as_slice())
    }

    /// The data pool address of the item of a slot that is right.
    fn addr_of_ok_slot(&self, i: usize) -> (a: usize)
        requires
            self.structure_ok(),
            self.occupied(i as int),
            self.slot_ok(i as int),
        ensures
            a == self.addr(i as int),
            item_fits(self.data(), a as int),
    {
        let x = self.hashtable.slots[i];
        let s = get_seg(x) as usize;
        let dlen = self.segments.data.len();
        proof {
            lemma_info_bounds(x);
            assert(self.write_offset(s as int) <= self.seg_size());
            lemma_addr(s as int, self.seg_size(), self.offset_of(i as int), self.nsegs());
        }
        let off = get_offset(x) as usize;
        s * (self.segments.segment_size as usize) + off
    }

    /// Checks that no two occupied slots hold the same key, knowing that
    /// every key sits in its own bucket.
    fn check_distinct(&self) -> (r: bool)
        requires
            self.structure_ok(),
            forall|i: int| #[trigger] self.occupied(i) ==> self.slot_ok(i),
        ensures
            r == forall|i: int, j: int|
                #![trigger self.key_of(i), self.key_of(j)]
                self.occupied(i) && self.occupied(j) && i != j ==> self.key_of(i) != self.key_of(j),
    {
        let nb = self.hashtable.nbuckets;
        let slen = self.hashtable.slots.len();
        let mut b: usize = 0;
        while b < nb
            invariant
                self.structure_ok(),
                forall|i: int| #[trigger] self.occupied(i) ==> self.slot_ok(i),
                slen == self.slots().len(),
                nb == self.nbuckets(),
                b <= nb,
                forall|i: int, j: int|
                    #![trigger self.key_of(i), self.key_of(j)]
                    0 <= i < b * 8 && 0 <= j < b * 8 && self.occupied(i) && self.occupied(j) && i / 8
                        == j / 8 && i != j ==> self.key_of(i) != self.key_of(j),
            decreases nb - b,
        {
            let mut j1: usize = 1;
            while j1 < 8
                invariant
                    self.structure_ok(),
                    forall|i: int| #[trigger] self.occupied(i) ==> self.slot_ok(i),
                    slen == self.slots().len(),
                    nb == self.nbuckets(),
                    b < nb,
                    1 <= j1 <= 8,
                    forall|i: int, j: int|
                        #![trigger self.key_of(i), self.key_of(j)]
                        0 <= i < b * 8 && 0 <= j < b * 8 && self.occupied(i) && self.occupied(j) && i
                            / 8 == j / 8 && i != j ==> self.key_of(i) != self.key_of(j),
                    forall|i: int, j: int|
                        #![trigger self.key_of(i), self.key_of(j)]
                        b * 8 < i < b * 8 + j1 && b * 8 < j < b * 8 + 8 && self.occupied(i)
                            && self.occupied(j) && i != j ==> self.key_of(i) != self.key_of(j),
                decreases 8 - j1,
            {
                let mut j2: usize = j1 + 1;
                while j2 < 8
                    invariant
                        self.structure_ok(),
                        forall|i: int| #[trigger] self.occupied(i) ==> self.slot_ok(i),
                        slen == self.slots().len(),
                        nb == self.nbuckets(),
                        b < nb,
                        1 <= j1 < 8,
                        j1 < j2 <= 8,
                        forall|i: int, j: int|
                            #![trigger self.key_of(i), self.key_of(j)]
                            0 <= i < b * 8 && 0 <= j < b * 8 && self.occupied(i) && self.occupied(j)
                                && i / 8 == j / 8 && i != j ==> self.key_of(i) != self.key_of(j),
                        forall|i: int, j: int|
                            #![trigger self.key_of(i), self.key_of(j)]
                            b * 8 < i < b * 8 + j1 && b * 8 < j < b * 8 + 8 && self.occupied(i)
                                && self.occupied(j) && i != j ==> self.key_of(i) != self.key_of(j),
                        forall|j: int|
                            #![trigger self.key_of(j)]
                            b * 8 + j1 < j < b * 8 + j2 && self.occupied(b * 8 + j1)
                                && self.occupied(j) ==> self.key_of(b * 8 + j1) != self.key_of(j),
                    decreases 8 - j2,
                {
                    let i1 = b * 8 + j1;
                    let i2 = b * 8 + j2;
                    if self.hashtable.slots[i1] != 0 && self.hashtable.slots[i2] != 0 {
                        assert(self.occupied(i1 as int));
                        assert(self.occupied(i2 as int));
                        if self.same_key(i1, i2) {
                            return false;
                        }
                    }
                    j2 = j2 + 1;
                }
                j1 = j1 + 1;
            }
            b = b + 1;
        }
        proof {
            assert forall|i: int, j: int|
                #![trigger self.key_of(i), self.key_of(j)]
                self.occupied(i) && self.occupied(j) && i != j implies self.key_of(i) != self.key_of(j) by {
                if self.key_of(i) == self.key_of(j) {
                    assert(self.slot_ok(i));
                    assert(self.slot_ok(j));
                    assert(i / 8 == j / 8);
                }
            }
        }
        true
    }

    /// Checks that every slot holding an item is listed among the members
    /// of its segment.
    fn check_index(&self) -> (r: bool)
        requires
            self.items_ok(),
        ensures
            r == self.indexed(),
    {
        let nsegs = self.segments.headers.len();
        if self.members.len() != nsegs {
            return false;
        }
        let n = self.hashtable.slots.len();
        let mut listed: Vec<bool> = vec![false; n];
        let mut s: usize = 0;
        while s < nsegs
            invariant
                self.items_ok(),
                n == self.slots().len(),
                nsegs == self.nsegs(),
                self.members@.len() == nsegs,
                s <= nsegs,
                listed@.len() == n,
                forall|j: int|
                    0 <= j < n && #[trigger] listed@[j] ==> self.occupied(j) && self.members@[self.seg_of(
                        j,
                    )]@.contains(j as usize),
                forall|j: int|
                    0 <= j < n && #[trigger] self.occupied(j) && self.seg_of(j) < s
                        && self.members@[self.seg_of(j)]@.contains(j as usize) ==> listed@[j],
            decreases nsegs - s,
        {
            let m = &self.members[s];
            let len = m.len();
            let mut q: usize = 0;
            while q < len
                invariant
                    self.items_ok(),
                    n == self.slots().len(),
                    nsegs == self.nsegs(),
                    self.members@.len() == nsegs,
                    s < nsegs,
                    m@ == self.members@[s as int]@,
                    len == m@.len(),
                    q <= len,
                    listed@.len() == n,
                    forall|j: int|
                        0 <= j < n && #[trigger] listed@[j] ==> self.occupied(j) && self.members@[self.seg_of(
                            j,
                        )]@.contains(j as usize),
                    forall|j: int|
                        0 <= j < n && #[trigger] self.occupied(j) && self.seg_of(j) < s
                            && self.members@[self.seg_of(j)]@.contains(j as usize) ==> listed@[j],
                    forall|qq: int|
                        0 <= qq < q && #[trigger] m@[qq] < n && self.occupied(m@[qq] as int)
                            && self.seg_of(m@[qq] as int) == s ==> listed@[m@[qq] as int],
                decreases len - q,
            {
                let j = m[q];
                if j < n && j % 8 != 0 {
                    let x = self.hashtable.slots[j];
                    if x != 0 && get_seg(x) == s as u64 {
                        proof {
                            assert(m@[q as int] == j);
                            assert(self.occupied(j as int));
                            assert(self.members@[s as int]@.contains(j));
                        }
                        listed.set(j, true);
                    }
                }
                q = q + 1;
            }
            proof {
                assert forall|j: int|
                    0 <= j < n && #[trigger] self.occupied(j) && self.seg_of(j) < s + 1
                        && self.members@[self.seg_of(j)]@.contains(j as usize) implies listed@[j] by {
                    if self.seg_of(j) == s {
                        let qq = choose|qq: int| 0 <= qq < m@.len() && m@[qq] == j as usize;
                        assert(m@[qq] < n);
                    }
                }
            }
            s = s + 1;
        }
        let mut j: usize = 0;
        while j < n
            invariant
                self.items_ok(),
                n == self.slots().len(),
                nsegs == self.nsegs(),
                self.members@.len() == nsegs,
                listed@.len() == n,
                j <= n,
                forall|jj: int|
                    0 <= jj < n && #[trigger] listed@[jj] ==> self.occupied(jj) && self.members@[self.seg_of(
                        jj,
                    )]@.contains(jj as usize),
                forall|jj: int|
                    0 <= jj < n && #[trigger] self.occupied(jj) && self.seg_of(jj) < nsegs
                        && self.members@[self.seg_of(jj)]@.contains(jj as usize) ==> listed@[jj],
                forall|jj: int| 0 <= jj < j && #[trigger] self.occupied(jj) ==> listed@[jj],
            decreases n - j,
        {
            if j % 8 != 0 && self.hashtable.slots[j] != 0 && !listed[j] {
                proof {
                    assert(self.occupied(j as int));
                    assert(self.slot_ok(j as int));
                    assert(!self.members@[self.seg_of(j as int)]@.contains(j));
                }
                return false;
            }
            j = j + 1;
        }
        proof {
            assert forall|jj: int| #[trigger] self.occupied(jj) implies self.members@[self.seg_of(
                jj,
            )]@.contains(jj as usize) by {
                assert(listed@[jj]);
            }
        }
        true
    }

    /// Checks that every segment is free or in a chain, given the marks of
    /// the free segments (1) and of those in chains (2).
    fn check_covered(&self, marks: &Vec<u8>) -> (r: bool)
        requires
            chain_marks(self, marks@),
            forall|t: int|
                0 <= t < self.nsegs() ==> (#[trigger] marks@[t] == 1 <==> self.free_q().contains(
                    t as u32,
                )),
        ensures
            r == self.covered(),
    {
        let n = self.segments.headers.len();
        let mut t: usize = 0;
        while t < n
            invariant
                n == self.nsegs(),
                t <= n,
                chain_marks(self, marks@),
                forall|u: int|
                    0 <= u < self.nsegs() ==> (#[trigger] marks@[u] == 1 <==> self.free_q().contains(
                        u as u32,
                    )),
                forall|u: int|
                    0 <= u < t ==> #[trigger] self.free_q().contains(u as u32) || self.in_chain(u),
            decreases n - t,
        {
            if marks[t] != 1 && marks[t] != 2 {
                proof {
                    assert(!self.free_q().contains(t as u32) && !self.in_chain(t as int));
                }
                return false;
            }
            proof {
                assert(marks@[t as int] == 1 || marks@[t as int] == 2);
            }
            t = t + 1;
        }
        true
    }

    /// Checks the invariant of the cache.
    pub(crate) fn check_inv(&self) -> (r: bool)
        ensures
            r == self.inv(),
    {
        if !self.check_items() {
            return false;
        }
        self.check_index()
    }

    /// Checks that the structures are consistent and that the slots point
    /// to distinct items in segments in use.
    pub(crate) fn check_items(&self) -> (r: bool)
        ensures
            r == self.items_ok(),
    {
        if !self.check_shape() || !self.check_cas() {
            return false;
        }
        let marks = match self.check_segments() {
            Some(m) => m,
            None => return false,
        };
        let marks = match self.check_chains(marks) {
            Some(m) => m,
            None => return false,
        };
        if !self.check_timed() {
            return false;
        }
        if !self.check_covered(&marks) {
            return false;
        }
        if !self.check_slots(&marks) {
            return false;
        }
        self.check_distinct()
    }
}

} // verus!
