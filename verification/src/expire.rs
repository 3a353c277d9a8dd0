//! Eager expiration and clearing.

use crate::ttl_buckets::MAX_N_TTL_BUCKET;
use crate::seg::{same_cas, same_config, shrunk, Entry, Seg};
use crate::insert::lemma_shrunk_trans;
use crate::platform::duration_secs;
use crate::structure::lemma_full_queue;
use vstd::prelude::*;

verus! {

impl Seg {
    /// Segment `s` has expired at time `now`.
    pub open spec fn seg_expired(&self, s: int, now: u32) -> bool {
        self.segments.headers@[s].create_at + self.segments.headers@[s].ttl <= now
    }

    /// The segments in the chains whose time-to-live has passed at time
    /// `now`.
    pub open spec fn expired_segs(&self, now: u32) -> Set<u32> {
        Set::new(|s: u32| self.in_chain(s as int) && self.seg_expired(s as int, now))
    }

    /// The chain `x` is what is left of the chain `y` once some segments
    /// were taken off its head.
    pub open spec fn chain_suffix(x: Seq<u32>, y: Seq<u32>) -> bool {
        &&& x.len() <= y.len()
        &&& x == y.subrange(y.len() - x.len(), y.len() as int)
    }

    /// The segments freed from the cache `a` to the cache `b`: the free
    /// queue of `b` is that of `a` followed by segments that were in a chain
    /// of `a` and had expired at time `now`, and each chain of `b` is its
    /// chain in `a` with some segments taken off its head.
    pub open spec fn expired_heads(a: &Seg, b: &Seg, now: u32) -> bool {
        &&& a.free_q().len() <= b.free_q().len()
        &&& b.free_q().subrange(0, a.free_q().len() as int) == a.free_q()
        &&& forall|i: int|
            a.free_q().len() <= i < b.free_q().len() ==> a.in_chain(#[trigger] b.free_q()[i] as int)
                && a.seg_expired(b.free_q()[i] as int, now)
        &&& forall|bb: int|
            0 <= bb < MAX_N_TTL_BUCKET ==> Seg::chain_suffix(#[trigger] b.chain(bb), a.chain(bb))
    }

    /// What expiring at time `now` promises, from the cache `a` to the
    /// cache `b`, having expired `n` segments.
    pub open spec fn expire_post(a: &Seg, b: &Seg, now: u32, n: usize) -> bool {
        &&& b.inv()
        &&& same_config(a, b)
        &&& same_cas(a, b)
        &&& shrunk(a@, b@)
        &&& b.free_q().len() == a.free_q().len() + n
        &&& Seg::expired_heads(a, b, now)
        &&& forall|bb: int, p: int|
            0 <= bb < MAX_N_TTL_BUCKET && 0 <= p < b.chain(bb).len()
                ==> #[trigger] b.segments.headers@[b.chain(bb)[p] as int]
                == a.segments.headers@[b.chain(bb)[p] as int]
        &&& forall|k: Seq<u8>|
            #[trigger] a@.contains_key(k) && !b@.contains_key(k) ==> a.seg_expired(a.seg_of_key(k), now)
        &&& forall|bb: int|
            0 <= bb < MAX_N_TTL_BUCKET && #[trigger] b.chain(bb).len() > 0 ==> !b.seg_expired(
                b.chain(bb)[0] as int,
                now,
            )
        &&& forall|k: Seq<u8>| #[trigger]
            b@.contains_key(k) ==> !b.seg_expired(b.seg_of_key(k), now)
        &&& forall|k: Seq<u8>|
            #[trigger] a@.contains_key(k) && a.seg_expired(a.seg_of_key(k), now) ==> !b@.contains_key(k)
    }

    /// Taking the expired head off the chain of bucket `b` and freeing it
    /// keeps the freed segments those expired heads.
    proof fn lemma_expired_head(a: &Seg, c: &Seg, d: &Seg, b: int, now: u32)
        requires
            Seg::expired_heads(a, c, now),
            0 <= b < MAX_N_TTL_BUCKET,
            c.chain(b).len() > 0,
            c.seg_expired(c.chain(b)[0] as int, now),
            c.segments.headers@[c.chain(b)[0] as int] == a.segments.headers@[c.chain(b)[0] as int],
            d.free_q() == c.free_q().push(c.chain(b)[0]),
            d.chain(b) == c.chain(b).remove(0),
            forall|bb: int| 0 <= bb < MAX_N_TTL_BUCKET && bb != b ==> #[trigger] d.chain(bb) == c.chain(bb),
        ensures
            Seg::expired_heads(a, d, now),
    {
        let h = c.chain(b)[0];
        let y = a.chain(b);
        let x = c.chain(b);
        assert(Seg::chain_suffix(c.chain(b), a.chain(b)));
        let k = y.len() - x.len();
        assert(x[0] == y[k]);
        assert(a.in_chain(h as int));
        assert(d.free_q().subrange(0, a.free_q().len() as int) =~= a.free_q()) by {
            assert forall|i: int| 0 <= i < a.free_q().len() implies d.free_q()[i] == a.free_q()[i] by {
                assert(d.free_q()[i] == c.free_q()[i]);
                assert(c.free_q().subrange(0, a.free_q().len() as int)[i] == a.free_q()[i]);
            }
        }
        assert forall|i: int|
            a.free_q().len() <= i < d.free_q().len() implies a.in_chain(#[trigger] d.free_q()[i] as int)
            && a.seg_expired(d.free_q()[i] as int, now) by {
            if i < c.free_q().len() {
                assert(d.free_q()[i] == c.free_q()[i]);
            } else {
                assert(d.free_q()[i] == h);
            }
        }
        assert forall|bb: int| 0 <= bb < MAX_N_TTL_BUCKET implies Seg::chain_suffix(
            #[trigger] d.chain(bb),
            a.chain(bb),
        ) by {
            if bb == b {
                assert(d.chain(b) =~= y.subrange(y.len() - d.chain(b).len(), y.len() as int)) by {
                    assert forall|i: int| 0 <= i < d.chain(b).len() implies d.chain(b)[i] == y[k + 1
                        + i] by {
                        assert(d.chain(b)[i] == x[i + 1]);
                    }
                }
            } else {
                assert(Seg::chain_suffix(c.chain(bb), a.chain(bb)));
            }
        }
    }

    /// Expires, in every bucket, the segments at the head of the chain
    /// whose time-to-live has passed at time `now`, and returns how many
    /// segments were expired.
    pub fn expire_at(&mut self, now: u32) -> (r: usize)
        requires
            old(self).inv(),
        ensures
            Seg::expire_post(old(self), final(self), now, r),
    {
        let mut count: usize = 0;
        let mut b: usize = 0;
        proof {
            assert(self.free_q().subrange(0, self.free_q().len() as int) =~= self.free_q());
            assert forall|bb: int| 0 <= bb < MAX_N_TTL_BUCKET implies Seg::chain_suffix(
                #[trigger] self.chain(bb),
                old(self).chain(bb),
            ) by {
                assert(self.chain(bb).subrange(0, self.chain(bb).len() as int) =~= self.chain(bb));
            }
        }
        while b < MAX_N_TTL_BUCKET
            invariant
                b <= MAX_N_TTL_BUCKET,
                self.inv(),
                same_config(old(self), self),
                same_cas(old(self), self),
                shrunk(old(self)@, self@),
                self.free_q().len() == old(self).free_q().len() + count,
                Seg::expired_heads(old(self), self, now),
                forall|k: Seq<u8>| #[trigger]
                    self@.contains_key(k) ==> self.seg_of_key(k) == old(self).seg_of_key(k),
                forall|bb: int, p: int|
                    0 <= bb < MAX_N_TTL_BUCKET && 0 <= p < self.chain(bb).len()
                        ==> #[trigger] self.segments.headers@[self.chain(bb)[p] as int]
                        == old(self).segments.headers@[self.chain(bb)[p] as int],
                forall|k: Seq<u8>|
                    #[trigger] old(self)@.contains_key(k) && !self@.contains_key(k) ==> old(
                        self,
                    ).seg_expired(old(self).seg_of_key(k), now),
                forall|bb: int|
                    0 <= bb < b && #[trigger] self.chain(bb).len() > 0 ==> !self.seg_expired(
                        self.chain(bb)[0] as int,
                        now,
                    ),
            decreases MAX_N_TTL_BUCKET - b,
        {
            while self.ttl_buckets.buckets[b].segs.len() > 0
                invariant
                    b < MAX_N_TTL_BUCKET,
                    self.inv(),
                    same_config(old(self), self),
                    same_cas(old(self), self),
                    shrunk(old(self)@, self@),
                    self.free_q().len() == old(self).free_q().len() + count,
                    Seg::expired_heads(old(self), self, now),
                    forall|k: Seq<u8>| #[trigger]
                        self@.contains_key(k) ==> self.seg_of_key(k) == old(self).seg_of_key(k),
                    forall|bb: int, p: int|
                        0 <= bb < MAX_N_TTL_BUCKET && 0 <= p < self.chain(bb).len()
                            ==> #[trigger] self.segments.headers@[self.chain(bb)[p] as int]
                            == old(self).segments.headers@[self.chain(bb)[p] as int],
                    forall|k: Seq<u8>|
                        #[trigger] old(self)@.contains_key(k) && !self@.contains_key(k) ==> old(
                            self,
                        ).seg_expired(old(self).seg_of_key(k), now),
                    forall|bb: int|
                        0 <= bb < b && #[trigger] self.chain(bb).len() > 0 ==> !self.seg_expired(
                            self.chain(bb)[0] as int,
                            now,
                        ),
                ensures
                    self.chain(b as int).len() > 0 ==> !self.seg_expired(
                        self.chain(b as int)[0] as int,
                        now,
                    ),
                decreases self.chain(b as int).len(),
            {
                let head = self.ttl_buckets.buckets[b].segs[0];
                proof {
                    assert(self.chain(b as int)[0] == head);
                }
                let hdr = self.segments.headers[head as usize];
                if hdr.create_at as u64 + hdr.ttl as u64 > now as u64 {
                    break ;
                }
                let ghost before = *self;
                self.evict_at(b, 0);
                let flen = self.segments.free_q.len();
                assert(count + 1 <= flen);
                count = count + 1;
                proof {
                    Seg::lemma_expired_head(old(self), &before, self, b as int, now);
                    lemma_shrunk_trans(old(self)@, before@, self@);
                    assert forall|bb: int| 0 <= bb < old(self).nbuckets() implies #[trigger] self.slots()[bb
                        * 8] == old(self).slots()[bb * 8] by {
                        assert(before.slots()[bb * 8] == old(self).slots()[bb * 8]);
                    }
                    assert forall|k: Seq<u8>| #[trigger]
                        self@.contains_key(k) implies self.seg_of_key(k) == old(self).seg_of_key(k) by {
                        assert(before@.contains_key(k));
                    }
                    assert forall|bb: int, p: int|
                        0 <= bb < MAX_N_TTL_BUCKET && 0 <= p < self.chain(bb).len() implies #[trigger] self.segments.headers@[self.chain(
                        bb,
                    )[p] as int] == old(self).segments.headers@[self.chain(bb)[p] as int] by {
                        let q = if bb == b {
                            p + 1
                        } else {
                            p
                        };
                        assert(self.chain(bb)[p] == before.chain(bb)[q]);
                        assert(before.chain(bb)[q] != head);
                    }
                    assert forall|k: Seq<u8>|
                        #[trigger] old(self)@.contains_key(k) && !self@.contains_key(k) implies old(
                        self,
                    ).seg_expired(old(self).seg_of_key(k), now) by {
                        if before@.contains_key(k) {
                            assert(before.seg_of_key(k) == head);
                        }
                    }
                    assert forall|bb: int|
                        0 <= bb < b && #[trigger] self.chain(bb).len() > 0 implies !self.seg_expired(
                        self.chain(bb)[0] as int,
                        now,
                    ) by {
                        assert(self.chain(bb) == before.chain(bb));
                        assert(before.chain(bb)[0] != head);
                    }
                }
            }
            b = b + 1;
        }
        proof {
            assert forall|k: Seq<u8>| #[trigger]
                self@.contains_key(k) implies !self.seg_expired(self.seg_of_key(k), now) by {
                let j = choose|j: int| self.holds(j, k);
                self.lemma_holds_model(j, k);
                assert(self.slot_ok(j));
                let t = self.seg_of(j);
                let (bb, p) = choose|bb: int, p: int|
                    0 <= bb < MAX_N_TTL_BUCKET && 0 <= p < self.chain(bb).len() && #[trigger] self.chain(
                        bb,
                    )[p] == t;
                let head = self.chain(bb)[0];
                assert(!self.seg_expired(head as int, now));
                let h = self.segments.headers@;
                assert(h[self.chain(bb)[p] as int].ttl == self.ttl_buckets.buckets@[bb].ttl);
                assert(h[self.chain(bb)[0] as int].ttl == self.ttl_buckets.buckets@[bb].ttl);
                if p > 0 {
                    assert(h[self.chain(bb)[0] as int].create_at <= h[self.chain(bb)[p] as int].create_at);
                }
            }
            assert forall|k: Seq<u8>|
                #[trigger] old(self)@.contains_key(k) && old(self).seg_expired(old(self).seg_of_key(k), now)
                    implies !self@.contains_key(k) by {
                if self@.contains_key(k) {
                    let j = choose|j: int| self.holds(j, k);
                    self.lemma_holds_model(j, k);
                    assert(self.slot_ok(j));
                    let t = self.seg_of(j);
                    let (bb, p) = choose|bb: int, p: int|
                        0 <= bb < MAX_N_TTL_BUCKET && 0 <= p < self.chain(bb).len()
                            && #[trigger] self.chain(bb)[p] == t;
                    assert(self.segments.headers@[self.chain(bb)[p] as int] == old(
                        self,
                    ).segments.headers@[self.chain(bb)[p] as int]);
                    assert(self.seg_of_key(k) == old(self).seg_of_key(k));
                    assert(!self.seg_expired(self.seg_of_key(k), now));
                }
            }
        }
        count
    }

    /// Loops through the TTL Buckets to handle eager expiration, returns the
    /// number of segments expired
    pub fn expire(&mut self) -> (r: usize)
        requires
            old(self).inv(),
        ensures
            exists|d: std::time::Duration|
                Seg::expire_post(
                    old(self),
                    final(self),
                    Seg::saturated_secs(#[trigger] duration_secs(d)),
                    r,
                ),
    {
        let now = self.now();
        let ghost d = choose|d: std::time::Duration| now == Seg::saturated_secs(duration_secs(d));
        let r = self.expire_at(now);
        proof {
            assert(Seg::expire_post(old(self), self, Seg::saturated_secs(duration_secs(d)), r));
        }
        r
    }
}


impl Seg {
    /// What clearing promises, from the cache `a` to the cache `b`, having
    /// freed `n` segments: the cache is empty and every segment is free.
    pub open spec fn clear_post(a: &Seg, b: &Seg, n: usize) -> bool {
        &&& b.inv()
        &&& same_config(a, b)
        &&& same_cas(a, b)
        &&& b@ == Map::<Seq<u8>, Entry>::empty()
        &&& b.free_q().len() == a.free_q().len() + n
        &&& forall|bb: int| 0 <= bb < MAX_N_TTL_BUCKET ==> #[trigger] b.chain(bb).len() == 0
        &&& b.free_q().len() == b.nsegs()
    }

    /// Evicts every segment of every bucket, emptying the cache, and returns
    /// how many segments were freed.
    pub fn clear(&mut self) -> (r: usize)
        requires
            old(self).inv(),
        ensures
            Seg::clear_post(old(self), final(self), r),
    {
        let mut count: usize = 0;
        let mut b: usize = 0;
        while b < MAX_N_TTL_BUCKET
            invariant
                b <= MAX_N_TTL_BUCKET,
                self.inv(),
                same_config(old(self), self),
                same_cas(old(self), self),
                self.free_q().len() == old(self).free_q().len() + count,
                forall|bb: int| 0 <= bb < b ==> #[trigger] self.chain(bb).len() == 0,
            decreases MAX_N_TTL_BUCKET - b,
        {
            while self.ttl_buckets.buckets[b].segs.len() > 0
                invariant
                    b < MAX_N_TTL_BUCKET,
                    self.inv(),
                    same_config(old(self), self),
                    same_cas(old(self), self),
                    self.free_q().len() == old(self).free_q().len() + count,
                    forall|bb: int| 0 <= bb < b ==> #[trigger] self.chain(bb).len() == 0,
                ensures
                    self.chain(b as int).len() == 0,
                decreases self.chain(b as int).len(),
            {
                let ghost before = *self;
                self.evict_at(b, 0);
                let flen = self.segments.free_q.len();
                assert(count + 1 <= flen);
                count = count + 1;
                proof {
                    assert forall|bb: int| 0 <= bb < old(self).nbuckets() implies #[trigger] self.slots()[bb
                        * 8] == old(self).slots()[bb * 8] by {
                        assert(before.slots()[bb * 8] == old(self).slots()[bb * 8]);
                    }
                    assert forall|bb: int| 0 <= bb < b implies #[trigger] self.chain(bb).len() == 0 by {
                        assert(self.chain(bb) == before.chain(bb));
                    }
                }
            }
            b = b + 1;
        }
        proof {
            assert forall|j: int| !self.occupied(j) by {
                if self.occupied(j) {
                    assert(self.slot_ok(j));
                    let (bb, p) = choose|bb: int, p: int|
                        0 <= bb < MAX_N_TTL_BUCKET && 0 <= p < self.chain(bb).len() && #[trigger] self.chain(
                            bb,
                        )[p] == self.seg_of(j);
                    assert(self.chain(bb).len() == 0);
                }
            }
            assert(self@ =~= Map::<Seq<u8>, Entry>::empty());
            assert forall|t: int| 0 <= t < self.nsegs() implies #[trigger] self.free_q().contains(
                t as u32,
            ) by {
                if !self.free_q().contains(t as u32) {
                    assert(self.in_chain(t));
                    let (bb, p) = choose|bb: int, p: int|
                        0 <= bb < MAX_N_TTL_BUCKET && 0 <= p < self.chain(bb).len()
                            && #[trigger] self.chain(bb)[p] == t;
                    assert(self.chain(bb).len() == 0);
                }
            }
            lemma_full_queue(self.free_q(), self.nsegs());
        }
        count
    }
}

} // verus!
