//! Finding room for items: reserving space in the tail segment of a
//! bucket or in a free segment, and evicting segments when none is free.

use crate::hashtable::get_seg;
use crate::item::item_len;
use crate::platform::random_u32;
use crate::segments::{Policy, SegmentHeader};
use crate::ttl_buckets::MAX_N_TTL_BUCKET;
use crate::seg::{same_cas, same_config, shrunk, Seg};
use crate::structure::{
    segments_ok, chains_ok, lemma_timed_same_times, lemma_timed_push, lemma_timed_remove,
};
use vstd::prelude::*;

verus! {

/// Why a bucket could not reserve room for an item.
pub enum ReserveError {
    /// The tail segment has no room and no segment is free.
    NoFreeSegments,
}

impl Seg {
    /// Some segment may be evicted: one that is in a bucket's chain but is
    /// not the last segment of that chain.
    pub open spec fn has_candidate(&self) -> bool {
        exists|b: int| 0 <= b < MAX_N_TTL_BUCKET && #[trigger] self.chain(b).len() >= 2
    }

    /// Items of segment `s` all end at or below offset `o`.
    pub open spec fn items_below(&self, s: int, o: int) -> bool {
        forall|j: int|
            #[trigger] self.occupied(j) && self.seg_of(j) == s ==> self.offset_of(j) + item_len(
                self.data(),
                self.addr(j),
            ) <= o
    }

    /// The last segment of the chain of bucket `b` has room for `size` more
    /// bytes.
    pub open spec fn tail_room(&self, b: int, size: int) -> bool {
        &&& self.chain(b).len() > 0
        &&& self.write_offset(self.chain(b).last() as int) + size <= self.seg_size()
    }

    /// The creation time given to a segment that bucket `b` takes at time
    /// `now`: never earlier than that of the chain's last segment.
    pub open spec fn stamp_for(&self, b: int, now: u32) -> u32 {
        if self.chain(b).len() > 0 && now < self.segments.headers@[self.chain(
            b,
        ).last() as int].create_at {
            self.segments.headers@[self.chain(b).last() as int].create_at
        } else {
            now
        }
    }

    /// What reserving `size` bytes in bucket `b` at time `now` did to the
    /// segments, from the cache `a` to the cache `c`: the last segment of
    /// the chain grew when it had room; otherwise the last free segment was
    /// appended to the chain, stamped with the bucket's time-to-live and
    /// its creation time. The other chains are unchanged.
    pub open spec fn reserved(a: &Seg, c: &Seg, b: int, size: int, now: u32) -> bool {
        &&& c.nsegs() == a.nsegs()
        &&& c.ttl_buckets.buckets@.len() == a.ttl_buckets.buckets@.len()
        &&& forall|bb: int|
            0 <= bb < MAX_N_TTL_BUCKET ==> #[trigger] c.ttl_buckets.buckets@[bb].ttl
                == a.ttl_buckets.buckets@[bb].ttl
        &&& forall|bb: int|
            0 <= bb < MAX_N_TTL_BUCKET && bb != b ==> #[trigger] c.chain(bb) == a.chain(bb)
        &&& if a.tail_room(b, size) {
            let t = a.chain(b).last();
            &&& c.chain(b) == a.chain(b)
            &&& c.free_q() == a.free_q()
            &&& c.segments.headers@ == a.segments.headers@.update(
                t as int,
                SegmentHeader {
                    write_offset: (a.write_offset(t as int) + size) as u32,
                    ..a.segments.headers@[t as int]
                },
            )
        } else {
            let s = a.free_q().last();
            &&& a.free_q().len() > 0
            &&& c.free_q() == a.free_q().drop_last()
            &&& c.chain(b) == a.chain(b).push(s)
            &&& c.segments.headers@ == a.segments.headers@.update(
                s as int,
                SegmentHeader {
                    write_offset: size as u32,
                    create_at: a.stamp_for(b, now),
                    ttl: a.ttl_buckets.buckets@[b].ttl,
                },
            )
        }
    }

    /// Reserves `size` bytes for an item in the tail segment of bucket `b`,
    /// taking a free segment when the tail has no room.
    pub(crate) fn reserve(&mut self, b: usize, size: u32, now: u32) -> (r: Result<(u32, u32), ReserveError>)
        requires
            old(self).inv(),
            b < MAX_N_TTL_BUCKET,
            size <= old(self).seg_size(),
            size % 8 == 0,
            size > 0,
        ensures
            final(self).inv(),
            final(self).hashtable == old(self).hashtable,
            final(self).segments.data == old(self).segments.data,
            final(self).segments.segment_size == old(self).segments.segment_size,
            final(self).segments.evict_policy == old(self).segments.evict_policy,
            same_config(old(self), final(self)),
            final(self)@ == old(self)@,
            match r {
                Ok((s, o)) => {
                    &&& s < final(self).nsegs()
                    &&& final(self).in_chain(s as int)
                    &&& final(self).chain(b as int).contains(s)
                    &&& final(self).write_offset(s as int) == o + size
                    &&& o % 8 == 0
                    &&& final(self).items_below(s as int, o as int)
                    &&& final(self).free_q().len() + 1 >= old(self).free_q().len()
                    &&& Seg::reserved(old(self), final(self), b as int, size as int, now)
                    &&& s == final(self).chain(b as int).last()
                },
                Err(_) => {
                    &&& *final(self) == *old(self)
                    &&& old(self).free_q().len() == 0
                    &&& !old(self).tail_room(b as int, size as int)
                },
            },
    {
        let ss = self.segments.segment_size;
        let len = self.ttl_buckets.buckets[b].segs.len();
        if len > 0 {
            let tail = self.ttl_buckets.buckets[b].segs[len - 1];
            proof {
                assert(self.chain(b as int)[len - 1] == tail);
            }
            let hdr = self.segments.headers[tail as usize];
            if hdr.write_offset + size <= ss {
                let o = hdr.write_offset;
                let ghost a = *self;
                self.segments.headers.set(
                    tail as usize,
                    SegmentHeader { write_offset: o + size, create_at: hdr.create_at, ttl: hdr.ttl },
                );
                proof {
                    assert(self.chain(b as int)[len - 1] == tail);
                    Seg::lemma_after_grow_tail(&a, self, tail as int, o as int);
                }
                return Ok((tail, o));
            }
        }
        if self.segments.free_q.len() == 0 {
            return Err(ReserveError::NoFreeSegments);
        }
        match self.segments.free_q.pop() {
            None => Err(ReserveError::NoFreeSegments),
            Some(s) => {
                let ghost a = *old(self);
                proof {
                    assert(a.free_q()[a.free_q().len() - 1] == s);
                    assert(s < self.nsegs());
                }
                let ttl = self.ttl_buckets.buckets[b].ttl;
                // a segment is never stamped earlier than the one before it
                let create_at = if len > 0 {
                    let last = self.ttl_buckets.buckets[b].segs[len - 1];
                    let last_at = self.segments.headers[last as usize].create_at;
                    if now < last_at {
                        last_at
                    } else {
                        now
                    }
                } else {
                    now
                };
                self.segments.headers.set(
                    s as usize,
                    SegmentHeader { write_offset: size, create_at, ttl },
                );
                self.ttl_buckets.buckets[b].segs.push(s);
                proof {
                    Seg::lemma_after_take_free(&a, self, b as int, s as int);
                }
                Ok((s, 0))
            },
        }
    }

    /// Facts about raising the write offset of a segment in use.
    proof fn lemma_after_grow_tail(a: &Seg, c: &Seg, t: int, o: int)
        requires
            c.members@ == a.members@,
            a.inv(),
            a.in_chain(t),
            o == a.write_offset(t),
            c.hashtable == a.hashtable,
            c.ttl_buckets == a.ttl_buckets,
            c.segments.data == a.segments.data,
            c.segments.segment_size == a.segments.segment_size,
            c.segments.free_q == a.segments.free_q,
            c.segments.headers@.len() == a.segments.headers@.len(),
            forall|u: int| 0 <= u < a.nsegs() && u != t ==> #[trigger] c.segments.headers@[u] == a.segments.headers@[u],
            c.segments.headers@[t].create_at == a.segments.headers@[t].create_at,
            c.segments.headers@[t].ttl == a.segments.headers@[t].ttl,
            o <= c.write_offset(t) <= c.seg_size(),
            c.write_offset(t) % 8 == 0,
        ensures
            c.inv(),
            c@ == a@,
            c.in_chain(t),
            c.items_below(t, o),
    {
        Seg::lemma_in_chain_frame(a, c, t);
        lemma_timed_same_times(a.segments.headers@, c.segments.headers@, a.ttl_buckets);
        assert forall|u: int| 0 <= u < c.nsegs() implies #[trigger] c.segments.headers@[u].write_offset
            <= c.seg_size() && c.segments.headers@[u].write_offset % 8 == 0 by {
            if u != t {
                assert(c.segments.headers@[u] == a.segments.headers@[u]);
            }
        }
        assert(segments_ok(c.segments));
        assert forall|j: int| #[trigger] c.occupied(j) implies c.slot_ok(j) && (c.seg_of(j) == t
            ==> c.offset_of(j) + item_len(c.data(), c.addr(j)) <= o) by {
            assert(a.occupied(j));
            assert(a.slot_ok(j));
            Seg::lemma_in_chain_frame(a, c, c.seg_of(j));
            if c.seg_of(j) != t {
                assert(c.segments.headers@[c.seg_of(j)] == a.segments.headers@[c.seg_of(j)]);
            }
        }
        assert forall|j1: int, j2: int|
            c.occupied(j1) && c.occupied(j2) && j1 != j2 implies #[trigger] c.key_of(j1)
            != #[trigger] c.key_of(j2) by {
            assert(a.key_of(j1) != a.key_of(j2));
        }
        Seg::lemma_indexed_frame(a, c);
        assert(c.inv());
        Seg::lemma_model_eq(a, c);
    }

    /// Facts about moving a free segment to the end of a bucket's chain.
    proof fn lemma_after_take_free(a: &Seg, c: &Seg, b: int, s: int)
        requires
            c.members@ == a.members@,
            a.inv(),
            0 <= b < MAX_N_TTL_BUCKET,
            a.free_q().len() > 0,
            s == a.free_q().last(),
            c.hashtable == a.hashtable,
            c.segments.data == a.segments.data,
            c.segments.segment_size == a.segments.segment_size,
            c.segments.headers@.len() == a.segments.headers@.len(),
            c.free_q() == a.free_q().drop_last(),
            forall|t: int| 0 <= t < a.nsegs() && t != s ==> #[trigger] c.segments.headers@[t] == a.segments.headers@[t],
            c.write_offset(s) <= c.seg_size(),
            c.write_offset(s) % 8 == 0,
            c.ttl_buckets.buckets@.len() == MAX_N_TTL_BUCKET,
            c.chain(b) == a.chain(b).push(s as u32),
            forall|bb: int| 0 <= bb < MAX_N_TTL_BUCKET && bb != b ==> #[trigger] c.chain(bb) == a.chain(bb),
            forall|bb: int|
                0 <= bb < MAX_N_TTL_BUCKET ==> #[trigger] c.ttl_buckets.buckets@[bb].ttl
                    == a.ttl_buckets.buckets@[bb].ttl,
            c.segments.headers@[s].ttl == a.ttl_buckets.buckets@[b].ttl,
            a.chain(b).len() > 0 ==> a.segments.headers@[a.chain(b).last() as int].create_at
                <= c.segments.headers@[s].create_at,
        ensures
            c.inv(),
            c@ == a@,
            c.in_chain(s),
            c.items_below(s, 0),
    {
        let n = a.nsegs();
        let f = a.free_q();
        let lb = a.chain(b).len() as int;
        assert(f.contains(s as u32)) by {
            assert(f[f.len() - 1] == s);
        }
        assert forall|i: int, j: int|
            0 <= i < c.free_q().len() && 0 <= j < c.free_q().len() && i != j implies c.free_q()[i]
            != c.free_q()[j] by {
            assert(c.free_q()[i] == f[i]);
            assert(c.free_q()[j] == f[j]);
        }
        assert forall|j: int| 0 <= j < c.free_q().len() implies #[trigger] c.free_q()[j] < n by {
            assert(c.free_q()[j] == f[j]);
        }
        assert(!c.free_q().contains(s as u32)) by {
            if c.free_q().contains(s as u32) {
                let i = choose|i: int| 0 <= i < c.free_q().len() && c.free_q()[i] == s;
                assert(f[i] == f[f.len() - 1]);
            }
        }
        assert forall|t: int| 0 <= t < n implies #[trigger] c.segments.headers@[t].write_offset
            <= c.seg_size() && c.segments.headers@[t].write_offset % 8 == 0 by {
            if t != s {
                assert(c.segments.headers@[t] == a.segments.headers@[t]);
            }
        }
        assert(segments_ok(c.segments));
        assert forall|bb: int, p: int|
            0 <= bb < MAX_N_TTL_BUCKET && 0 <= p < c.chain(bb).len() implies #[trigger] c.chain(bb)[p]
            < n && !c.free_q().contains(c.chain(bb)[p]) by {
            if bb == b && p == lb {
                assert(c.chain(bb)[p] == s);
            } else {
                assert(c.chain(bb)[p] == a.chain(bb)[p]);
                if c.free_q().contains(c.chain(bb)[p]) {
                    let i = choose|i: int| 0 <= i < c.free_q().len() && c.free_q()[i] == c.chain(bb)[p];
                    assert(f[i] == c.chain(bb)[p]);
                    assert(f.contains(a.chain(bb)[p]));
                }
            }
        }
        assert forall|b1: int, p1: int, b2: int, p2: int|
            0 <= b1 < MAX_N_TTL_BUCKET && 0 <= p1 < c.chain(b1).len() && 0 <= b2 < MAX_N_TTL_BUCKET
                && 0 <= p2 < c.chain(b2).len() && (b1 != b2 || p1 != p2) implies #[trigger] c.chain(
            b1,
        )[p1] != #[trigger] c.chain(b2)[p2] by {
            let new1 = b1 == b && p1 == lb;
            let new2 = b2 == b && p2 == lb;
            if new1 && !new2 {
                assert(c.chain(b2)[p2] == a.chain(b2)[p2]);
                assert(!f.contains(a.chain(b2)[p2]));
            } else if new2 && !new1 {
                assert(c.chain(b1)[p1] == a.chain(b1)[p1]);
                assert(!f.contains(a.chain(b1)[p1]));
            } else if !new1 && !new2 {
                assert(c.chain(b1)[p1] == a.chain(b1)[p1]);
                assert(c.chain(b2)[p2] == a.chain(b2)[p2]);
            }
        }
        assert(chains_ok(c.nsegs(), c.free_q(), c.ttl_buckets));
        assert(c.chain(b)[lb] == s);
        assert(c.in_chain(s));
        assert forall|j: int| #[trigger] c.occupied(j) implies c.slot_ok(j) && c.seg_of(j) != s by {
            assert(a.occupied(j));
            assert(a.slot_ok(j));
            let t = a.seg_of(j);
            let (bb, p) = choose|bb: int, p: int|
                0 <= bb < MAX_N_TTL_BUCKET && 0 <= p < a.chain(bb).len() && #[trigger] a.chain(bb)[p]
                    == t;
            assert(!f.contains(a.chain(bb)[p]));
            assert(t != s);
            assert(c.segments.headers@[t] == a.segments.headers@[t]);
            assert(c.chain(bb)[p] == t);
        }
        assert forall|j1: int, j2: int|
            c.occupied(j1) && c.occupied(j2) && j1 != j2 implies #[trigger] c.key_of(j1)
            != #[trigger] c.key_of(j2) by {
            assert(a.key_of(j1) != a.key_of(j2));
        }
        assert forall|bb: int, q: int|
            0 <= bb < MAX_N_TTL_BUCKET && 0 <= q < a.chain(bb).len() implies #[trigger] a.chain(bb)[q]
            != s by {
            assert(!f.contains(a.chain(bb)[q]));
        }
        lemma_timed_push(
            a.segments.headers@,
            c.segments.headers@,
            a.ttl_buckets,
            c.ttl_buckets,
            b,
            s,
        );
        assert forall|t: int| 0 <= t < c.nsegs() implies #[trigger] c.free_q().contains(t as u32)
            || c.in_chain(t) by {
            if t == s {
                assert(c.chain(b)[lb] == s);
            } else if f.contains(t as u32) {
                let i = choose|i: int| 0 <= i < f.len() && f[i] == t as u32;
                assert(i != f.len() - 1);
                assert(c.free_q()[i] == t as u32);
            } else {
                assert(a.in_chain(t));
                let (bb, q) = choose|bb: int, q: int|
                    0 <= bb < MAX_N_TTL_BUCKET && 0 <= q < a.chain(bb).len() && #[trigger] a.chain(bb)[q]
                        == t;
                assert(c.chain(bb)[q] == t);
            }
        }
        Seg::lemma_indexed_frame(a, c);
        assert(c.inv());
        Seg::lemma_model_eq(a, c);
    }
}


impl Seg {
    /// Empties every slot that points into segment `s`, going through the
    /// slots listed among the segment's members, and empties that list.
    fn clear_segment_slots(&mut self, s: u32)
        requires
            old(self).inv(),
            s < old(self).nsegs(),
        ensures
            final(self).inv(),
            final(self).segments == old(self).segments,
            final(self).ttl_buckets == old(self).ttl_buckets,
            final(self).hashtable.power == old(self).hashtable.power,
            final(self).hashtable.nbuckets == old(self).hashtable.nbuckets,
            final(self).hashtable.table_copied_back == old(self).hashtable.table_copied_back,
            final(self)._restored == old(self)._restored,
            final(self).slots().len() == old(self).slots().len(),
            forall|j: int|
                0 <= j < old(self).slots().len() ==> #[trigger] final(self).slots()[j] == if old(
                    self,
                ).occupied(j) && old(self).seg_of(j) == s {
                    0
                } else {
                    old(self).slots()[j]
                },
            forall|j: int| #[trigger] final(self).occupied(j) ==> final(self).seg_of(j) != s,
            shrunk(old(self)@, final(self)@),
            forall|k: Seq<u8>|
                #[trigger] old(self)@.contains_key(k) ==> (final(self)@.contains_key(k) <==> old(
                    self,
                ).seg_of_key(k) != s),
    {
        let n = self.hashtable.slots.len();
        let ghost a = *self;
        let len = self.members[s as usize].len();
        let mut k: usize = 0;
        while k < len
            invariant
                a == *old(self),
                a.inv(),
                s < a.nsegs(),
                n == a.slots().len(),
                len == a.members@[s as int]@.len(),
                k <= len,
                self.segments == a.segments,
                self.ttl_buckets == a.ttl_buckets,
                self.hashtable.power == a.hashtable.power,
                self.hashtable.nbuckets == a.hashtable.nbuckets,
                self.hashtable.table_copied_back == a.hashtable.table_copied_back,
                self._restored == a._restored,
                self.clock == a.clock,
                self.members == a.members,
                self.slots().len() == n,
                forall|j: int|
                    0 <= j < n ==> #[trigger] self.slots()[j] == a.slots()[j] || (self.slots()[j] == 0
                        && a.occupied(j) && a.seg_of(j) == s),
                forall|q: int|
                    0 <= q < k ==> !(#[trigger] a.occupied(a.members@[s as int]@[q] as int) && a.seg_of(
                        a.members@[s as int]@[q] as int,
                    ) == s && self.slots()[a.members@[s as int]@[q] as int] != 0),
            decreases len - k,
        {
            let j = self.members[s as usize][k];
            proof {
                assert(j == a.members@[s as int]@[k as int]);
            }
            if j < n && j % 8 != 0 {
                let x = self.hashtable.slots[j];
                if x != 0 && get_seg(x) == s as u64 {
                    self.hashtable.slots.set(j, 0);
                }
            }
            k = k + 1;
        }
        proof {
            assert forall|j: int| 0 <= j < n implies #[trigger] self.slots()[j] == if a.occupied(j)
                && a.seg_of(j) == s {
                0
            } else {
                a.slots()[j]
            } by {
                if a.occupied(j) && a.seg_of(j) == s {
                    assert(a.members@[s as int]@.contains(j as usize));
                    let q = choose|q: int|
                        0 <= q < a.members@[s as int]@.len() && a.members@[s as int]@[q] == j as usize;
                    assert(a.occupied(a.members@[s as int]@[q] as int));
                }
            }
            assert forall|bb: int| 0 <= bb < a.nbuckets() implies #[trigger] self.slots()[bb * 8]
                == a.slots()[bb * 8] by {}
            Seg::lemma_inv_slots_frame(&a, self);
            assert forall|j: int| #[trigger]
                self.occupied(j) implies a.occupied(j) && a.key_of(j) == self.key_of(j)
                && a.entry_of(j) == self.entry_of(j) by {}
            Seg::lemma_model_shrunk(&a, self);
            assert forall|k: Seq<u8>| #[trigger] a@.contains_key(k) implies (self@.contains_key(k)
                <==> a.seg_of_key(k) != s) by {
                let i = choose|i: int| a.holds(i, k);
                a.lemma_holds_model(i, k);
                if a.seg_of(i) != s {
                    assert(self.holds(i, k));
                } else if self@.contains_key(k) {
                    let j = choose|j: int| self.holds(j, k);
                    assert(a.holds(j, k));
                    assert(a.key_of(i) == a.key_of(j));
                }
            }
        }
        let ghost mid = *self;
        self.members.set(s as usize, Vec::new());
        proof {
            assert forall|j: int| #[trigger] self.occupied(j) implies self.members@[self.seg_of(
                j,
            )]@.contains(j as usize) by {
                assert(mid.occupied(j));
                assert(self.seg_of(j) != s);
            }
            Seg::lemma_items_frame(&mid, self);
        }
    }
}


impl Seg {
    /// Facts about moving a segment that no slot points into from a bucket's
    /// chain to the free queue.
    proof fn lemma_after_release(a: &Seg, c: &Seg, b: int, p: int)
        requires
            c.members@ == a.members@,
            a.inv(),
            0 <= b < MAX_N_TTL_BUCKET,
            0 <= p < a.chain(b).len(),
            forall|j: int| #[trigger] a.occupied(j) ==> a.seg_of(j) != a.chain(b)[p],
            c.hashtable == a.hashtable,
            c.segments.data == a.segments.data,
            c.segments.segment_size == a.segments.segment_size,
            c.segments.headers@.len() == a.segments.headers@.len(),
            c.free_q() == a.free_q().push(a.chain(b)[p]),
            forall|t: int|
                0 <= t < a.nsegs() && t != a.chain(b)[p] ==> #[trigger] c.segments.headers@[t]
                    == a.segments.headers@[t],
            c.write_offset(a.chain(b)[p] as int) == 0,
            c.ttl_buckets.buckets@.len() == MAX_N_TTL_BUCKET,
            c.chain(b) == a.chain(b).remove(p),
            forall|bb: int| 0 <= bb < MAX_N_TTL_BUCKET && bb != b ==> #[trigger] c.chain(bb) == a.chain(bb),
            forall|bb: int|
                0 <= bb < MAX_N_TTL_BUCKET ==> #[trigger] c.ttl_buckets.buckets@[bb].ttl
                    == a.ttl_buckets.buckets@[bb].ttl,
        ensures
            c.inv(),
            c@ == a@,
    {
        let s = a.chain(b)[p];
        let n = a.nsegs();
        let f = a.free_q();
        assert(s < n && !f.contains(s));
        assert forall|q: int| 0 <= q < c.chain(b).len() implies #[trigger] c.chain(b)[q] == if q < p {
            a.chain(b)[q]
        } else {
            a.chain(b)[q + 1]
        } by {}
        assert forall|j: int| 0 <= j < c.free_q().len() implies #[trigger] c.free_q()[j] < n by {
            if j < f.len() {
                assert(c.free_q()[j] == f[j]);
            }
        }
        assert forall|i: int, j: int|
            0 <= i < c.free_q().len() && 0 <= j < c.free_q().len() && i != j implies c.free_q()[i]
            != c.free_q()[j] by {
            if i == f.len() {
                assert(f[j] != s);
            } else if j == f.len() {
                assert(f[i] != s);
            }
        }
        assert forall|t: int| 0 <= t < n implies #[trigger] c.segments.headers@[t].write_offset
            <= c.seg_size() && c.segments.headers@[t].write_offset % 8 == 0 by {
            if t != s {
                assert(c.segments.headers@[t] == a.segments.headers@[t]);
            }
        }
        assert(segments_ok(c.segments));
        // Each position of the new chains comes from a distinct position of the old ones.
        assert forall|bb: int, q: int|
            0 <= bb < MAX_N_TTL_BUCKET && 0 <= q < c.chain(bb).len() implies #[trigger] c.chain(bb)[q]
            < n && !c.free_q().contains(c.chain(bb)[q]) && c.chain(bb)[q] != s by {
            let q0 = if bb == b && q >= p {
                q + 1
            } else {
                q
            };
            assert(c.chain(bb)[q] == a.chain(bb)[q0]);
            assert(!f.contains(a.chain(bb)[q0]));
            assert(a.chain(bb)[q0] != s);
            if c.free_q().contains(c.chain(bb)[q]) {
                let i = choose|i: int| 0 <= i < c.free_q().len() && c.free_q()[i] == c.chain(bb)[q];
                assert(i < f.len());
                assert(f[i] == c.chain(bb)[q]);
            }
        }
        assert forall|b1: int, p1: int, b2: int, p2: int|
            0 <= b1 < MAX_N_TTL_BUCKET && 0 <= p1 < c.chain(b1).len() && 0 <= b2 < MAX_N_TTL_BUCKET
                && 0 <= p2 < c.chain(b2).len() && (b1 != b2 || p1 != p2) implies #[trigger] c.chain(
            b1,
        )[p1] != #[trigger] c.chain(b2)[p2] by {
            let q1 = if b1 == b && p1 >= p {
                p1 + 1
            } else {
                p1
            };
            let q2 = if b2 == b && p2 >= p {
                p2 + 1
            } else {
                p2
            };
            assert(c.chain(b1)[p1] == a.chain(b1)[q1]);
            assert(c.chain(b2)[p2] == a.chain(b2)[q2]);
        }
        assert(chains_ok(c.nsegs(), c.free_q(), c.ttl_buckets));
        assert forall|j: int| #[trigger] c.occupied(j) implies c.slot_ok(j) by {
            assert(a.occupied(j));
            assert(a.slot_ok(j));
            let t = a.seg_of(j);
            assert(t != s);
            let (bb, q) = choose|bb: int, q: int|
                0 <= bb < MAX_N_TTL_BUCKET && 0 <= q < a.chain(bb).len() && #[trigger] a.chain(bb)[q]
                    == t;
            assert(bb != b || q != p);
            let q1 = if bb == b && q > p {
                q - 1
            } else {
                q
            };
            assert(c.chain(bb)[q1] == t);
            assert(c.segments.headers@[t] == a.segments.headers@[t]);
        }
        assert forall|j1: int, j2: int|
            c.occupied(j1) && c.occupied(j2) && j1 != j2 implies #[trigger] c.key_of(j1)
            != #[trigger] c.key_of(j2) by {
            assert(a.key_of(j1) != a.key_of(j2));
        }
        lemma_timed_remove(
            a.segments.headers@,
            c.segments.headers@,
            a.ttl_buckets,
            c.ttl_buckets,
            b,
            p,
        );
        assert forall|t: int| 0 <= t < c.nsegs() implies #[trigger] c.free_q().contains(t as u32)
            || c.in_chain(t) by {
            if t == s {
                assert(c.free_q()[f.len() as int] == s);
            } else if f.contains(t as u32) {
                let i = choose|i: int| 0 <= i < f.len() && f[i] == t as u32;
                assert(c.free_q()[i] == t as u32);
            } else {
                assert(a.in_chain(t));
                let (bb, q) = choose|bb: int, q: int|
                    0 <= bb < MAX_N_TTL_BUCKET && 0 <= q < a.chain(bb).len() && #[trigger] a.chain(bb)[q]
                        == t;
                let q1 = if bb == b && q > p {
                    q - 1
                } else {
                    q
                };
                assert(c.chain(bb)[q1] == t);
            }
        }
        Seg::lemma_indexed_frame(a, c);
        assert(c.inv());
        Seg::lemma_model_eq(a, c);
    }

    /// Evicts the segment at position `p` of bucket `b`'s chain: its items
    /// leave the cache and the segment goes back to the free queue.
    pub(crate) fn evict_at(&mut self, b: usize, p: usize)
        requires
            old(self).inv(),
            b < MAX_N_TTL_BUCKET,
            p < old(self).chain(b as int).len(),
        ensures
            final(self).inv(),
            shrunk(old(self)@, final(self)@),
            forall|k: Seq<u8>|
                #[trigger] old(self)@.contains_key(k) ==> (final(self)@.contains_key(k) <==> old(
                    self,
                ).seg_of_key(k) != old(self).chain(b as int)[p as int]),
            forall|bb: int|
                0 <= bb < old(self).nbuckets() ==> #[trigger] final(self).slots()[bb * 8] == old(
                    self,
                ).slots()[bb * 8],
            same_config(old(self), final(self)),
            final(self).free_q() == old(self).free_q().push(old(self).chain(b as int)[p as int]),
            final(self).chain(b as int) == old(self).chain(b as int).remove(p as int),
            forall|bb: int|
                0 <= bb < MAX_N_TTL_BUCKET && bb != b ==> #[trigger] final(self).chain(bb) == old(
                    self,
                ).chain(bb),
            forall|t: int|
                0 <= t < old(self).nsegs() && t != old(self).chain(b as int)[p as int]
                    ==> #[trigger] final(self).segments.headers@[t] == old(self).segments.headers@[t],
            forall|k: Seq<u8>| #[trigger]
                final(self)@.contains_key(k) ==> final(self).seg_of_key(k) == old(self).seg_of_key(k),
            Seg::evicted_at(old(self), final(self), b as int, p as int),
    {
        let s = self.ttl_buckets.buckets[b].segs[p];
        self.clear_segment_slots(s);
        let ghost a = *self;
        self.ttl_buckets.buckets[b].segs.remove(p);
        self.segments.headers.set(s as usize, SegmentHeader { write_offset: 0, create_at: 0, ttl: 0 });
        self.segments.free_q.push(s);
        proof {
            Seg::lemma_after_release(&a, self, b as int, p as int);
            assert forall|k: Seq<u8>| #[trigger]
                self@.contains_key(k) implies self.seg_of_key(k) == old(self).seg_of_key(k) by {
                let j = choose|j: int| self.holds(j, k);
                self.lemma_holds_model(j, k);
                assert(a.holds(j, k));
                assert(old(self).holds(j, k));
                old(self).lemma_holds_model(j, k);
            }
        }
    }
}


impl Seg {
    /// The score by which the head of a chain is compared for eviction:
    /// its creation time, plus its time-to-live when closest to expiration
    /// is evicted first.
    pub open spec fn head_score(&self, b: int) -> int {
        let h = self.segments.headers@[self.chain(b)[0] as int];
        if self.segments.evict_policy == Policy::Cte {
            h.create_at + h.ttl
        } else {
            h.create_at as int
        }
    }

    /// The segment at position `p` of the chain of bucket `b` may be
    /// evicted under the cache's policy: it is not the last of its chain,
    /// and it is the head of a chain whose head has the lowest score when
    /// the policy picks the oldest segment, or the one closest to expiration.
    pub open spec fn victim(&self, b: int, p: int) -> bool {
        &&& 0 <= b < MAX_N_TTL_BUCKET
        &&& 0 <= p
        &&& p + 1 < self.chain(b).len()
        &&& match self.segments.evict_policy {
            Policy::NoEviction => false,
            Policy::Random => true,
            _ => {
                &&& p == 0
                &&& forall|bb: int|
                    0 <= bb < MAX_N_TTL_BUCKET && #[trigger] self.chain(bb).len() >= 2
                        ==> self.head_score(b) <= self.head_score(bb)
            },
        }
    }

    /// Picks the segment to evict according to the eviction policy: a
    /// bucket and a position in its chain other than the last.
    fn select_victim(&self) -> (r: Option<(usize, usize)>)
        requires
            self.inv(),
        ensures
            match r {
                Some((b, p)) => self.victim(b as int, p as int),
                None => self.segments.evict_policy == Policy::NoEviction || !self.has_candidate(),
            },
    {
        match self.segments.evict_policy {
            Policy::NoEviction => None,
            Policy::Random => {
                let start = (random_u32() % (MAX_N_TTL_BUCKET as u32)) as usize;
                let mut k: usize = 0;
                while k < MAX_N_TTL_BUCKET
                    invariant
                        self.inv(),
                        self.segments.evict_policy == Policy::Random,
                        start < MAX_N_TTL_BUCKET,
                        k <= MAX_N_TTL_BUCKET,
                        forall|kk: int|
                            0 <= kk < k ==> #[trigger] self.chain((start + kk) % 1024).len() < 2,
                    decreases MAX_N_TTL_BUCKET - k,
                {
                    let b = (start + k) % MAX_N_TTL_BUCKET;
                    let len = self.ttl_buckets.buckets[b].segs.len();
                    if len >= 2 {
                        let p = (random_u32() as usize) % (len - 1);
                        return Some((b, p));
                    }
                    k = k + 1;
                }
                proof {
                    if self.has_candidate() {
                        let b = choose|b: int|
                            0 <= b < MAX_N_TTL_BUCKET && #[trigger] self.chain(b).len() >= 2;
                        let kk = (b + 1024 - start) % 1024;
                        assert((start + kk) % 1024 == b);
                        assert(self.chain((start + kk) % 1024).len() < 2);
                    }
                }
                None
            },
            Policy::Fifo | Policy::Cte => {
                let cte = self.segments.evict_policy == Policy::Cte;
                let mut best: Option<(usize, u64)> = None;
                let mut b: usize = 0;
                while b < MAX_N_TTL_BUCKET
                    invariant
                        self.inv(),
                        self.segments.evict_policy == Policy::Fifo || self.segments.evict_policy
                            == Policy::Cte,
                        cte == (self.segments.evict_policy == Policy::Cte),
                        b <= MAX_N_TTL_BUCKET,
                        match best {
                            Some((bb, score)) => {
                                &&& bb < b
                                &&& self.chain(bb as int).len() >= 2
                                &&& score == self.head_score(bb as int)
                                &&& forall|b2: int|
                                    0 <= b2 < b && #[trigger] self.chain(b2).len() >= 2
                                        ==> self.head_score(bb as int) <= self.head_score(b2)
                            },
                            None => forall|bb: int|
                                0 <= bb < b ==> #[trigger] self.chain(bb).len() < 2,
                        },
                    decreases MAX_N_TTL_BUCKET - b,
                {
                    let len = self.ttl_buckets.buckets[b].segs.len();
                    if len >= 2 {
                        let head = self.ttl_buckets.buckets[b].segs[0];
                        proof {
                            assert(self.chain(b as int)[0] == head);
                            assert(head < self.nsegs());
                        }
                        let hdr = self.segments.headers[head as usize];
                        let score: u64 = if cte {
                            hdr.create_at as u64 + hdr.ttl as u64
                        } else {
                            hdr.create_at as u64
                        };
                        proof {
                            assert(score == self.head_score(b as int));
                        }
                        match best {
                            Some((_, best_score)) => {
                                if score < best_score {
                                    best = Some((b, score));
                                }
                            },
                            None => {
                                best = Some((b, score));
                            },
                        }
                    }
                    b = b + 1;
                }
                match best {
                    Some((bb, _)) => Some((bb, 0)),
                    None => None,
                }
            },
        }
    }

    /// The segments of `e` are those of `a` after the segment at position
    /// `p` of the chain of bucket `b` went back to the free queue: that
    /// chain lost it, the other chains and the other headers are unchanged.
    pub open spec fn evicted_at(a: &Seg, e: &Seg, b: int, p: int) -> bool {
        let v = a.chain(b)[p];
        &&& e.nsegs() == a.nsegs()
        &&& e.ttl_buckets.buckets@.len() == a.ttl_buckets.buckets@.len()
        &&& forall|bb: int|
            0 <= bb < MAX_N_TTL_BUCKET ==> #[trigger] e.ttl_buckets.buckets@[bb].ttl
                == a.ttl_buckets.buckets@[bb].ttl
        &&& e.chain(b) == a.chain(b).remove(p)
        &&& forall|bb: int|
            0 <= bb < MAX_N_TTL_BUCKET && bb != b ==> #[trigger] e.chain(bb) == a.chain(bb)
        &&& e.free_q() == a.free_q().push(v)
        &&& forall|t: int|
            0 <= t < a.nsegs() && t != v ==> #[trigger] e.segments.headers@[t]
                == a.segments.headers@[t]
    }

    /// `b` holds the items of `a` but those of segment `s`.
    pub open spec fn evicted(a: &Seg, b: &Seg, s: int) -> bool {
        &&& shrunk(a@, b@)
        &&& forall|k: Seq<u8>|
            #[trigger] a@.contains_key(k) ==> (b@.contains_key(k) <==> a.seg_of_key(k) != s)
    }

    /// Evicts one segment chosen by the eviction policy. Returns whether a
    /// segment was evicted.
    pub(crate) fn evict(&mut self) -> (r: bool)
        requires
            old(self).inv(),
        ensures
            final(self).inv(),
            same_config(old(self), final(self)),
            same_cas(old(self), final(self)),
            shrunk(old(self)@, final(self)@),
            r == (old(self).segments.evict_policy != Policy::NoEviction && old(self).has_candidate()),
            r ==> final(self).free_q().len() > 0,
            r ==> exists|vb: int, vp: int| #[trigger]
                old(self).victim(vb, vp) && Seg::evicted(old(self), final(self), old(self).chain(vb)[vp] as int)
                    && Seg::evicted_at(old(self), final(self), vb, vp),
            !r ==> *final(self) == *old(self),
    {
        match self.select_victim() {
            None => false,
            Some((b, p)) => {
                proof {
                    assert(old(self).chain(b as int).len() >= 2);
                    assert(old(self).has_candidate());
                }
                self.evict_at(b, p);
                proof {
                    assert(old(self).victim(b as int, p as int));
                }
                true
            },
        }
    }
}

} // verus!
