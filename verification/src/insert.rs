//! Writing items: indexing a new item in the hash table, inserting, and
//! compare-and-swap.

use crate::hashtable::{hash, hash_spec, info_tag, pack, tag, tag_of};
use crate::error::SegError;
use crate::platform::{duration_secs, whole_secs};
use crate::ttl_buckets::{bucket_index, bucket_index_spec, bucket_ttl_spec};
use crate::item::{
    item_size, item_size_spec, write_item, MAX_KEY_LEN, MAX_OPTIONAL_LEN, item_fits, item_len, lemma_item_frame,
};
use crate::segments::Policy;
use crate::ttl_buckets::MAX_N_TTL_BUCKET;
use crate::seg::{same_cas, same_config, shrunk, Entry, Seg};
use crate::structure::{lemma_addr, lemma_seg_disjoint};
use vstd::prelude::*;

verus! {

/// The CAS value that follows `c`, wrapping around at 32 bits.
pub open spec fn next_cas(c: u32) -> u32 {
    if c < u32::MAX {
        (c + 1) as u32
    } else {
        0
    }
}

impl Seg {
    /// The seven item slots of the bucket of key `k` are all occupied.
    pub open spec fn bucket_full(&self, k: Seq<u8>) -> bool {
        forall|j: int| 1 <= j < 8 ==> #[trigger] self.occupied(self.bucket_of(k) * 8 + j)
    }

    /// Facts about writing an item above every item of its segment.
    proof fn lemma_after_write(a: &Seg, c: &Seg, s: int, o: int, len: int)
        requires
            c.members@ == a.members@,
            a.inv(),
            0 <= s < a.nsegs(),
            a.in_chain(s),
            0 <= o,
            o + len <= a.write_offset(s),
            a.items_below(s, o),
            c.hashtable == a.hashtable,
            c.ttl_buckets == a.ttl_buckets,
            c.segments.headers == a.segments.headers,
            c.segments.free_q == a.segments.free_q,
            c.segments.segment_size == a.segments.segment_size,
            c.data().len() == a.data().len(),
            forall|j: int|
                0 <= j < a.data().len() && !(s * a.seg_size() + o <= j < s * a.seg_size() + o + len)
                    ==> #[trigger] c.data()[j] == a.data()[j],
        ensures
            c.inv(),
            c@ == a@,
            c.items_below(s, o),
    {
        let ss = a.seg_size();
        assert forall|j: int| #[trigger] a.occupied(j) implies c.occupied(j) && c.slot_ok(j) && a.key_of(j)
            == c.key_of(j) && a.entry_of(j) == c.entry_of(j) && item_len(a.data(), a.addr(j))
            == item_len(c.data(), c.addr(j)) by {
            assert(a.slot_ok(j));
            let t = a.seg_of(j);
            let aj = a.addr(j);
            let e = aj + item_len(a.data(), aj);
            assert(a.write_offset(t) <= ss);
            lemma_addr(t, ss, a.offset_of(j), a.nsegs());
            if t == s {
                assert(e <= s * ss + o);
            } else {
                lemma_seg_disjoint(t, s, ss);
                assert(a.offset_of(j) + item_len(a.data(), aj) <= ss);
            }
            assert forall|i: int| aj <= i < e implies a.data()[i] == c.data()[i] by {}
            lemma_item_frame(a.data(), c.data(), aj, e);
            Seg::lemma_in_chain_frame(a, c, t);
        }
        assert forall|j: int| #[trigger] c.occupied(j) implies c.slot_ok(j) by {
            assert(a.occupied(j));
        }
        assert forall|j1: int, j2: int|
            c.occupied(j1) && c.occupied(j2) && j1 != j2 implies #[trigger] c.key_of(j1)
            != #[trigger] c.key_of(j2) by {
            assert(a.occupied(j1));
            assert(a.occupied(j2));
            assert(a.key_of(j1) != a.key_of(j2));
        }
        Seg::lemma_indexed_frame(a, c);
        assert(c.inv());
        assert forall|j: int| #[trigger] a.occupied(j) == c.occupied(j) by {}
        Seg::lemma_model_eq(a, c);
        assert forall|j: int| #[trigger] c.occupied(j) && c.seg_of(j) == s implies c.offset_of(j)
            + item_len(c.data(), c.addr(j)) <= o by {
            assert(a.occupied(j));
        }
    }

    /// The index stays right when slot `i` is pointed into a segment and
    /// listed among its members, the other slots that hold items keeping
    /// their segments.
    proof fn lemma_indexed_push(c: &Seg, d: &Seg, i: int)
        requires
            c.inv(),
            0 <= i <= usize::MAX,
            d.nsegs() == c.nsegs(),
            0 <= d.seg_of(i) < d.nsegs(),
            forall|j: int| #[trigger] d.occupied(j) && j != i ==> c.occupied(j) && d.seg_of(j)
                == c.seg_of(j),
            d.members@.len() == c.members@.len(),
            forall|t: int|
                0 <= t < c.members@.len() && t != d.seg_of(i) ==> #[trigger] d.members@[t]
                    == c.members@[t],
            d.members@[d.seg_of(i)]@ == c.members@[d.seg_of(i)]@.push(i as usize),
        ensures
            d.indexed(),
    {
        assert forall|j: int| #[trigger] d.occupied(j) implies d.members@[d.seg_of(j)]@.contains(
            j as usize,
        ) by {
            let t = d.seg_of(i);
            if j == i {
                assert(d.members@[t]@[d.members@[t]@.len() - 1] == i as usize);
            } else {
                assert(c.occupied(j));
                assert(c.slot_ok(j));
                assert(c.members@[c.seg_of(j)]@.contains(j as usize));
                if c.seg_of(j) == t {
                    let q = choose|q: int|
                        0 <= q < c.members@[t]@.len() && c.members@[t]@[q] == j as usize;
                    assert(d.members@[t]@[q] == j as usize);
                }
            }
        }
    }

    /// Facts about pointing slot `i` of the bucket of `k` to a new item of
    /// key `k`, the slot having held `k` or been empty, and bumping the
    /// bucket's CAS value.
    #[verifier::spinoff_prover]
    #[verifier::rlimit(40)]
    proof fn lemma_after_index(c: &Seg, d: &Seg, i: int, k: Seq<u8>, cas: u64)
        requires
            c.inv(),
            i <= usize::MAX,
            c.holds(i, k) || (!c.occupied(i) && !c@.contains_key(k)),
            0 <= i < c.slots().len(),
            i % 8 != 0,
            i / 8 == c.bucket_of(k),
            cas < 0x1_0000_0000,
            d.segments == c.segments,
            d.ttl_buckets == c.ttl_buckets,
            d.hashtable.power == c.hashtable.power,
            d.hashtable.nbuckets == c.hashtable.nbuckets,
            d.slots() == c.slots().update(i, d.slots()[i]).update(c.bucket_of(k) * 8, cas),
            d.occupied(i),
            d.seg_of(i) < d.nsegs(),
            d.in_chain(d.seg_of(i)),
            item_fits(d.data(), d.addr(i)),
            d.offset_of(i) + item_len(d.data(), d.addr(i)) <= d.write_offset(d.seg_of(i)),
            d.key_of(i) == k,
            info_tag(d.slots()[i]) == tag_of(hash_spec(k)),
            d.members@.len() == c.members@.len(),
            forall|t: int|
                0 <= t < c.members@.len() && t != d.seg_of(i) ==> #[trigger] d.members@[t]
                    == c.members@[t],
            d.members@[d.seg_of(i)]@ == c.members@[d.seg_of(i)]@.push(i as usize),
        ensures
            d.inv(),
            d@ == c@.insert(k, d.entry_of(i)),
    {
        let b = c.bucket_of(k);
        assert forall|j: int| #[trigger] d.occupied(j) && j != i implies c.occupied(j) && d.seg_of(j)
            == c.seg_of(j) by {}
        Seg::lemma_indexed_push(c, d, i);
        assert forall|j: int| #[trigger] d.occupied(j) implies d.slot_ok(j) by {
            if j != i {
                assert(c.occupied(j));
                assert(c.slot_ok(j));
                Seg::lemma_in_chain_frame(c, d, c.seg_of(j));
            }
        }
        assert forall|j1: int, j2: int|
            d.occupied(j1) && d.occupied(j2) && j1 != j2 implies #[trigger] d.key_of(j1)
            != #[trigger] d.key_of(j2) by {
            if j1 != i && j2 != i {
                assert(c.key_of(j1) != c.key_of(j2));
            } else if j1 == i {
                assert(c.occupied(j2));
                if c.holds(i, k) {
                    assert(c.key_of(j2) != c.key_of(i));
                } else {
                    assert(!c.holds(j2, k));
                }
            } else {
                assert(c.occupied(j1));
                if c.holds(i, k) {
                    assert(c.key_of(j1) != c.key_of(i));
                } else {
                    assert(!c.holds(j1, k));
                }
            }
        }
        assert forall|bb: int| 0 <= bb < d.nbuckets() implies #[trigger] d.slots()[bb * 8]
            < 0x1_0000_0000_0000 by {
            if bb != b {
                assert(c.slots()[bb * 8] < 0x1_0000_0000_0000);
            }
        }
        assert(d.inv());
        assert(d.holds(i, k));
        d.lemma_holds_model(i, k);
        assert forall|k2: Seq<u8>| k2 != k && #[trigger] c@.contains_key(k2) implies d@.contains_key(
            k2,
        ) && d@[k2] == c@[k2] by {
            let j = choose|j: int| c.holds(j, k2);
            c.lemma_holds_model(j, k2);
            assert(j != i);
            assert(d.holds(j, k2));
            d.lemma_holds_model(j, k2);
        }
        assert forall|k2: Seq<u8>| #[trigger] d@.contains_key(k2) && k2 != k implies c@.contains_key(
            k2,
        ) by {
            let j = choose|j: int| d.holds(j, k2);
            assert(j != i);
            assert(c.holds(j, k2));
        }
        assert(d@ =~= c@.insert(k, d.entry_of(i)));
    }
}


impl Seg {
    /// Writes an item at offset `o` of segment `s`, whose room was reserved,
    /// and indexes it in the hash table, replacing the item of the same key.
    /// Returns `false`, leaving the key out of the cache, when the key's
    /// bucket has no free slot.
    fn link_item(
        &mut self,
        s: u32,
        o: u32,
        key: &[u8],
        value: &[u8],
        optional: &[u8],
        h: u64,
    ) -> (ok: bool)
        requires
            old(self).inv(),
            s < old(self).nsegs(),
            old(self).in_chain(s as int),
            o % 8 == 0,
            o + 5 + key@.len() + value@.len() + optional@.len() <= old(self).write_offset(s as int),
            old(self).items_below(s as int, o as int),
            key@.len() <= MAX_KEY_LEN,
            optional@.len() <= MAX_OPTIONAL_LEN,
            value@.len() < 0x100_0000,
            h == hash_spec(key@),
        ensures
            final(self).inv(),
            same_config(old(self), final(self)),
            final(self).segments.free_q == old(self).segments.free_q,
            final(self).segments.headers == old(self).segments.headers,
            final(self).ttl_buckets == old(self).ttl_buckets,
            ok ==> final(self)@ == old(self)@.insert(
                key@,
                Entry { value: value@, optional: optional@, freq: 0 },
            ),
            ok ==> final(self).seg_of_key(key@) == s,
            ok ==> forall|k2: Seq<u8>| #[trigger]
                final(self).cas_of(k2) == if old(self).bucket_of(k2) == old(self).bucket_of(key@) {
                    next_cas(old(self).cas_of(k2))
                } else {
                    old(self).cas_of(k2)
                },
            !ok ==> final(self)@ == old(self)@ && same_cas(old(self), final(self))
                && !final(self)@.contains_key(key@) && final(self).bucket_full(key@)
                && final(self).hashtable == old(self).hashtable,
    {
        let ss = self.segments.segment_size as usize;
        let dlen = self.segments.data.len();
        let ghost len: int = (5 + key@.len() + value@.len() + optional@.len()) as int;
        proof {
            assert(old(self).write_offset(s as int) <= old(self).seg_size());
            lemma_addr(s as int, ss as int, old(self).write_offset(s as int), old(self).nsegs());
        }
        let addr = (s as usize) * ss + (o as usize);
        let ghost a = *self;
        write_item(&mut self.segments.data, addr, key, value, optional);
        proof {
            Seg::lemma_after_write(&a, self, s as int, o as int, len);
        }
        let ghost c = *self;
        let nb = self.hashtable.nbuckets;
        let slen = self.hashtable.slots.len();
        let b = (h % (nb as u64)) as usize;
        let slot: usize = match self.find(key, h) {
            Some(i) => i,
            None => {
                let mut j: usize = 1;
                let mut found: usize = 0;
                while j < 8
                    invariant_except_break
                        found == 0,
                    invariant
                        *self == c,
                        c.inv(),
                        b == c.bucket_of(key@),
                        b < nb,
                        nb == c.nbuckets(),
                        slen == c.slots().len(),
                        1 <= j <= 8,
                        forall|jj: int| 1 <= jj < j ==> #[trigger] c.occupied(b * 8 + jj),
                    ensures
                        found == 0 ==> forall|jj: int| 1 <= jj < 8 ==> #[trigger] c.occupied(b * 8 + jj),
                        found != 0 ==> found % 8 != 0 && found / 8 == b && !c.occupied(found as int)
                            && found < c.slots().len(),
                    decreases 8 - j,
                {
                    if self.hashtable.slots[b * 8 + j] == 0 {
                        found = b * 8 + j;
                        break;
                    }
                    j = j + 1;
                }
                if found == 0 {
                    return false;
                }
                found
            },
        };
        let t = tag(h);
        let x = pack(t, 0, s as u64, (o / 8) as u64);
        let cas = self.hashtable.slots[b * 8] as u32;
        let cas2: u64 = if cas < u32::MAX {
            (cas + 1) as u64
        } else {
            0
        };
        self.hashtable.slots.set(slot, x);
        self.hashtable.slots.set(b * 8, cas2);
        self.members[s as usize].push(slot);
        proof {
            assert(self.addr(slot as int) == addr);
            Seg::lemma_in_chain_frame(&c, self, s as int);
            Seg::lemma_after_index(&c, self, slot as int, key@, cas2);
            assert(self.holds(slot as int, key@));
            self.lemma_holds_model(slot as int, key@);
            assert(self.entry_of(slot as int) == Entry { value: value@, optional: optional@, freq: 0 });
            assert forall|k2: Seq<u8>| #[trigger]
                self.cas_of(k2) == if old(self).bucket_of(k2) == old(self).bucket_of(key@) {
                    next_cas(old(self).cas_of(k2))
                } else {
                    old(self).cas_of(k2)
                } by {
                assert(old(self).slots()[old(self).bucket_of(k2) * 8] == c.slots()[c.bucket_of(k2) * 8]);
            }
        }
        true
    }
}


/// Number of times an insert tries to reserve room before giving up.
pub const RESERVE_RETRIES: usize = 3;

pub proof fn lemma_shrunk_trans(a: Map<Seq<u8>, Entry>, b: Map<Seq<u8>, Entry>, c: Map<Seq<u8>, Entry>)
    requires
        shrunk(a, b),
        shrunk(b, c),
    ensures
        shrunk(a, c),
{
    assert forall|k: Seq<u8>| #[trigger] c.contains_key(k) implies a.contains_key(k) && c[k] == a[k] by {
        assert(b.contains_key(k));
    }
}

/// The bytes of an optional slice, none being empty.
pub open spec fn optional_view(optional: Option<&[u8]>) -> Seq<u8> {
    match optional {
        Some(o) => o@,
        None => Seq::empty(),
    }
}

/// An item with these lengths cannot be stored in segments of `ss` bytes.
pub open spec fn oversized(klen: nat, vlen: nat, olen: nat, ss: int) -> bool {
    klen > MAX_KEY_LEN || olen > MAX_OPTIONAL_LEN || item_size_spec(klen, vlen, olen) > ss
}

/// The size reported for an item that is too large, saturating.
pub open spec fn reported_size(klen: nat, vlen: nat, olen: nat) -> nat {
    if item_size_spec(klen, vlen, olen) <= usize::MAX {
        item_size_spec(klen, vlen, olen)
    } else {
        usize::MAX as nat
    }
}

/// The bucket of the items with a time-to-live of `secs` seconds, which
/// saturates at `u32::MAX`.
pub open spec fn ttl_bucket(secs: u64) -> int {
    bucket_index_spec(if secs > u32::MAX { u32::MAX } else { secs as u32 })
}

/// The keys of `a` other than `key` are in `b`, with the same entries,
/// except those whose item was in segment `s`.
pub open spec fn kept_but(a: &Seg, b: &Seg, key: Seq<u8>, s: int) -> bool {
    &&& forall|k: Seq<u8>|
        k != key ==> (#[trigger] b@.contains_key(k) <==> a@.contains_key(k) && a.seg_of_key(k) != s)
    &&& forall|k: Seq<u8>| k != key && #[trigger] b@.contains_key(k) ==> b@[k] == a@[k]
}

/// No segment has to be evicted to make room for `size` bytes in bucket
/// `tb`: eviction is off, or the chain's last segment has room, or a segment
/// is free.
pub open spec fn needs_no_eviction(a: &Seg, tb: int, size: int) -> bool {
    ||| a.segments.evict_policy == Policy::NoEviction
    ||| a.tail_room(tb, size)
    ||| a.free_q().len() > 0
}

/// How room was found for `size` bytes in bucket `tb` at time `now`, from
/// the cache `a` to the cache `b`, and what became of the keys other than
/// `key`. When no eviction is needed, the room was reserved in `a` and the
/// other keys are kept. Otherwise one segment that the policy allows to
/// evict went back to the free queue, taking its items with it, and the
/// room was reserved in what was left.
pub open spec fn placed(a: &Seg, b: &Seg, key: Seq<u8>, tb: int, size: int, now: u32) -> bool {
    if needs_no_eviction(a, tb, size) {
        &&& Seg::reserved(a, b, tb, size, now)
        &&& b@.remove(key) == a@.remove(key)
    } else {
        exists|e: Seg, vb: int, vp: int|
            #![trigger a.victim(vb, vp), Seg::evicted_at(a, &e, vb, vp)]
            a.victim(vb, vp) && Seg::evicted_at(a, &e, vb, vp) && Seg::reserved(&e, b, tb, size, now)
                && kept_but(a, b, key, a.chain(vb)[vp] as int)
    }
}

/// The keys other than `key` that a cache `d` holds are those that an
/// eviction of segment `v` left in `e`.
pub proof fn lemma_kept_but(a: &Seg, e: &Seg, d: &Seg, key: Seq<u8>, v: int)
    requires
        Seg::evicted(a, e, v),
        d@.remove(key) == e@.remove(key),
    ensures
        kept_but(a, d, key, v),
{
    assert forall|k: Seq<u8>|
        k != key implies (#[trigger] d@.contains_key(k) <==> a@.contains_key(k) && a.seg_of_key(k)
        != v) by {
        assert(d@.remove(key).contains_key(k) == d@.contains_key(k));
        assert(e@.remove(key).contains_key(k) == e@.contains_key(k));
    }
    assert forall|k: Seq<u8>| k != key && #[trigger] d@.contains_key(k) implies d@[k] == a@[k] by {
        assert(d@.remove(key).contains_key(k));
        assert(d@.remove(key)[k] == d@[k]);
        assert(e@.remove(key)[k] == e@[k]);
    }
}

/// What an insert of `key` with `value`, `optional` and a time-to-live of
/// `secs` seconds promises, from the cache `a` to the cache `b`, of its
/// result `r`.
pub open spec fn insert_post(
    a: &Seg,
    b: &Seg,
    key: Seq<u8>,
    value: Seq<u8>,
    optional: Seq<u8>,
    secs: u64,
    now: u32,
    r: Result<(), SegError>,
) -> bool {
    let tb = ttl_bucket(secs);
    let size = item_size_spec(key.len(), value.len(), optional.len()) as int;
    &&& b.inv()
    &&& same_config(a, b)
    &&& (oversized(key.len(), value.len(), optional.len(), a.seg_size()) <==> r matches Err(
        SegError::ItemOversized { .. },
    ))
    &&& match r {
        Ok(()) => {
            &&& b@.contains_key(key)
            &&& b@[key] == Entry { value, optional, freq: 0 }
            &&& b.chain(ttl_bucket(secs)).contains(b.seg_of_key(key) as u32)
            &&& b.segments.headers@[b.seg_of_key(key)].ttl == bucket_ttl_spec(ttl_bucket(secs))
            &&& b.seg_of_key(key) == b.chain(tb).last()
            &&& shrunk(a@.remove(key), b@.remove(key))
            &&& placed(a, b, key, tb, size, now)
            &&& forall|k2: Seq<u8>| #[trigger]
                b.cas_of(k2) == if a.bucket_of(k2) == a.bucket_of(key) {
                    next_cas(a.cas_of(k2))
                } else {
                    a.cas_of(k2)
                }
        },
        Err(SegError::ItemOversized { size, key: k }) => {
            &&& k@ == key
            &&& size == reported_size(key.len(), value.len(), optional.len())
            &&& *b == *a
        },
        Err(SegError::NoFreeSegments) => {
            &&& *b == *a
            &&& a.free_q().len() == 0
            &&& !a.tail_room(tb, size)
            &&& !(a.segments.evict_policy != Policy::NoEviction && a.has_candidate())
        },
        Err(SegError::HashTableInsertEx) => {
            &&& shrunk(a@, b@)
            &&& needs_no_eviction(a, tb, size) ==> b@ == a@
            &&& placed(a, b, key, tb, size, now)
            &&& same_cas(a, b)
            &&& !b@.contains_key(key)
            &&& b.bucket_full(key)
            &&& needs_no_eviction(a, tb, size) ==> a.bucket_full(key)
        },
        Err(_) => false,
    }
}

impl Seg {
    /// Insert a new item into the cache. May return an error indicating that
    /// the insert was not successful.
    ///
    /// An item that does not fit in a segment is refused with
    /// `ItemOversized`. So is an item whose key is longer than
    /// `MAX_KEY_LEN` bytes or whose optional data is longer than
    /// `MAX_OPTIONAL_LEN` bytes, though it would fit: the item header
    /// records the key length in a single byte and allows the optional data
    /// length six bits, so a longer one could not be stored and read back.
    pub fn insert<'a>(
        &mut self,
        key: &'a [u8],
        value: &[u8],
        optional: Option<&[u8]>,
        ttl: std::time::Duration,
    ) -> (r: Result<(), SegError<'a>>)
        requires
            old(self).inv(),
        ensures
            exists|d: std::time::Duration|
                insert_post(
                    old(self),
                    final(self),
                    key@,
                    value@,
                    optional_view(optional),
                    duration_secs(ttl),
                    Seg::saturated_secs(#[trigger] duration_secs(d)),
                    r,
                ),
    {
        let now = self.now();
        let ghost d = choose|d: std::time::Duration| now == Seg::saturated_secs(duration_secs(d));
        let r = self.insert_at(key, value, optional, ttl, now);
        proof {
            assert(insert_post(
                old(self),
                self,
                key@,
                value@,
                optional_view(optional),
                duration_secs(ttl),
                Seg::saturated_secs(duration_secs(d)),
                r,
            ));
        }
        r
    }

    /// Inserts an item as `insert` does, with `now` as the time on the
    /// cache's clock: a segment taken for the item is created at `now`, or
    /// at the creation time of the segment before it in its chain if that
    /// is later.
    pub fn insert_at<'a>(
        &mut self,
        key: &'a [u8],
        value: &[u8],
        optional: Option<&[u8]>,
        ttl: std::time::Duration,
        now: u32,
    ) -> (r: Result<(), SegError<'a>>)
        requires
            old(self).inv(),
        ensures
            insert_post(
                old(self),
                final(self),
                key@,
                value@,
                optional_view(optional),
                duration_secs(ttl),
                now,
                r,
            ),
    {
        let ttl_secs = whole_secs(&ttl);
        self.insert_secs(key, value, optional, ttl_secs, now)
    }

    /// Inserts an item as `insert_at` does, with a time to live of
    /// `ttl_secs` whole seconds.
    pub fn insert_secs<'a>(
        &mut self,
        key: &'a [u8],
        value: &[u8],
        optional: Option<&[u8]>,
        ttl_secs: u64,
        now: u32,
    ) -> (r: Result<(), SegError<'a>>)
        requires
            old(self).inv(),
        ensures
            insert_post(
                old(self),
                final(self),
                key@,
                value@,
                optional_view(optional),
                ttl_secs,
                now,
                r,
            ),
    {
        // default optional data is empty
        let opt: &[u8] = match optional {
            Some(o) => o,
            None => &[],
        };
        proof {
            assert(opt@ == optional_view(optional));
        }
        // calculate size for item
        let size = item_size(key.len(), value.len(), opt.len());
        if key.len() > MAX_KEY_LEN || opt.len() > MAX_OPTIONAL_LEN || size
            > self.segments.segment_size as usize {
            return Err(SegError::ItemOversized { size, key });
        }
        let clamped: u32 = if ttl_secs > u32::MAX as u64 {
            u32::MAX
        } else {
            ttl_secs as u32
        };
        let b = bucket_index(clamped);
        let h = hash(key);
        proof {
            assert(size % 8 == 0 && size >= 5 + key@.len() + value@.len() + opt@.len());
            assert(size == item_size_spec(key@.len(), value@.len(), opt@.len()));
            assert(b == ttl_bucket(ttl_secs));
        }
        // try to get room for the item
        let mut retries: usize = RESERVE_RETRIES;
        let mut reserved: (u32, u32) = (0, 0);
        let ghost mut ev: bool = false;
        let ghost mut e: Seg = *self;
        let ghost mut vb: int = 0;
        let ghost mut vp: int = 0;
        loop
            invariant_except_break
                retries == 1 || retries == 3,
                !ev ==> *self == *old(self),
                ev ==> *self == e && self.free_q().len() > 0,
            invariant
                ev ==> !needs_no_eviction(old(self), b as int, size as int) && old(self).victim(vb, vp)
                    && Seg::evicted(old(self), &e, old(self).chain(vb)[vp] as int) && Seg::evicted_at(
                    old(self),
                    &e,
                    vb,
                    vp,
                ),
                self.inv(),
                same_config(old(self), self),
                same_cas(old(self), self),
                shrunk(old(self)@, self@),
                b < MAX_N_TTL_BUCKET,
                size <= self.seg_size(),
                size % 8 == 0,
                size >= 5 + key@.len() + value@.len() + opt@.len(),
                opt@ == optional_view(optional),
                !oversized(key@.len(), value@.len(), opt@.len(), old(self).seg_size()),
                size as int == item_size_spec(key@.len(), value@.len(), opt@.len()),
                b as int == ttl_bucket(ttl_secs),
            ensures
                !ev ==> self@ == old(self)@,
                !ev ==> self.hashtable == old(self).hashtable,
                !ev ==> Seg::reserved(old(self), self, b as int, size as int, now),
                ev ==> self@ == e@ && Seg::reserved(&e, self, b as int, size as int, now),
                reserved.0 == self.chain(b as int).last(),
                reserved.0 < self.nsegs(),
                self.in_chain(reserved.0 as int),
                self.chain(b as int).contains(reserved.0),
                self.write_offset(reserved.0 as int) == reserved.1 + size,
                reserved.1 % 8 == 0,
                self.items_below(reserved.0 as int, reserved.1 as int),
            decreases retries * 2 + (if self.free_q().len() == 0 {
                1int
            } else {
                0int
            }),
        {
            let ghost before = *self;
            match self.reserve(b, size as u32, now) {
                Ok(res) => {
                    reserved = res;
                    proof {
                        assert forall|bb: int| 0 <= bb < old(self).nbuckets() implies #[trigger] self.slots()[bb * 8]
                            == old(self).slots()[bb * 8] by {
                            assert(before.slots()[bb * 8] == old(self).slots()[bb * 8]);
                        }
                    }
                    break ;
                },
                Err(_) => {
                    let ghost mid = *self;
                    if !self.evict() {
                        retries = retries - 1;
                    } else {
                        proof {
                            let (wb, wp) = choose|wb: int, wp: int| #[trigger]
                                mid.victim(wb, wp) && Seg::evicted(&mid, self, mid.chain(wb)[wp] as int)
                                    && Seg::evicted_at(&mid, self, wb, wp);
                            ev = true;
                            e = *self;
                            vb = wb;
                            vp = wp;
                            lemma_shrunk_trans(old(self)@, mid@, self@);
                            assert forall|bb: int| 0 <= bb < old(self).nbuckets() implies #[trigger] self.slots()[bb * 8]
                                == old(self).slots()[bb * 8] by {
                                assert(mid.slots()[bb * 8] == old(self).slots()[bb * 8]);
                            }
                        }
                        continue ;
                    }
                },
            }
            if retries == 0 {
                return Err(SegError::NoFreeSegments);
            }
            retries = retries - 1;
        }
        let (s, o) = reserved;
        let ghost c = *self;
        if self.link_item(s, o, key, value, opt, h) {
            proof {
                assert forall|k2: Seq<u8>| #[trigger]
                    self@.remove(key@).contains_key(k2) implies old(self)@.remove(key@).contains_key(k2)
                    && self@.remove(key@)[k2] == old(self)@.remove(key@)[k2] by {
                    assert(c@.contains_key(k2));
                }
                assert forall|k2: Seq<u8>| #[trigger]
                    self.cas_of(k2) == if old(self).bucket_of(k2) == old(self).bucket_of(key@) {
                        next_cas(old(self).cas_of(k2))
                    } else {
                        old(self).cas_of(k2)
                    } by {
                    assert(c.cas_of(k2) == old(self).cas_of(k2));
                }
                assert(self@.remove(key@) =~= c@.remove(key@));
                if ev {
                    lemma_kept_but(old(self), &e, self, key@, old(self).chain(vb)[vp] as int);
                    assert(Seg::reserved(&e, self, b as int, size as int, now));
                } else {
                    assert(self@.remove(key@) =~= old(self)@.remove(key@));
                    assert(Seg::reserved(old(self), self, b as int, size as int, now));
                }
                let p = choose|p: int|
                    0 <= p < self.chain(b as int).len() && self.chain(b as int)[p] == s;
                assert(self.segments.headers@[self.chain(b as int)[p] as int].ttl
                    == self.ttl_buckets.buckets@[b as int].ttl);
            }
            Ok(())
        } else {
            proof {
                lemma_shrunk_trans(old(self)@, c@, self@);
                assert forall|bb: int| 0 <= bb < old(self).nbuckets() implies #[trigger] self.slots()[bb * 8]
                    == old(self).slots()[bb * 8] by {
                    assert(c.slots()[bb * 8] == old(self).slots()[bb * 8]);
                }
                if ev {
                    assert(self@.remove(key@) =~= c@.remove(key@));
                    lemma_kept_but(old(self), &e, self, key@, old(self).chain(vb)[vp] as int);
                    assert(Seg::reserved(&e, self, b as int, size as int, now));
                } else {
                    assert(Seg::reserved(old(self), self, b as int, size as int, now));
                }
                if needs_no_eviction(old(self), b as int, size as int) {
                    assert(!ev);
                    assert(self.hashtable == old(self).hashtable);
                    assert forall|j: int| 1 <= j < 8 implies #[trigger] old(self).occupied(
                        old(self).bucket_of(key@) * 8 + j,
                    ) by {
                        assert(self.occupied(self.bucket_of(key@) * 8 + j));
                    }
                }
            }
            Err(SegError::HashTableInsertEx)
        }
    }
}


impl Seg {
    /// Checks that `key` is in the cache with CAS value `cas`.
    fn try_update_cas<'a>(&self, key: &'a [u8], cas: u32) -> (r: Result<(), SegError<'a>>)
        requires
            self.inv(),
        ensures
            match r {
                Ok(()) => self@.contains_key(key@) && self.cas_of(key@) == cas,
                Err(SegError::NotFound) => !self@.contains_key(key@),
                Err(SegError::Exists) => self@.contains_key(key@) && self.cas_of(key@) != cas,
                Err(_) => false,
            },
    {
        let h = hash(key);
        match self.find(key, h) {
            None => Err(SegError::NotFound),
            Some(i) => {
                proof {
                    self.lemma_holds_model(i as int, key@);
                }
                let b = i / 8;
                if self.hashtable.slots[b * 8] as u32 == cas {
                    Ok(())
                } else {
                    Err(SegError::Exists)
                }
            },
        }
    }

    /// What a CAS of `key` with the value `cas` promises, from the cache
    /// `a` to the cache `b`, of its result `r`: a missing key or a stale
    /// value leaves the cache as it was; otherwise the item is inserted.
    pub open spec fn cas_post(
        a: &Seg,
        b: &Seg,
        key: Seq<u8>,
        value: Seq<u8>,
        optional: Seq<u8>,
        secs: u64,
        now: u32,
        cas: u32,
        r: Result<(), SegError>,
    ) -> bool {
        &&& !a@.contains_key(key) ==> (r matches Err(SegError::NotFound)) && *b == *a
        &&& a@.contains_key(key) && a.cas_of(key) != cas ==> (r matches Err(SegError::Exists))
            && *b == *a
        &&& a@.contains_key(key) && a.cas_of(key) == cas ==> insert_post(
            a,
            b,
            key,
            value,
            optional,
            secs,
            now,
            r,
        )
    }

    /// Performs a CAS operation, inserting the item only if the CAS value
    /// matches the current value for that item.
    pub fn cas<'a>(
        &mut self,
        key: &'a [u8],
        value: &[u8],
        optional: Option<&[u8]>,
        ttl: std::time::Duration,
        cas: u32,
    ) -> (r: Result<(), SegError<'a>>)
        requires
            old(self).inv(),
        ensures
            exists|d: std::time::Duration|
                Seg::cas_post(
                    old(self),
                    final(self),
                    key@,
                    value@,
                    optional_view(optional),
                    duration_secs(ttl),
                    Seg::saturated_secs(#[trigger] duration_secs(d)),
                    cas,
                    r,
                ),
    {
        let now = self.now();
        let ghost d = choose|d: std::time::Duration| now == Seg::saturated_secs(duration_secs(d));
        let r = match self.try_update_cas(key, cas) {
            Ok(()) => self.insert_at(key, value, optional, ttl, now),
            Err(e) => Err(e),
        };
        proof {
            assert(Seg::cas_post(
                old(self),
                self,
                key@,
                value@,
                optional_view(optional),
                duration_secs(ttl),
                now,
                cas,
                r,
            ));
            assert(Seg::cas_post(
                old(self),
                self,
                key@,
                value@,
                optional_view(optional),
                duration_secs(ttl),
                Seg::saturated_secs(duration_secs(d)),
                cas,
                r,
            ));
        }
        r
    }
}

} // verus!
