//! The cache: its structures, its invariant and its model as a map from
//! keys to entries, and reading, removing and counting items.

use crate::hashtable::{
    bucket_stamp, clear_recent, get_freq, get_seg, get_stamp, get_tag, hash, hash_spec, info_count, info_freq, info_offset, info_seg, info_tag, recent_cleared, restamp, restamp_spec, RECENT, lemma_info_bounds, pack, tag, tag_of, HashTable, MAX_FREQ,
};
use crate::error::SegError;
use crate::platform::{duration_secs, elapsed, instant_now, whole_secs};
use crate::item::{
    bytes_eq, item_fits, item_key, item_len, item_optional, item_value, read_bytes, Item,
};
use crate::platform::random_u32;
use crate::segments::{Policy, SegmentHeader, Segments, MAX_SEGMENTS, MAX_SEGMENT_SIZE};
use crate::builder::{
    Builder, Demolisher, DEFAULT_HASH_POWER, DEFAULT_HEAP_SIZE, DEFAULT_SEGMENT_SIZE,
};
use crate::ttl_buckets::{TtlBucket, TtlBuckets, MAX_N_TTL_BUCKET};
use crate::structure::{
    cas_slots_ok, segments_ok, chains_ok, chains_timed, lemma_chains_timed_eq, lemma_chains_ok_eq, lemma_addr,
};
use vstd::prelude::*;

verus! {

/// What the cache holds for a key.
pub ghost struct Entry {
    pub value: Seq<u8>,
    pub optional: Seq<u8>,
    /// How often the item was read, as far as the cache counts.
    pub freq: u64,
}

/// A pre-allocated key-value store with eager expiration. It uses a
/// segment-structured design that stores data in fixed-size segments, grouping
/// objects with nearby expiration time into the same segment, and lifting most
/// per-object metadata into the shared segment header.
pub struct Seg {
    pub hashtable: HashTable,
    pub segments: Segments,
    pub ttl_buckets: TtlBuckets,
    /// The above structures were restored from saved images.
    pub _restored: bool,
    /// The origin of the cache's clock.
    pub clock: std::time::Instant,
    /// For each segment, the hash slots that were pointed into it since it
    /// was last emptied; a slot may be listed after it moved elsewhere.
    pub members: Vec<Vec<usize>>,
}

/// `b` is `a` with some keys removed and the others unchanged.
pub open spec fn shrunk(a: Map<Seq<u8>, Entry>, b: Map<Seq<u8>, Entry>) -> bool {
    forall|k: Seq<u8>| #[trigger] b.contains_key(k) ==> a.contains_key(k) && b[k] == a[k]
}

/// How a read changes an item's frequency: below `MAX_FREQ` it may go up
/// by one (at most once a second, and above 16 only with some probability);
/// at `MAX_FREQ` it stays.
pub open spec fn freq_step(old_freq: u64, new_freq: u64) -> bool {
    if old_freq < MAX_FREQ {
        new_freq == old_freq + 1 || new_freq == old_freq
    } else {
        new_freq == old_freq
    }
}

/// The frequency of an item after a read, from its frequency `freq`
/// before, whether the read was already counted in the current second, and
/// the random draw `rnd`: it goes up by one when the read is not yet counted,
/// the frequency is below `MAX_FREQ`, and either it is at most 16 or `rnd`
/// is a multiple of it.
pub open spec fn freq_after_read(freq: u64, counted: bool, rnd: u32) -> u64 {
    if !counted && freq < MAX_FREQ && (freq <= 16 || rnd as u64 % freq == 0) {
        (freq + 1) as u64
    } else {
        freq
    }
}

/// The configuration of the cache and its recovery flags are the same.
pub open spec fn same_config(a: &Seg, b: &Seg) -> bool {
    &&& b.hashtable.power == a.hashtable.power
    &&& b.hashtable.nbuckets == a.hashtable.nbuckets
    &&& b.hashtable.table_copied_back == a.hashtable.table_copied_back
    &&& b.segments.segment_size == a.segments.segment_size
    &&& b.segments.headers@.len() == a.segments.headers@.len()
    &&& b.segments.evict_policy == a.segments.evict_policy
    &&& b.segments.datapool_path == a.segments.datapool_path
    &&& b.segments.fields_copied_back == a.segments.fields_copied_back
    &&& b.ttl_buckets.buckets_copied_back == a.ttl_buckets.buckets_copied_back
    &&& b._restored == a._restored
}

/// The CAS values of all buckets are the same.
pub open spec fn same_cas(a: &Seg, b: &Seg) -> bool {
    forall|bb: int| 0 <= bb < a.nbuckets() ==> #[trigger] b.slots()[bb * 8] == a.slots()[bb * 8]
}

impl Seg {
    #[verifier::inline]
    pub open spec fn slots(&self) -> Seq<u64> {
        self.hashtable.slots@
    }

    #[verifier::inline]
    pub open spec fn nbuckets(&self) -> int {
        self.hashtable.nbuckets as int
    }

    #[verifier::inline]
    pub open spec fn seg_size(&self) -> int {
        self.segments.segment_size as int
    }

    #[verifier::inline]
    pub open spec fn nsegs(&self) -> int {
        self.segments.headers@.len() as int
    }

    #[verifier::inline]
    pub open spec fn data(&self) -> Seq<u8> {
        self.segments.data@
    }

    #[verifier::inline]
    pub open spec fn write_offset(&self, s: int) -> int {
        self.segments.headers@[s].write_offset as int
    }

    #[verifier::inline]
    pub open spec fn free_q(&self) -> Seq<u32> {
        self.segments.free_q@
    }

    #[verifier::inline]
    pub open spec fn chain(&self, b: int) -> Seq<u32> {
        self.ttl_buckets.buckets@[b].segs@
    }

    /// Segment `s` is in the chain of some bucket.
    pub open spec fn in_chain(&self, s: int) -> bool {
        exists|b: int, p: int|
            0 <= b < MAX_N_TTL_BUCKET && 0 <= p < self.chain(b).len() && #[trigger] self.chain(
                b,
            )[p] == s
    }

    /// The bucket in which a key is indexed.
    pub open spec fn bucket_of(&self, k: Seq<u8>) -> int {
        hash_spec(k) as int % self.nbuckets()
    }

    /// Slot `i` holds an item.
    pub open spec fn occupied(&self, i: int) -> bool {
        0 <= i < self.slots().len() && i % 8 != 0 && self.slots()[i] != 0
    }

    pub open spec fn seg_of(&self, i: int) -> int {
        info_seg(self.slots()[i]) as int
    }

    pub open spec fn offset_of(&self, i: int) -> int {
        info_offset(self.slots()[i])
    }

    /// Where the item of slot `i` starts in the data pool.
    pub open spec fn addr(&self, i: int) -> int {
        self.seg_of(i) * self.seg_size() + self.offset_of(i)
    }

    pub open spec fn key_of(&self, i: int) -> Seq<u8> {
        item_key(self.data(), self.addr(i))
    }

    pub open spec fn entry_of(&self, i: int) -> Entry {
        Entry {
            value: item_value(self.data(), self.addr(i)),
            optional: item_optional(self.data(), self.addr(i)),
            freq: info_count(self.slots()[i]),
        }
    }

    /// What must hold of an occupied slot: it points into a segment in use,
    /// at an item written below the segment's write offset, and sits in the
    /// bucket of the item's key with the tag of the key's hash.
    pub open spec fn slot_ok(&self, i: int) -> bool {
        let x = self.slots()[i];
        &&& self.seg_of(i) < self.nsegs()
        &&& self.in_chain(self.seg_of(i))
        &&& item_fits(self.data(), self.addr(i))
        &&& self.offset_of(i) + item_len(self.data(), self.addr(i)) <= self.write_offset(
            self.seg_of(i),
        )
        &&& i / 8 == self.bucket_of(self.key_of(i))
        &&& info_tag(x) == tag_of(hash_spec(self.key_of(i)))
    }

    /// The shape of the structures and how segments are shared among the
    /// free queue and the buckets' chains.
    pub open spec fn structure_ok(&self) -> bool {
        &&& self.hashtable.shaped()
        &&& cas_slots_ok(self.hashtable.slots@, self.hashtable.nbuckets as int)
        &&& segments_ok(self.segments)
        &&& chains_ok(self.nsegs(), self.free_q(), self.ttl_buckets)
        &&& chains_timed(self.segments.headers@, self.ttl_buckets)
        &&& self.covered()
    }

    /// Every segment is free or in the chain of some bucket.
    pub open spec fn covered(&self) -> bool {
        forall|t: int|
            0 <= t < self.nsegs() ==> #[trigger] self.free_q().contains(t as u32) || self.in_chain(t)
    }

    /// Every slot that holds an item is listed among the members of the
    /// segment it points into.
    pub open spec fn indexed(&self) -> bool {
        &&& self.members@.len() == self.nsegs()
        &&& forall|j: int| #[trigger]
            self.occupied(j) ==> self.members@[self.seg_of(j)]@.contains(j as usize)
    }

    /// The invariant of the cache.
    pub open spec fn inv(&self) -> bool {
        &&& self.items_ok()
        &&& self.indexed()
    }

    /// The structures are consistent and every slot that holds an item
    /// points to a distinct item in a segment in use.
    pub open spec fn items_ok(&self) -> bool {
        &&& self.structure_ok()
        &&& forall|i: int| #[trigger] self.occupied(i) ==> self.slot_ok(i)
        &&& forall|i: int, j: int|
            #![trigger self.key_of(i), self.key_of(j)]
            self.occupied(i) && self.occupied(j) && i != j ==> self.key_of(i) != self.key_of(j)
    }

    /// Slot `i` holds the item of key `k`.
    pub open spec fn holds(&self, i: int, k: Seq<u8>) -> bool {
        self.occupied(i) && self.key_of(i) == k
    }

    /// The contents of the cache: each key mapped to its item.
    pub open spec fn model(&self) -> Map<Seq<u8>, Entry> {
        Map::new(
            |k: Seq<u8>| exists|i: int| self.holds(i, k),
            |k: Seq<u8>| self.entry_of(choose|i: int| self.holds(i, k)),
        )
    }

    /// The segment that holds the item of key `k`.
    pub open spec fn seg_of_key(&self, k: Seq<u8>) -> int {
        self.seg_of(choose|i: int| self.holds(i, k))
    }

    /// The CAS value of a key: that of the bucket the key is indexed in.
    pub open spec fn cas_of(&self, k: Seq<u8>) -> u32 {
        self.slots()[self.bucket_of(k) * 8] as u32
    }

    /// The slot that holds the item of key `k`.
    pub open spec fn slot_of_key(&self, k: Seq<u8>) -> int {
        choose|i: int| self.holds(i, k)
    }

    /// The second (modulo 2^16) last stamped on the bucket of key `k`.
    pub open spec fn stamp_of(&self, k: Seq<u8>) -> u64 {
        bucket_stamp(self.slots()[self.bucket_of(k) * 8])
    }

    /// The item of key `k` carries the mark of a read counted in the
    /// second stamped on its bucket.
    pub open spec fn read_marked(&self, k: Seq<u8>) -> bool {
        info_freq(self.slots()[self.slot_of_key(k)]) >= RECENT
    }

    /// A read of `k` at second `now` finds it already counted in that
    /// second.
    pub open spec fn counted_at(&self, k: Seq<u8>, now: u32) -> bool {
        self.stamp_of(k) == now as u64 % 0x1_0000 && self.read_marked(k)
    }
}

impl View for Seg {
    type V = Map<Seq<u8>, Entry>;

    open spec fn view(&self) -> Map<Seq<u8>, Entry> {
        self.model()
    }
}

impl Seg {
    /// If slot `i` holds `k`, the model maps `k` to the slot's entry.
    pub proof fn lemma_holds_model(&self, i: int, k: Seq<u8>)
        requires
            self.items_ok(),
            self.holds(i, k),
        ensures
            self@.contains_key(k),
            self@[k] == self.entry_of(i),
            (choose|j: int| self.holds(j, k)) == i,
    {
        let j = choose|j: int| self.holds(j, k);
        assert(self.holds(j, k));
        if j != i {
            assert(self.key_of(i) != self.key_of(j));
        }
    }

    /// Two caches whose occupied slots hold the same keys and entries have
    /// the same model.
    pub proof fn lemma_model_eq(a: &Seg, b: &Seg)
        requires
            a.items_ok(),
            b.items_ok(),
            forall|i: int| #[trigger] a.occupied(i) == b.occupied(i),
            forall|i: int|
                #[trigger] a.occupied(i) ==> a.key_of(i) == b.key_of(i) && a.entry_of(i)
                    == b.entry_of(i),
        ensures
            a@ == b@,
    {
        assert forall|k: Seq<u8>| #[trigger] a@.contains_key(k) implies b@.contains_key(k) && a@[k]
            == b@[k] by {
            let i = choose|i: int| a.holds(i, k);
            a.lemma_holds_model(i, k);
            assert(b.holds(i, k));
            b.lemma_holds_model(i, k);
        }
        assert forall|k: Seq<u8>| #[trigger] b@.contains_key(k) implies a@.contains_key(k) by {
            let i = choose|i: int| b.holds(i, k);
            assert(a.holds(i, k));
        }
        assert(a@ =~= b@);
    }

    /// A cache whose occupied slots are some of those of another, unchanged,
    /// holds some of its keys with unchanged entries.
    pub proof fn lemma_model_shrunk(a: &Seg, b: &Seg)
        requires
            a.items_ok(),
            b.items_ok(),
            forall|i: int|
                #[trigger] b.occupied(i) ==> a.occupied(i) && a.key_of(i) == b.key_of(i)
                    && a.entry_of(i) == b.entry_of(i),
        ensures
            shrunk(a@, b@),
    {
        assert forall|k: Seq<u8>| #[trigger] b@.contains_key(k) implies a@.contains_key(k) && b@[k]
            == a@[k] by {
            let i = choose|i: int| b.holds(i, k);
            b.lemma_holds_model(i, k);
            assert(a.holds(i, k));
            a.lemma_holds_model(i, k);
        }
    }

    /// Reads the data pool address of the item of an occupied slot.
    fn slot_addr(&self, i: usize) -> (a: usize)
        requires
            self.inv(),
            self.occupied(i as int),
        ensures
            a == self.addr(i as int),
            item_fits(self.data(), a as int),
    {
        let x = self.hashtable.slots[i];
        let s = get_seg(x) as usize;
        let dlen = self.segments.data.len();
        proof {
            lemma_info_bounds(x);
            assert(self.slot_ok(i as int));
            assert(self.write_offset(s as int) <= self.seg_size());
            lemma_addr(s as int, self.seg_size(), self.offset_of(i as int), self.nsegs());
        }
        let off = crate::hashtable::get_offset(x) as usize;
        s * (self.segments.segment_size as usize) + off
    }

    /// Tells whether the item of an occupied slot has key `key`.
    fn slot_has_key(&self, i: usize, key: &[u8]) -> (r: bool)
        requires
            self.inv(),
            self.occupied(i as int),
        ensures
            r == (self.key_of(i as int) == key@),
    {
        let a = self.slot_addr(i);
        let dlen = self.segments.data.len();
        let klen = self.segments.data[a] as usize;
        let olen = self.segments.data[a + 4] as usize;
        if klen != key.len() {
            return false;
        }
        bytes_eq(&self.segments.data, a + 5 + olen, key)
    }

    /// Finds the slot holding `key`, whose hash is `h`.
    pub(crate) fn find(&self, key: &[u8], h: u64) -> (r: Option<usize>)
        requires
            self.inv(),
            h == hash_spec(key@),
        ensures
            match r {
                Some(i) => self.holds(i as int, key@) && i as int / 8 == self.bucket_of(key@),
                None => !self@.contains_key(key@),
            },
    {
        let nb = self.hashtable.nbuckets;
        let slen = self.hashtable.slots.len();
        let b = (h % (nb as u64)) as usize;
        let t = tag(h);
        let mut j: usize = 1;
        while j < 8
            invariant
                self.inv(),
                h == hash_spec(key@),
                nb == self.nbuckets(),
                slen == self.slots().len(),
                b == self.bucket_of(key@),
                t == tag_of(h),
                1 <= j <= 8,
                forall|ii: int| b * 8 < ii < b * 8 + j ==> !#[trigger] self.holds(ii, key@),
            decreases 8 - j,
        {
            let i = b * 8 + j;
            let x = self.hashtable.slots[i];
            if x != 0 && get_tag(x) == t {
                if self.slot_has_key(i, key) {
                    return Some(i);
                }
            }
            j = j + 1;
        }
        proof {
            if self@.contains_key(key@) {
                let i = choose|i: int| self.holds(i, key@);
                assert(self.slot_ok(i));
                assert(b * 8 < i < b * 8 + 8);
            }
        }
        None
    }
}


impl Seg {
    /// Number of occupied slots below `n`.
    pub open spec fn count_below(&self, n: int) -> nat
        decreases n,
    {
        if n <= 0 {
            0
        } else if self.occupied(n - 1) {
            self.count_below(n - 1) + 1
        } else {
            self.count_below(n - 1)
        }
    }

    /// Keys held by the slots below `n`.
    pub open spec fn keys_below(&self, n: int) -> Set<Seq<u8>> {
        Set::new(|k: Seq<u8>| exists|i: int| 0 <= i < n && self.holds(i, k))
    }

    pub proof fn lemma_keys_below(&self, n: int)
        requires
            self.items_ok(),
            0 <= n <= self.slots().len(),
        ensures
            self.keys_below(n).finite(),
            self.keys_below(n).len() == self.count_below(n),
        decreases n,
    {
        if n == 0 {
            assert(self.keys_below(0) =~= Set::empty());
        } else {
            self.lemma_keys_below(n - 1);
            if self.occupied(n - 1) {
                let k = self.key_of(n - 1);
                assert(self.holds(n - 1, k));
                assert forall|k2: Seq<u8>| #[trigger] self.keys_below(n).contains(k2) == self.keys_below(
                    n - 1,
                ).insert(k).contains(k2) by {
                    if self.keys_below(n).contains(k2) && k2 != k {
                        let i = choose|i: int| 0 <= i < n && self.holds(i, k2);
                        assert(i != n - 1);
                        assert(self.keys_below(n - 1).contains(k2));
                    }
                    if self.keys_below(n - 1).contains(k2) {
                        let i = choose|i: int| 0 <= i < n - 1 && self.holds(i, k2);
                        assert(0 <= i < n && self.holds(i, k2));
                    }
                }
                assert(self.keys_below(n) =~= self.keys_below(n - 1).insert(k));
                assert(!self.keys_below(n - 1).contains(k)) by {
                    if self.keys_below(n - 1).contains(k) {
                        let i = choose|i: int| 0 <= i < n - 1 && self.holds(i, k);
                        assert(self.key_of(i) != self.key_of(n - 1));
                    }
                }
            } else {
                assert(self.keys_below(n) =~= self.keys_below(n - 1));
            }
        }
    }

    /// The number of keys in the cache is the number of occupied slots.
    pub proof fn lemma_len(&self)
        requires
            self.items_ok(),
        ensures
            self@.dom().finite(),
            self@.len() == self.count_below(self.slots().len() as int),
    {
        self.lemma_keys_below(self.slots().len() as int);
        assert(self@.dom() =~= self.keys_below(self.slots().len() as int));
    }

    /// Changing one occupied slot into another that points to the same item
    /// changes only that item's entry.
    pub proof fn lemma_model_update(a: &Seg, b: &Seg, i: int)
        requires
            a.items_ok(),
            b.items_ok(),
            a.occupied(i),
            forall|j: int| #[trigger] a.occupied(j) == b.occupied(j),
            forall|j: int| #[trigger] a.occupied(j) ==> a.key_of(j) == b.key_of(j),
            forall|j: int| #[trigger] a.occupied(j) && j != i ==> a.entry_of(j) == b.entry_of(j),
        ensures
            b@ == a@.insert(a.key_of(i), b.entry_of(i)),
    {
        let k = a.key_of(i);
        a.lemma_holds_model(i, k);
        assert(b.holds(i, k));
        b.lemma_holds_model(i, k);
        assert forall|k2: Seq<u8>| k2 != k && #[trigger] a@.contains_key(k2) implies b@.contains_key(
            k2,
        ) && b@[k2] == a@[k2] by {
            let j = choose|j: int| a.holds(j, k2);
            a.lemma_holds_model(j, k2);
            assert(b.holds(j, k2));
            b.lemma_holds_model(j, k2);
        }
        assert forall|k2: Seq<u8>| #[trigger] b@.contains_key(k2) implies a@.contains_key(k2) by {
            let j = choose|j: int| b.holds(j, k2);
            assert(a.holds(j, k2));
        }
        assert(b@ =~= a@.insert(k, b.entry_of(i)));
    }

    /// Emptying an occupied slot removes its key.
    pub proof fn lemma_model_remove(a: &Seg, b: &Seg, i: int)
        requires
            a.items_ok(),
            b.items_ok(),
            a.occupied(i),
            !b.occupied(i),
            forall|j: int| j != i ==> #[trigger] a.occupied(j) == b.occupied(j),
            forall|j: int|
                #[trigger] a.occupied(j) && j != i ==> a.key_of(j) == b.key_of(j) && a.entry_of(j)
                    == b.entry_of(j),
        ensures
            b@ == a@.remove(a.key_of(i)),
    {
        let k = a.key_of(i);
        assert forall|k2: Seq<u8>| k2 != k && #[trigger] a@.contains_key(k2) implies b@.contains_key(
            k2,
        ) && b@[k2] == a@[k2] by {
            let j = choose|j: int| a.holds(j, k2);
            a.lemma_holds_model(j, k2);
            assert(b.holds(j, k2));
            b.lemma_holds_model(j, k2);
        }
        assert forall|k2: Seq<u8>| #[trigger] b@.contains_key(k2) implies a@.contains_key(k2) && k2
            != k by {
            let j = choose|j: int| b.holds(j, k2);
            assert(a.holds(j, k2));
            if k2 == k {
                assert(a.key_of(i) != a.key_of(j));
            }
        }
        assert(b@ =~= a@.remove(k));
    }

    /// A cache that differs from one whose items are consistent only in its
    /// members and its flags holds the same items.
    pub proof fn lemma_items_frame(a: &Seg, c: &Seg)
        requires
            a.items_ok(),
            c.hashtable == a.hashtable,
            c.segments == a.segments,
            c.ttl_buckets == a.ttl_buckets,
        ensures
            c.items_ok(),
            c@ == a@,
            forall|k: Seq<u8>| #[trigger] a@.contains_key(k) ==> c.seg_of_key(k) == a.seg_of_key(k),
            forall|k: Seq<u8>| #[trigger] c.cas_of(k) == a.cas_of(k),
    {
        assert forall|j: int| #[trigger] c.occupied(j) implies c.slot_ok(j) by {
            assert(a.occupied(j));
            assert(a.slot_ok(j));
            if c.in_chain(c.seg_of(j)) {
            } else {
                Seg::lemma_in_chain_frame(a, c, a.seg_of(j));
            }
        }
        assert forall|j1: int, j2: int|
            c.occupied(j1) && c.occupied(j2) && j1 != j2 implies #[trigger] c.key_of(j1)
            != #[trigger] c.key_of(j2) by {
            assert(a.key_of(j1) != a.key_of(j2));
        }
        assert(c.items_ok());
        assert forall|j: int| #[trigger] a.occupied(j) == c.occupied(j) by {}
        Seg::lemma_model_eq(a, c);
        assert forall|k: Seq<u8>| #[trigger] a@.contains_key(k) implies c.seg_of_key(k)
            == a.seg_of_key(k) by {
            let i = choose|i: int| a.holds(i, k);
            a.lemma_holds_model(i, k);
            assert(c.holds(i, k));
            c.lemma_holds_model(i, k);
        }
    }

    /// The index stays right when the members are kept and each slot that
    /// holds an item held it before, pointing into the same segment.
    pub proof fn lemma_indexed_frame(a: &Seg, c: &Seg)
        requires
            a.indexed(),
            c.members@ == a.members@,
            c.nsegs() == a.nsegs(),
            forall|j: int| #[trigger] c.occupied(j) ==> a.occupied(j) && c.seg_of(j) == a.seg_of(j),
        ensures
            c.indexed(),
    {
        assert forall|j: int| #[trigger] c.occupied(j) implies c.members@[c.seg_of(j)]@.contains(
            j as usize,
        ) by {
            assert(a.occupied(j));
        }
    }

    pub proof fn lemma_in_chain_frame(a: &Seg, b: &Seg, s: int)
        requires
            a.in_chain(s),
            forall|bb: int| 0 <= bb < MAX_N_TTL_BUCKET ==> #[trigger] a.chain(bb) == b.chain(bb),
        ensures
            b.in_chain(s),
    {
        let (bb, p) = choose|bb: int, p: int|
            0 <= bb < MAX_N_TTL_BUCKET && 0 <= p < a.chain(bb).len() && #[trigger] a.chain(bb)[p]
                == s;
        assert(a.chain(bb) == b.chain(bb));
        assert(b.chain(bb)[p] == s);
    }

    /// A cache that differs from a valid one only in its item slots, each of
    /// which is either emptied or points to the same item as before, is
    /// valid, and its slots hold the same items.
    pub proof fn lemma_inv_slots_frame(a: &Seg, b: &Seg)
        requires
            b.members@ == a.members@,
            a.inv(),
            b.segments == a.segments,
            b.ttl_buckets == a.ttl_buckets,
            b.hashtable.power == a.hashtable.power,
            b.hashtable.nbuckets == a.hashtable.nbuckets,
            b.slots().len() == a.slots().len(),
            forall|bb: int| 0 <= bb < a.nbuckets() ==> #[trigger] b.slots()[bb * 8] == a.slots()[bb * 8],
            forall|j: int|
                #[trigger] b.occupied(j) ==> a.occupied(j) && info_tag(b.slots()[j]) == info_tag(
                    a.slots()[j],
                ) && info_seg(b.slots()[j]) == info_seg(a.slots()[j]) && info_offset(b.slots()[j])
                    == info_offset(a.slots()[j]),
        ensures
            b.inv(),
            forall|j: int|
                #[trigger] b.occupied(j) ==> b.key_of(j) == a.key_of(j) && b.entry_of(j).value
                    == a.entry_of(j).value && b.entry_of(j).optional == a.entry_of(j).optional,
    {
        Seg::lemma_indexed_frame(a, b);
        assert forall|j: int| #[trigger] b.occupied(j) implies b.slot_ok(j) by {
            assert(a.slot_ok(j));
            assert(b.addr(j) == a.addr(j));
            Seg::lemma_in_chain_frame(a, b, b.seg_of(j));
        }
        assert forall|j1: int, j2: int|
            b.occupied(j1) && b.occupied(j2) && j1 != j2 implies #[trigger] b.key_of(j1)
            != #[trigger] b.key_of(j2) by {
            assert(b.addr(j1) == a.addr(j1));
            assert(b.addr(j2) == a.addr(j2));
            assert(a.key_of(j1) != a.key_of(j2));
        }
        assert forall|bb: int| 0 <= bb < b.nbuckets() implies #[trigger] b.slots()[bb * 8]
            < 0x1_0000_0000_0000 by {
            assert(a.slots()[bb * 8] < 0x1_0000_0000_0000);
        }
        assert forall|j: int| #[trigger] b.occupied(j) implies b.key_of(j) == a.key_of(j)
            && b.entry_of(j).value == a.entry_of(j).value && b.entry_of(j).optional == a.entry_of(
            j,
        ).optional by {
            assert(b.addr(j) == a.addr(j));
        }
    }

    /// Copies out the item of an occupied slot.
    fn read_item(&self, i: usize, cas: u32) -> (item: Item)
        requires
            self.inv(),
            self.occupied(i as int),
        ensures
            item.key_view() == self.key_of(i as int),
            item.value_view() == self.entry_of(i as int).value,
            item.optional_view() == self.entry_of(i as int).optional,
            item.spec_cas() == cas,
    {
        let a = self.slot_addr(i);
        let dlen = self.segments.data.len();
        let klen = self.segments.data[a] as usize;
        let vlen = self.segments.data[a + 1] as usize + 256 * (self.segments.data[a + 2] as usize)
            + 65536 * (self.segments.data[a + 3] as usize);
        let olen = self.segments.data[a + 4] as usize;
        let optional = read_bytes(&self.segments.data, a + 5, olen);
        let key = read_bytes(&self.segments.data, a + 5 + olen, klen);
        let value = read_bytes(&self.segments.data, a + 5 + olen + klen, vlen);
        Item::new(cas, key, value, optional)
    }

    /// `c` holds the same items as `a` in the same slots, the bucket's CAS
    /// values and the items' read counts included; only the marks of the
    /// current second may differ.
    pub open spec fn same_items(a: &Seg, c: &Seg) -> bool {
        &&& c.segments == a.segments
        &&& c.ttl_buckets == a.ttl_buckets
        &&& c.hashtable.power == a.hashtable.power
        &&& c.hashtable.nbuckets == a.hashtable.nbuckets
        &&& c.hashtable.table_copied_back == a.hashtable.table_copied_back
        &&& c._restored == a._restored
        &&& c.clock == a.clock
        &&& c.members@ == a.members@
        &&& c.slots().len() == a.slots().len()
        &&& forall|bb: int|
            0 <= bb < a.nbuckets() ==> #[trigger] c.slots()[bb * 8] < 0x1_0000_0000_0000
                && c.slots()[bb * 8] as u32 == a.slots()[bb * 8] as u32
        &&& forall|j: int| #[trigger] c.occupied(j) == a.occupied(j)
        &&& forall|j: int|
            #[trigger] a.occupied(j) ==> info_tag(c.slots()[j]) == info_tag(a.slots()[j])
                && info_seg(c.slots()[j]) == info_seg(a.slots()[j]) && info_offset(c.slots()[j])
                == info_offset(a.slots()[j]) && info_count(c.slots()[j]) == info_count(
                a.slots()[j],
            )
    }

    /// A cache that holds the same items as a valid one is valid, with the
    /// same contents and CAS values.
    pub proof fn lemma_same_items(a: &Seg, c: &Seg)
        requires
            a.inv(),
            Seg::same_items(a, c),
        ensures
            c.inv(),
            c@ == a@,
            forall|k: Seq<u8>| #[trigger] c.cas_of(k) == a.cas_of(k),
            forall|j: int| #[trigger] c.occupied(j) ==> c.key_of(j) == a.key_of(j),
    {
        assert forall|j: int| #[trigger] c.occupied(j) implies c.slot_ok(j) && c.key_of(j) == a.key_of(j)
            && c.entry_of(j) == a.entry_of(j) by {
            assert(a.slot_ok(j));
            assert(c.addr(j) == a.addr(j));
            Seg::lemma_in_chain_frame(a, c, c.seg_of(j));
        }
        assert forall|j1: int, j2: int|
            c.occupied(j1) && c.occupied(j2) && j1 != j2 implies #[trigger] c.key_of(j1)
            != #[trigger] c.key_of(j2) by {
            assert(c.key_of(j1) == a.key_of(j1));
            assert(c.key_of(j2) == a.key_of(j2));
            assert(a.key_of(j1) != a.key_of(j2));
        }
        Seg::lemma_indexed_frame(a, c);
        assert(c.inv());
        Seg::lemma_model_eq(a, c);
        assert forall|k: Seq<u8>| #[trigger] c.cas_of(k) == a.cas_of(k) by {
            let bb = a.bucket_of(k);
            assert(0 <= bb < a.nbuckets());
        }
    }

    /// Stamps bucket `b` with the second `now`; when that is a new second
    /// for the bucket, clears the marks of its items.
    fn refresh_bucket(&mut self, b: usize, now: u32)
        requires
            old(self).inv(),
            b < old(self).nbuckets(),
        ensures
            Seg::same_items(old(self), final(self)),
            bucket_stamp(final(self).slots()[b * 8]) == now as u64 % 0x1_0000,
            bucket_stamp(old(self).slots()[b * 8]) == now as u64 % 0x1_0000 ==> final(self).slots()
                == old(self).slots(),
            bucket_stamp(old(self).slots()[b * 8]) != now as u64 % 0x1_0000 ==> {
                &&& final(self).slots()[b * 8] == restamp_spec(
                    old(self).slots()[b * 8],
                    now as u64 % 0x1_0000,
                )
                &&& forall|k: int|
                    1 <= k < 8 ==> #[trigger] final(self).slots()[b * 8 + k] == if old(
                        self,
                    ).slots()[b * 8 + k] == 0 {
                        0
                    } else {
                        recent_cleared(old(self).slots()[b * 8 + k])
                    }
                &&& forall|j: int|
                    0 <= j < old(self).slots().len() && !(b * 8 <= j < b * 8 + 8)
                        ==> #[trigger] final(self).slots()[j] == old(self).slots()[j]
            },
    {
        let stamp: u64 = (now as u64) % 0x1_0000;
        let slen = self.hashtable.slots.len();
        proof {
            assert(b * 8 + 8 <= slen);
        }
        let x0 = self.hashtable.slots[b * 8];
        if get_stamp(x0) != stamp {
            let ghost a = *self;
            self.hashtable.slots.set(b * 8, restamp(x0, stamp));
            let mut j: usize = 1;
            while j < 8
                invariant
                    a.inv(),
                    b < a.nbuckets(),
                    1 <= j <= 8,
                    b * 8 + 8 <= slen,
                    slen == a.slots().len(),
                    Seg::same_items(&a, self),
                    x0 == a.slots()[b * 8],
                    self.slots()[b * 8] == restamp_spec(x0, stamp),
                    bucket_stamp(self.slots()[b * 8]) == stamp,
                    forall|k: int|
                        1 <= k < j ==> #[trigger] self.slots()[b * 8 + k] == if a.slots()[b * 8 + k]
                            == 0 {
                            0
                        } else {
                            recent_cleared(a.slots()[b * 8 + k])
                        },
                    forall|jj: int|
                        0 <= jj < slen && jj != b * 8 && !(b * 8 < jj < b * 8 + j)
                            ==> #[trigger] self.slots()[jj] == a.slots()[jj],
                decreases 8 - j,
            {
                let x = self.hashtable.slots[b * 8 + j];
                if x != 0 {
                    let ghost c = *self;
                    proof {
                        assert(c.occupied(b * 8 + j));
                        assert(a.slot_ok(b * 8 + j));
                        crate::hashtable::lemma_tag(hash_spec(a.key_of(b * 8 + j)));
                    }
                    self.hashtable.slots.set(b * 8 + j, clear_recent(x));
                    proof {
                        assert forall|jj: int| #[trigger] self.occupied(jj) == a.occupied(jj) by {
                            assert(c.occupied(jj) == a.occupied(jj));
                        }
                        assert forall|bb: int| 0 <= bb < a.nbuckets() implies #[trigger] self.slots()[bb
                            * 8] < 0x1_0000_0000_0000 && self.slots()[bb * 8] as u32 == a.slots()[bb
                            * 8] as u32 by {
                            assert(c.slots()[bb * 8] == self.slots()[bb * 8]);
                        }
                    }
                }
                j = j + 1;
            }
        }
    }

    /// A number of seconds as a `u32`, saturating at `u32::MAX`.
    pub open spec fn saturated_secs(secs: u64) -> u32 {
        if secs > u32::MAX {
            u32::MAX
        } else {
            secs as u32
        }
    }

    /// Seconds elapsed on the cache's clock, saturating: the whole seconds
    /// of the duration that the clock reports, which nothing here predicts.
    pub(crate) fn now(&self) -> (r: u32)
        ensures
            exists|d: std::time::Duration| r == Seg::saturated_secs(#[trigger] duration_secs(d)),
    {
        let d = elapsed(&self.clock);
        let e = whole_secs(&d);
        if e > u32::MAX as u64 {
            u32::MAX
        } else {
            e as u32
        }
    }

    /// What a read of `key` promises, from the cache `a` to the cache `b`,
    /// of its result `r`: the item of the key if there is one, the cache
    /// changed in that item's frequency alone, its segments untouched.
    pub open spec fn get_post(a: &Seg, b: &Seg, key: Seq<u8>, r: Option<Item>) -> bool {
        &&& b.inv()
        &&& same_config(a, b)
        &&& b.segments == a.segments
        &&& b.ttl_buckets == a.ttl_buckets
        &&& forall|k: Seq<u8>| #[trigger] b.cas_of(k) == a.cas_of(k)
        &&& match r {
            None => !a@.contains_key(key) && b@ == a@,
            Some(item) => {
                &&& a@.contains_key(key)
                &&& item.key_view() == key
                &&& item.value_view() == a@[key].value
                &&& item.optional_view() == a@[key].optional
                &&& item.spec_cas() == a.cas_of(key)
                &&& b@.contains_key(key)
                &&& freq_step(a@[key].freq, b@[key].freq)
                &&& b@ == a@.insert(key, Entry { freq: b@[key].freq, ..a@[key] })
            },
        }
    }

    /// Get the item in the `Seg` with the provided key
    pub fn get(&mut self, key: &[u8]) -> (r: Option<Item>)
        requires
            old(self).inv(),
        ensures
            Seg::get_post(old(self), final(self), key@, r),
    {
        let now = self.now();
        let rnd = random_u32();
        self.get_at(key, now, rnd)
    }

    /// A read of `key` at second `now` of the cache's clock, with `rnd` as
    /// the random draw that decides whether a frequency above 16 goes up.
    /// The read counts once per second of the key's bucket.
    #[verifier::rlimit(40)]
    #[verifier::spinoff_prover]
    pub fn get_at(&mut self, key: &[u8], now: u32, rnd: u32) -> (r: Option<Item>)
        requires
            old(self).inv(),
        ensures
            Seg::get_post(old(self), final(self), key@, r),
            r is Some ==> {
                &&& final(self)@[key@].freq == freq_after_read(
                    old(self)@[key@].freq,
                    old(self).counted_at(key@, now),
                    rnd,
                )
                &&& final(self).stamp_of(key@) == now as u64 % 0x1_0000
                &&& final(self).read_marked(key@) == (old(self).counted_at(key@, now) || old(
                    self,
                )@[key@].freq < MAX_FREQ)
            },
    {
        let h = hash(key);
        match self.find(key, h) {
            None => None,
            Some(i) => {
                let ghost a = *self;
                proof {
                    a.lemma_holds_model(i as int, key@);
                    assert(a.slot_ok(i as int));
                }
                let b = i / 8;
                let cas = self.hashtable.slots[b * 8] as u32;
                let item = self.read_item(i, cas);
                self.refresh_bucket(b, now);
                let ghost c = *self;
                let ghost x0 = a.slots()[i as int];
                let ghost counted = a.counted_at(key@, now);
                proof {
                    Seg::lemma_same_items(&a, &c);
                    assert(c.holds(i as int, key@));
                    c.lemma_holds_model(i as int, key@);
                    crate::hashtable::lemma_recent_cleared(x0);
                    lemma_info_bounds(x0);
                    let k = i - b * 8;
                    assert(1 <= k < 8);
                    assert(c.slots()[b * 8 + k] == c.slots()[i as int]);
                    assert(a.occupied(i as int));
                    if bucket_stamp(a.slots()[b * 8]) != now as u64 % 0x1_0000 {
                        assert(c.slots()[i as int] == recent_cleared(x0));
                    } else {
                        assert(c.slots()[i as int] == x0);
                    }
                    assert(!counted ==> info_freq(c.slots()[i as int]) == a@[key@].freq);
                    assert(counted ==> info_freq(c.slots()[i as int]) >= RECENT);
                }
                let x = self.hashtable.slots[i];
                let f = get_freq(x);
                if f < MAX_FREQ {
                    let f2: u64 = if f <= 16 || (rnd as u64) % f == 0 {
                        f + 1 + RECENT
                    } else {
                        f + RECENT
                    };
                    proof {
                        lemma_info_bounds(x);
                        assert(c.slot_ok(i as int));
                        crate::hashtable::lemma_tag(hash_spec(key@));
                    }
                    let x2 = pack(get_tag(x), f2, get_seg(x), x & 0xf_ffffu64);
                    self.hashtable.slots.set(i, x2);
                    proof {
                        assert(info_offset(x2) == info_offset(x));
                        Seg::lemma_inv_slots_frame(&c, self);
                        assert forall|j: int| #[trigger] c.occupied(j) == self.occupied(j) by {}
                        assert forall|j: int| #[trigger]
                            c.occupied(j) && j != i implies c.entry_of(j) == self.entry_of(j) by {}
                        Seg::lemma_model_update(&c, self, i as int);
                        self.lemma_holds_model(i as int, key@);
                        assert forall|k: Seq<u8>| #[trigger] self.cas_of(k) == c.cas_of(k) by {}
                        assert(self.slots()[b * 8] == c.slots()[b * 8]);
                    }
                }
                proof {
                    assert(self@ =~= old(self)@.insert(
                        key@,
                        Entry { freq: self@[key@].freq, ..old(self)@[key@] },
                    ));
                    assert(self.slot_of_key(key@) == i);
                    assert(self.bucket_of(key@) == b);
                }
                Some(item)
            },
        }
    }
}

impl Seg {
    /// Get the item in the `Seg` with the provided key without
    /// increasing the item frequency - useful for combined operations that
    /// check for presence - eg replace is a get + set
    pub fn get_no_freq_incr(&mut self, key: &[u8]) -> (r: Option<Item>)
        requires
            old(self).inv(),
        ensures
            *final(self) == *old(self),
            match r {
                None => !old(self)@.contains_key(key@),
                Some(item) => {
                    &&& old(self)@.contains_key(key@)
                    &&& item.key_view() == key@
                    &&& item.value_view() == old(self)@[key@].value
                    &&& item.optional_view() == old(self)@[key@].optional
                    &&& item.spec_cas() == old(self).cas_of(key@)
                },
            },
    {
        let h = hash(key);
        match self.find(key, h) {
            None => None,
            Some(i) => {
                proof {
                    self.lemma_holds_model(i as int, key@);
                }
                let b = i / 8;
                let cas = self.hashtable.slots[b * 8] as u32;
                Some(self.read_item(i, cas))
            },
        }
    }

    /// What a removal of `key` promises, from the cache `a` to the cache
    /// `b`, of its result `r`: the key is gone, and `r` tells whether it was
    /// there.
    pub open spec fn delete_post(a: &Seg, b: &Seg, key: Seq<u8>, r: bool) -> bool {
        &&& b.inv()
        &&& same_config(a, b)
        &&& b.segments == a.segments
        &&& b.ttl_buckets == a.ttl_buckets
        &&& r == a@.contains_key(key)
        &&& b@ == a@.remove(key)
        &&& forall|k: Seq<u8>| #[trigger] b.cas_of(k) == a.cas_of(k)
    }

    /// Remove the item with the given key, returns a bool indicating if it was
    /// removed.
    pub fn delete(&mut self, key: &[u8]) -> (r: bool)
        requires
            old(self).inv(),
        ensures
            Seg::delete_post(old(self), final(self), key@, r),
    {
        let h = hash(key);
        match self.find(key, h) {
            None => {
                proof {
                    assert(old(self)@.remove(key@) =~= old(self)@);
                }
                false
            },
            Some(i) => {
                let ghost a = *self;
                proof {
                    a.lemma_holds_model(i as int, key@);
                }
                self.hashtable.slots.set(i, 0);
                proof {
                    Seg::lemma_inv_slots_frame(&a, self);
                    Seg::lemma_model_remove(&a, self, i as int);
                }
                true
            },
        }
    }

    /// Gets a count of items in the `Seg` instance.
    pub fn items(&mut self) -> (r: usize)
        requires
            old(self).inv(),
        ensures
            *final(self) == *old(self),
            r == old(self)@.len(),
    {
        let n = self.hashtable.slots.len();
        let mut count: usize = 0;
        let mut i: usize = 0;
        while i < n
            invariant
                n == self.slots().len(),
                i <= n,
                count == self.count_below(i as int),
                count <= i,
            decreases n - i,
        {
            if i % 8 != 0 && self.hashtable.slots[i] != 0 {
                count = count + 1;
            }
            i = i + 1;
        }
        proof {
            self.lemma_len();
        }
        count
    }
}


impl Seg {
    /// An empty cache with `2^hash_power` hash slots and
    /// `heap_size / segment_size` segments.
    pub fn new_empty(
        hash_power: u8,
        heap_size: usize,
        segment_size: u32,
        evict_policy: Policy,
        datapool_path: Option<String>,
    ) -> (r: Seg)
        requires
            3 <= hash_power <= 31,
            1 <= segment_size <= MAX_SEGMENT_SIZE,
            1 <= heap_size as nat / (segment_size as nat) <= MAX_SEGMENTS,
        ensures
            r.inv(),
            r@ == Map::<Seq<u8>, Entry>::empty(),
            forall|k: Seq<u8>| #[trigger] r.cas_of(k) == 0,
            r.hashtable.power == hash_power,
            r.seg_size() == segment_size,
            r.nsegs() == heap_size as nat / (segment_size as nat),
            r.free_q().len() == r.nsegs(),
            r.segments.evict_policy == evict_policy,
            r.segments.datapool_path == datapool_path,
            !r.segments.fields_copied_back,
            !r.ttl_buckets.buckets_copied_back,
            !r.hashtable.table_copied_back,
            !r._restored,
    {
        let hashtable = HashTable::new(hash_power);
        let segments = Segments::new(heap_size, segment_size, evict_policy, datapool_path);
        let ttl_buckets = TtlBuckets::new();
        let members = build_index(&hashtable.slots, segments.headers.len());
        let r = Seg {
            hashtable,
            segments,
            ttl_buckets,
            _restored: false,
            clock: instant_now(),
            members,
        };
        proof {
            assert forall|i: int| !r.occupied(i) by {}
            let n = r.nsegs();
            assert forall|i: int, j: int|
                0 <= i < r.free_q().len() && 0 <= j < r.free_q().len() && i != j implies r.free_q()[i]
                != r.free_q()[j] by {}
            assert(segments_ok(r.segments));
            assert(chains_ok(r.nsegs(), r.free_q(), r.ttl_buckets));
            assert forall|t: int| 0 <= t < r.nsegs() implies #[trigger] r.free_q().contains(t as u32)
                || r.in_chain(t) by {
                assert(r.free_q()[n - 1 - t] == t);
            }
            assert(r.inv());
            assert(r@ =~= Map::<Seq<u8>, Entry>::empty());
            assert forall|k: Seq<u8>| #[trigger] r.cas_of(k) == 0 by {
                assert(0 <= r.bucket_of(k) < r.nbuckets());
            }
        }
        r
    }
}


/// Two caches hold the same structures, item for item and byte for byte.
pub open spec fn same_state(a: &Seg, b: &Seg) -> bool {
    &&& a.hashtable.power == b.hashtable.power
    &&& a.hashtable.nbuckets == b.hashtable.nbuckets
    &&& a.slots() == b.slots()
    &&& a.segments.segment_size == b.segments.segment_size
    &&& a.segments.headers@ == b.segments.headers@
    &&& a.data() == b.data()
    &&& a.free_q() == b.free_q()
    &&& a.ttl_buckets.buckets@.len() == b.ttl_buckets.buckets@.len()
    &&& forall|bb: int|
        0 <= bb < a.ttl_buckets.buckets@.len() ==> #[trigger] a.ttl_buckets.buckets@[bb].ttl
            == b.ttl_buckets.buckets@[bb].ttl && a.chain(bb) == b.chain(bb)
}

impl Seg {
    /// Caches that hold the same structures are valid together, and then
    /// hold the same items with the same CAS values.
    pub proof fn lemma_same_state(a: &Seg, b: &Seg)
        requires
            same_state(a, b),
        ensures
            a.items_ok() == b.items_ok(),
            a.items_ok() ==> a@ == b@,
            forall|k: Seq<u8>| #[trigger] a.cas_of(k) == b.cas_of(k),
    {
        assert forall|bb: int| 0 <= bb < a.ttl_buckets.buckets@.len() implies #[trigger] a.chain(bb)
            == b.chain(bb) by {
            assert(a.ttl_buckets.buckets@[bb].ttl == b.ttl_buckets.buckets@[bb].ttl);
        }
        lemma_chains_ok_eq(a.nsegs(), a.free_q(), a.ttl_buckets, b.ttl_buckets);
        if a.ttl_buckets.buckets@.len() == MAX_N_TTL_BUCKET {
            lemma_chains_timed_eq(a.segments.headers@, a.ttl_buckets, b.ttl_buckets);
        }
        assert(segments_ok(a.segments) == segments_ok(b.segments));
        if a.ttl_buckets.buckets@.len() == MAX_N_TTL_BUCKET {
            assert forall|t: int| a.in_chain(t) == b.in_chain(t) by {
                if a.in_chain(t) {
                    let (bb, p) = choose|bb: int, p: int|
                        0 <= bb < MAX_N_TTL_BUCKET && 0 <= p < a.chain(bb).len() && #[trigger] a.chain(bb)[p]
                            == t;
                    assert(b.chain(bb)[p] == t);
                }
                if b.in_chain(t) {
                    let (bb, p) = choose|bb: int, p: int|
                        0 <= bb < MAX_N_TTL_BUCKET && 0 <= p < b.chain(bb).len() && #[trigger] b.chain(bb)[p]
                            == t;
                    assert(a.chain(bb) == b.chain(bb));
                    assert(a.chain(bb)[p] == t);
                }
            }
        }
        if a.items_ok() || b.items_ok() {
            assert forall|i: int| #[trigger] a.occupied(i) implies a.slot_ok(i) == b.slot_ok(i) && a.key_of(i)
                == b.key_of(i) && a.entry_of(i) == b.entry_of(i) by {}
            assert forall|i: int| #[trigger] a.occupied(i) == b.occupied(i) by {}
        }
        if a.items_ok() {
            assert forall|i: int| #[trigger] b.occupied(i) implies b.slot_ok(i) by {
                assert(a.occupied(i));
            }
            assert forall|i: int, j: int|
                b.occupied(i) && b.occupied(j) && i != j implies #[trigger] b.key_of(i) != #[trigger] b.key_of(j) by {
                assert(a.occupied(i) && a.occupied(j));
                assert(a.key_of(i) != a.key_of(j));
            }
            assert(b.items_ok());
            Seg::lemma_model_eq(a, b);
        }
        if b.items_ok() {
            assert forall|i: int| #[trigger] a.occupied(i) implies a.slot_ok(i) by {
                assert(b.occupied(i));
                assert(b.slot_ok(i));
            }
            assert forall|i: int, j: int|
                a.occupied(i) && a.occupied(j) && i != j implies #[trigger] a.key_of(i) != #[trigger] a.key_of(j) by {
                assert(b.occupied(i) && b.occupied(j));
                assert(b.key_of(i) != b.key_of(j));
            }
            assert(a.items_ok());
        }
    }
}


/// For each of `nsegs` segments, the item slots of `slots` that point
/// into it.
pub(crate) fn build_index(slots: &Vec<u64>, nsegs: usize) -> (r: Vec<Vec<usize>>)
    ensures
        r@.len() == nsegs,
        forall|j: int|
            0 <= j < slots@.len() && j % 8 != 0 && slots@[j] != 0 && info_seg(slots@[j]) < nsegs
                ==> #[trigger] r@[info_seg(slots@[j]) as int]@.contains(j as usize),
{
    let mut r: Vec<Vec<usize>> = Vec::with_capacity(nsegs);
    let mut t: usize = 0;
    while t < nsegs
        invariant
            t <= nsegs,
            r@.len() == t,
        decreases nsegs - t,
    {
        r.push(Vec::new());
        t = t + 1;
    }
    let mut j: usize = 0;
    while j < slots.len()
        invariant
            j <= slots@.len(),
            r@.len() == nsegs,
            forall|jj: int|
                0 <= jj < j && jj % 8 != 0 && slots@[jj] != 0 && info_seg(slots@[jj]) < nsegs
                    ==> #[trigger] r@[info_seg(slots@[jj]) as int]@.contains(jj as usize),
        decreases slots@.len() - j,
    {
        let x = slots[j];
        if j % 8 != 0 && x != 0 {
            let t = get_seg(x);
            if t < nsegs as u64 {
                let ghost before = r@;
                r[t as usize].push(j);
                proof {
                    assert(r@[t as int]@[r@[t as int]@.len() - 1] == j);
                    assert forall|jj: int|
                        0 <= jj < j && jj % 8 != 0 && slots@[jj] != 0 && info_seg(slots@[jj])
                            < nsegs implies #[trigger] r@[info_seg(slots@[jj]) as int]@.contains(
                        jj as usize,
                    ) by {
                        let u = info_seg(slots@[jj]) as int;
                        assert(before[u]@.contains(jj as usize));
                        let q = choose|q: int| 0 <= q < before[u]@.len() && before[u]@[q] == jj as usize;
                        assert(r@[u]@[q] == jj as usize);
                    }
                }
            }
        }
        j = j + 1;
    }
    r
}

impl Seg {
    /// A cache whose members were built from its slots is indexed.
    pub proof fn lemma_index_built(c: &Seg)
        requires
            c.items_ok(),
            c.members@.len() == c.nsegs(),
            forall|j: int|
                0 <= j < c.slots().len() && j % 8 != 0 && c.slots()[j] != 0 && info_seg(c.slots()[j])
                    < c.nsegs() ==> #[trigger] c.members@[info_seg(c.slots()[j]) as int]@.contains(
                    j as usize,
                ),
        ensures
            c.inv(),
    {
        assert forall|j: int| #[trigger] c.occupied(j) implies c.members@[c.seg_of(j)]@.contains(
            j as usize,
        ) by {
            assert(c.slot_ok(j));
        }
    }
}

/// A copy of a vector of words.
fn copy_words(v: &Vec<u64>) -> (r: Vec<u64>)
    ensures
        r@ == v@,
{
    let mut r: Vec<u64> = Vec::with_capacity(v.len());
    let mut i: usize = 0;
    while i < v.len()
        invariant
            i <= v@.len(),
            r@ == v@.subrange(0, i as int),
        decreases v@.len() - i,
    {
        r.push(v[i]);
        i = i + 1;
        assert(r@ =~= v@.subrange(0, i as int));
    }
    assert(r@ =~= v@);
    r
}

/// A copy of a vector of segment ids.
fn copy_ids(v: &Vec<u32>) -> (r: Vec<u32>)
    ensures
        r@ == v@,
{
    let mut r: Vec<u32> = Vec::with_capacity(v.len());
    let mut i: usize = 0;
    while i < v.len()
        invariant
            i <= v@.len(),
            r@ == v@.subrange(0, i as int),
        decreases v@.len() - i,
    {
        r.push(v[i]);
        i = i + 1;
        assert(r@ =~= v@.subrange(0, i as int));
    }
    assert(r@ =~= v@);
    r
}

/// A copy of a vector of segment headers.
fn copy_headers(v: &Vec<SegmentHeader>) -> (r: Vec<SegmentHeader>)
    ensures
        r@ == v@,
{
    let mut r: Vec<SegmentHeader> = Vec::with_capacity(v.len());
    let mut i: usize = 0;
    while i < v.len()
        invariant
            i <= v@.len(),
            r@ == v@.subrange(0, i as int),
        decreases v@.len() - i,
    {
        let h = v[i];
        r.push(SegmentHeader { write_offset: h.write_offset, create_at: h.create_at, ttl: h.ttl });
        i = i + 1;
        assert(r@ =~= v@.subrange(0, i as int));
    }
    assert(r@ =~= v@);
    r
}

/// Tells whether two vectors of words are equal.
fn words_equal(a: &Vec<u64>, b: &Vec<u64>) -> (r: bool)
    ensures
        r == (a@ == b@),
{
    if a.len() != b.len() {
        return false;
    }
    let mut i: usize = 0;
    while i < a.len()
        invariant
            a@.len() == b@.len(),
            i <= a@.len(),
            forall|j: int| 0 <= j < i ==> a@[j] == b@[j],
        decreases a@.len() - i,
    {
        if a[i] != b[i] {
            return false;
        }
        i = i + 1;
    }
    assert(a@ =~= b@);
    true
}

/// Tells whether two vectors of segment ids are equal.
fn ids_equal(a: &Vec<u32>, b: &Vec<u32>) -> (r: bool)
    ensures
        r == (a@ == b@),
{
    if a.len() != b.len() {
        return false;
    }
    let mut i: usize = 0;
    while i < a.len()
        invariant
            a@.len() == b@.len(),
            i <= a@.len(),
            forall|j: int| 0 <= j < i ==> a@[j] == b@[j],
        decreases a@.len() - i,
    {
        if a[i] != b[i] {
            return false;
        }
        i = i + 1;
    }
    assert(a@ =~= b@);
    true
}

/// Tells whether two vectors of bytes are equal.
fn bytes_equal(a: &Vec<u8>, b: &Vec<u8>) -> (r: bool)
    ensures
        r == (a@ == b@),
{
    if a.len() != b.len() {
        return false;
    }
    let mut i: usize = 0;
    while i < a.len()
        invariant
            a@.len() == b@.len(),
            i <= a@.len(),
            forall|j: int| 0 <= j < i ==> a@[j] == b@[j],
        decreases a@.len() - i,
    {
        if a[i] != b[i] {
            return false;
        }
        i = i + 1;
    }
    assert(a@ =~= b@);
    true
}

/// Tells whether two vectors of segment headers are equal.
fn headers_equal(a: &Vec<SegmentHeader>, b: &Vec<SegmentHeader>) -> (r: bool)
    ensures
        r == (a@ == b@),
{
    if a.len() != b.len() {
        return false;
    }
    let mut i: usize = 0;
    while i < a.len()
        invariant
            a@.len() == b@.len(),
            i <= a@.len(),
            forall|j: int| 0 <= j < i ==> a@[j] == b@[j],
        decreases a@.len() - i,
    {
        let x = a[i];
        let y = b[i];
        if x.write_offset != y.write_offset || x.create_at != y.create_at || x.ttl != y.ttl {
            return false;
        }
        i = i + 1;
    }
    assert(a@ =~= b@);
    true
}

impl Seg {
    /// Returns a new `Builder` which is used to configure and construct a
    /// `Seg` instance.
    pub fn builder() -> (r: Builder)
        ensures
            !r.restore,
            r.hash_power == DEFAULT_HASH_POWER,
            r.heap_size == DEFAULT_HEAP_SIZE,
            r.segment_size == DEFAULT_SEGMENT_SIZE,
            r.evict_policy == Policy::Random,
            r.datapool_path is None,
            r.segments_fields_path is None,
            r.ttl_buckets_path is None,
            r.hashtable_path is None,
    {
        Builder::default()
    }

    /// Returns a new `Demolisher` which is used to configure the graceful
    /// deconstruction of a `Seg` instance.
    pub fn demolisher() -> (r: Demolisher)
        ensures
            r.heap_size == DEFAULT_HEAP_SIZE,
            r.segments_fields_path is None,
            r.ttl_buckets_path is None,
            r.hashtable_path is None,
    {
        Demolisher::default()
    }

    /// Checks the integrity of all segments
    /// *NOTE*: this operation is relatively expensive
    pub fn check_integrity(&mut self) -> (r: Result<(), SegError<'static>>)
        ensures
            *final(self) == *old(self),
            (r is Ok) == old(self).inv(),
            r is Err ==> (r matches Err(SegError::DataCorrupted)),
    {
        if self.check_inv() {
            Ok(())
        } else {
            Err(SegError::DataCorrupted)
        }
    }

    /// A copy of the cache, to compare with later; the copy is not marked
    /// as restored.
    pub fn clone(&self) -> (r: Seg)
        ensures
            same_state(&r, self),
            self.inv() ==> r.inv() && r@ == self@,
            r.segments.evict_policy == self.segments.evict_policy,
            r.segments.datapool_path == self.segments.datapool_path,
            !r._restored,
    {
        let hashtable = HashTable {
            power: self.hashtable.power,
            nbuckets: self.hashtable.nbuckets,
            slots: copy_words(&self.hashtable.slots),
            table_copied_back: self.hashtable.table_copied_back,
        };
        let datapool_path = match &self.segments.datapool_path {
            Some(p) => Some(p.clone()),
            None => None,
        };
        let segments = Segments {
            headers: copy_headers(&self.segments.headers),
            data: read_bytes(&self.segments.data, 0, self.segments.data.len()),
            segment_size: self.segments.segment_size,
            free_q: copy_ids(&self.segments.free_q),
            evict_policy: self.segments.evict_policy,
            datapool_path,
            fields_copied_back: self.segments.fields_copied_back,
        };
        let mut buckets: Vec<TtlBucket> = Vec::with_capacity(self.ttl_buckets.buckets.len());
        let mut b: usize = 0;
        while b < self.ttl_buckets.buckets.len()
            invariant
                b <= self.ttl_buckets.buckets@.len(),
                buckets@.len() == b,
                forall|bb: int|
                    0 <= bb < b ==> #[trigger] buckets@[bb].ttl == self.ttl_buckets.buckets@[bb].ttl
                        && buckets@[bb].segs@ == self.ttl_buckets.buckets@[bb].segs@,
            decreases self.ttl_buckets.buckets@.len() - b,
        {
            buckets.push(
                TtlBucket {
                    ttl: self.ttl_buckets.buckets[b].ttl,
                    segs: copy_ids(&self.ttl_buckets.buckets[b].segs),
                },
            );
            b = b + 1;
        }
        let ttl_buckets = TtlBuckets {
            buckets,
            buckets_copied_back: self.ttl_buckets.buckets_copied_back,
        };
        let members = build_index(&hashtable.slots, segments.headers.len());
        let r = Seg { hashtable, segments, ttl_buckets, _restored: false, clock: self.clock, members };
        proof {
            assert(r.data() =~= self.data());
            Seg::lemma_same_state(&r, self);
            if self.inv() {
                Seg::lemma_index_built(&r);
            }
        }
        r
    }

    /// Tells whether this cache holds the same structures as `s`.
    pub fn equivalent_seg(&self, s: Seg) -> (r: bool)
        ensures
            r == same_state(self, &s),
    {
        if self.hashtable.power != s.hashtable.power || self.hashtable.nbuckets
            != s.hashtable.nbuckets || self.segments.segment_size != s.segments.segment_size
            || self.ttl_buckets.buckets.len() != s.ttl_buckets.buckets.len() {
            return false;
        }
        if !words_equal(&self.hashtable.slots, &s.hashtable.slots) || !headers_equal(
            &self.segments.headers,
            &s.segments.headers,
        ) || !bytes_equal(&self.segments.data, &s.segments.data) || !ids_equal(
            &self.segments.free_q,
            &s.segments.free_q,
        ) {
            return false;
        }
        let mut b: usize = 0;
        while b < self.ttl_buckets.buckets.len()
            invariant
                b <= self.ttl_buckets.buckets@.len(),
                self.ttl_buckets.buckets@.len() == s.ttl_buckets.buckets@.len(),
                self.hashtable.power == s.hashtable.power,
                self.hashtable.nbuckets == s.hashtable.nbuckets,
                self.slots() == s.slots(),
                self.segments.segment_size == s.segments.segment_size,
                self.segments.headers@ == s.segments.headers@,
                self.data() == s.data(),
                self.free_q() == s.free_q(),
                forall|bb: int|
                    0 <= bb < b ==> #[trigger] self.ttl_buckets.buckets@[bb].ttl
                        == s.ttl_buckets.buckets@[bb].ttl && self.chain(bb) == s.chain(bb),
            decreases self.ttl_buckets.buckets@.len() - b,
        {
            if self.ttl_buckets.buckets[b].ttl != s.ttl_buckets.buckets[b].ttl || !ids_equal(
                &self.ttl_buckets.buckets[b].segs,
                &s.ttl_buckets.buckets[b].segs,
            ) {
                return false;
            }
            proof {
                assert(self.chain(b as int) =~= s.chain(b as int));
                assert forall|bb: int|
                    0 <= bb < b + 1 implies #[trigger] self.ttl_buckets.buckets@[bb].ttl
                        == s.ttl_buckets.buckets@[bb].ttl && self.chain(bb) == s.chain(bb) by {
                    if bb < b {
                    }
                }
            }
            b = b + 1;
        }
        assert(b == self.ttl_buckets.buckets@.len());
        assert(self.hashtable.power == s.hashtable.power);
        assert(self.slots() == s.slots());
        assert(same_state(self, &s));
        true
    }
}

} // verus!
