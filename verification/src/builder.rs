//! Configuration of a cache, and of its graceful shutdown.
use crate::hashtable::HashTable;
use crate::image::{bytes_words, lemma_bytes_words_roundtrip, lemma_words_bytes, words_bytes};

use crate::platform::instant_now;
use crate::seg::{build_index, same_state, Entry, Seg};
use crate::segments::{Policy, Segments, MAX_SEGMENTS, MAX_SEGMENT_SIZE};
use crate::snapshot::{
    decode_segments, decode_table, decode_ttl, encode_segments, encode_table, encode_ttl,
    lemma_segments_words, lemma_segments_words_inj, lemma_ttl_words, lemma_ttl_words_inj,
    segments_image, segments_words, table_image, table_words, ttl_image, ttl_words,
};
use crate::storage::Storage;
use crate::ttl_buckets::{TtlBuckets, MAX_N_TTL_BUCKET};
use vstd::prelude::*;

verus! {

/// Default size of the data pool: 64 MiB.
pub const DEFAULT_HEAP_SIZE: usize = 64 * 1024 * 1024;

/// Default segment size: 1 MiB.
pub const DEFAULT_SEGMENT_SIZE: i32 = 1024 * 1024;

/// Default number of hash slots, as a power of two.
pub const DEFAULT_HASH_POWER: u8 = 16;

/// Configures and constructs a `Seg` instance.
pub struct Builder {
    pub restore: bool,
    pub hash_power: u8,
    pub heap_size: usize,
    pub segment_size: i32,
    pub evict_policy: Policy,
    pub datapool_path: Option<String>,
    pub segments_fields_path: Option<String>,
    pub ttl_buckets_path: Option<String>,
    pub hashtable_path: Option<String>,
}

impl Default for Builder {
    fn default() -> (r: Builder)
        ensures
            !r.restore,
            r.hash_power == DEFAULT_HASH_POWER,
            r.heap_size == DEFAULT_HEAP_SIZE,
            r.segment_size == DEFAULT_SEGMENT_SIZE,
            r.evict_policy == Policy::Random,
            r.datapool_path is None,
            r.segments_fields_path is None,
            r.ttl_buckets_path is None,
            r.hashtable_path is None,
    {
        Builder {
            restore: false,
            hash_power: DEFAULT_HASH_POWER,
            heap_size: DEFAULT_HEAP_SIZE,
            segment_size: DEFAULT_SEGMENT_SIZE,
            evict_policy: Policy::Random,
            datapool_path: None,
            segments_fields_path: None,
            ttl_buckets_path: None,
            hashtable_path: None,
        }
    }
}

impl Builder {
    /// The configuration describes a cache that can be built: at least
    /// eight hash slots, a segment size that item offsets can address, and
    /// a number of segments that segment ids can address.
    pub open spec fn valid(&self) -> bool {
        &&& 3 <= self.hash_power <= 31
        &&& 1 <= self.segment_size <= MAX_SEGMENT_SIZE
        &&& 1 <= self.heap_size as nat / (self.segment_size as nat) <= MAX_SEGMENTS
    }

    /// Tells whether the configuration describes a cache that can be built.
    pub fn is_valid(&self) -> (r: bool)
        ensures
            r == self.valid(),
    {
        if self.hash_power < 3 || self.hash_power > 31 || self.segment_size < 1
            || self.segment_size as u32 > MAX_SEGMENT_SIZE {
            return false;
        }
        let n = self.heap_size / (self.segment_size as usize);
        1 <= n && n <= MAX_SEGMENTS as usize
    }

    /// Whether the built cache restores its state from saved images.
    pub fn restore(self, restore: bool) -> (r: Builder)
        ensures
            r == (Builder { restore, ..self }),
    {
        Builder { restore, ..self }
    }

    /// Sets the number of hash slots to `2^hash_power`.
    pub fn hash_power(self, hash_power: u8) -> (r: Builder)
        ensures
            r == (Builder { hash_power, ..self }),
    {
        Builder { hash_power, ..self }
    }

    /// Sets the size of the data pool, in bytes.
    pub fn heap_size(self, heap_size: usize) -> (r: Builder)
        ensures
            r == (Builder { heap_size, ..self }),
    {
        Builder { heap_size, ..self }
    }

    /// Sets the size of a segment, in bytes.
    pub fn segment_size(self, segment_size: i32) -> (r: Builder)
        ensures
            r == (Builder { segment_size, ..self }),
    {
        Builder { segment_size, ..self }
    }

    /// Sets the eviction policy.
    pub fn eviction(self, evict_policy: Policy) -> (r: Builder)
        ensures
            r == (Builder { evict_policy, ..self }),
    {
        Builder { evict_policy, ..self }
    }

    /// Sets the path of the file that backs the data pool.
    pub fn datapool_path(self, datapool_path: Option<String>) -> (r: Builder)
        ensures
            r == (Builder { datapool_path, ..self }),
    {
        Builder { datapool_path, ..self }
    }

    /// Sets the path the segments' metadata is restored from.
    pub fn segments_fields_path(self, segments_fields_path: Option<String>) -> (r: Builder)
        ensures
            r == (Builder { segments_fields_path, ..self }),
    {
        Builder { segments_fields_path, ..self }
    }

    /// Sets the path the time-to-live buckets are restored from.
    pub fn ttl_buckets_path(self, ttl_buckets_path: Option<String>) -> (r: Builder)
        ensures
            r == (Builder { ttl_buckets_path, ..self }),
    {
        Builder { ttl_buckets_path, ..self }
    }

    /// Sets the path the hash table is restored from.
    pub fn hashtable_path(self, hashtable_path: Option<String>) -> (r: Builder)
        ensures
            r == (Builder { hashtable_path, ..self }),
    {
        Builder { hashtable_path, ..self }
    }
}


/// An image that is the image of some segments' metadata decodes.
pub proof fn lemma_segments_image_complete(c: &Segments)
    requires
        c.free_q@.len() <= u64::MAX,
        c.headers@.len() <= u64::MAX,
    ensures
        segments_image(c).len() % 8 == 0,
        crate::snapshot::segments_words_ok(bytes_words(segments_image(c))),
{
    let w = segments_words(c.segment_size, c.free_q@, c.headers@);
    lemma_words_bytes(w);
    lemma_bytes_words_roundtrip(w);
    lemma_segments_words(c.segment_size, c.free_q@, c.headers@);
}

/// Segments' metadata with the same image is the same.
pub proof fn lemma_segments_image_inj(c: &Segments, s: &Segments)
    requires
        segments_image(s) == segments_image(c),
        c.free_q@.len() <= u64::MAX,
        c.headers@.len() <= u64::MAX,
        s.free_q@.len() <= u64::MAX,
        s.headers@.len() <= u64::MAX,
    ensures
        s.segment_size == c.segment_size,
        s.free_q@ == c.free_q@,
        s.headers@ == c.headers@,
{
    let wc = segments_words(c.segment_size, c.free_q@, c.headers@);
    let ws = segments_words(s.segment_size, s.free_q@, s.headers@);
    lemma_bytes_words_roundtrip(wc);
    lemma_bytes_words_roundtrip(ws);
    lemma_segments_words_inj(s.segment_size, s.free_q@, s.headers@, c.segment_size, c.free_q@, c.headers@);
}

/// An image that is the image of some buckets decodes.
pub proof fn lemma_ttl_image_complete(c: &TtlBuckets)
    requires
        c.buckets@.len() == MAX_N_TTL_BUCKET,
        forall|k: int| 0 <= k < c.buckets@.len() ==> #[trigger] c.buckets@[k].segs@.len() <= u64::MAX,
    ensures
        ttl_image(c).len() % 8 == 0,
        crate::snapshot::ttl_words_ok(bytes_words(ttl_image(c))),
{
    let w = ttl_words(c.buckets@);
    lemma_words_bytes(w);
    lemma_bytes_words_roundtrip(w);
    lemma_ttl_words(c.buckets@);
}

/// Buckets with the same image are the same.
pub proof fn lemma_ttl_image_inj(c: &TtlBuckets, t: &TtlBuckets)
    requires
        ttl_image(t) == ttl_image(c),
        c.buckets@.len() == MAX_N_TTL_BUCKET,
        t.buckets@.len() == MAX_N_TTL_BUCKET,
        forall|k: int| 0 <= k < c.buckets@.len() ==> #[trigger] c.buckets@[k].segs@.len() <= u64::MAX,
        forall|k: int| 0 <= k < t.buckets@.len() ==> #[trigger] t.buckets@[k].segs@.len() <= u64::MAX,
    ensures
        forall|b: int|
            0 <= b < MAX_N_TTL_BUCKET ==> #[trigger] t.buckets@[b].ttl == c.buckets@[b].ttl
                && t.buckets@[b].segs@ == c.buckets@[b].segs@,
{
    lemma_bytes_words_roundtrip(ttl_words(c.buckets@));
    lemma_bytes_words_roundtrip(ttl_words(t.buckets@));
    assert(ttl_words(t.buckets@) == ttl_words(c.buckets@));
    lemma_ttl_words_inj(t.buckets@, c.buckets@);
    assert forall|b: int| 0 <= b < MAX_N_TTL_BUCKET implies #[trigger] t.buckets@[b].ttl
        == c.buckets@[b].ttl && t.buckets@[b].segs@ == c.buckets@[b].segs@ by {
        assert(t.buckets@[b].ttl == c.buckets@[b].ttl);
    }
}

/// A copy of an optional path.
fn clone_path(p: &Option<String>) -> (r: Option<String>)
    ensures
        r == *p,
{
    match p {
        Some(s) => Some(s.clone()),
        None => None,
    }
}

/// The images of the cache `c` are saved under the four paths.
pub open spec fn holds_images(
    images: Map<Seq<char>, Seq<u8>>,
    c: &Seg,
    datapool: Seq<char>,
    fields: Seq<char>,
    buckets: Seq<char>,
    table: Seq<char>,
) -> bool {
    &&& images.contains_key(datapool) && images[datapool] == c.data()
    &&& images.contains_key(fields) && images[fields] == segments_image(&c.segments)
    &&& images.contains_key(buckets) && images[buckets] == ttl_image(&c.ttl_buckets)
    &&& images.contains_key(table) && images[table] == table_image(&c.hashtable)
}

/// The path of an optional path, or the empty path.
pub open spec fn path_view(p: Option<String>) -> Seq<char> {
    match p {
        Some(s) => s@,
        None => Seq::empty(),
    }
}

impl Builder {
    /// Restoring was asked for, with all four paths.
    pub open spec fn restore_requested(&self) -> bool {
        &&& self.restore
        &&& self.datapool_path is Some
        &&& self.segments_fields_path is Some
        &&& self.ttl_buckets_path is Some
        &&& self.hashtable_path is Some
    }

    /// The cache `c` has the configuration of the builder.
    pub open spec fn configures(&self, c: &Seg) -> bool {
        &&& c.hashtable.power == self.hash_power
        &&& c.seg_size() == self.segment_size
        &&& c.nsegs() == self.heap_size as nat / (self.segment_size as nat)
        &&& c.segments.evict_policy == self.evict_policy
        &&& c.segments.datapool_path == self.datapool_path
    }

    /// The images saved under the builder's paths are those of the valid
    /// cache `c`, which has the builder's configuration.
    pub open spec fn saved(&self, images: Map<Seq<char>, Seq<u8>>, c: &Seg) -> bool {
        &&& c.inv()
        &&& self.configures(c)
        &&& holds_images(
            images,
            c,
            path_view(self.datapool_path),
            path_view(self.segments_fields_path),
            path_view(self.ttl_buckets_path),
            path_view(self.hashtable_path),
        )
    }

    /// What building from the images of `images` promises of the cache `r`.
    pub open spec fn build_post(&self, images: Map<Seq<char>, Seq<u8>>, r: &Seg) -> bool {
        &&& r.inv()
        &&& self.configures(r)
        &&& r.segments.fields_copied_back == r._restored
        &&& r.ttl_buckets.buckets_copied_back == r._restored
        &&& r.hashtable.table_copied_back == r._restored
        &&& r._restored ==> self.restore_requested()
        &&& !r._restored ==> r@ == Map::<Seq<u8>, Entry>::empty() && r.free_q().len() == r.nsegs()
            && forall|k: Seq<u8>| #[trigger] r.cas_of(k) == 0
        &&& (self.restore_requested() && !images.contains_key(path_view(self.datapool_path))
            && !images.contains_key(path_view(self.segments_fields_path)) && !images.contains_key(
            path_view(self.ttl_buckets_path),
        ) && !images.contains_key(path_view(self.hashtable_path))) ==> r._restored && r@
            == Map::<Seq<u8>, Entry>::empty() && r.free_q().len() == r.nsegs() && forall|k: Seq<u8>|
            #[trigger] r.cas_of(k) == 0
        &&& forall|c: Seg|
            self.restore_requested() && #[trigger] self.saved(images, &c) ==> r._restored
                && same_state(r, &c)
    }

    /// Constructs a new cache; one that is asked to restore itself starts
    /// from empty images.
    pub fn build(self) -> (r: Seg)
        requires
            self.valid(),
        ensures
            self.build_post(Map::empty(), &r),
    {
        let storage = Storage::new();
        self.build_from(&storage)
    }

    /// Constructs the cache, restoring it from the images saved in
    /// `storage` when that is asked for with all four paths.
    ///
    /// A path without an image reads as the image of a new, empty
    /// structure. When the images do not form a valid cache of the
    /// configured shape, the cache starts empty and is not restored.
    pub fn build_from(self, storage: &Storage) -> (r: Seg)
        requires
            self.valid(),
            storage.wf(),
        ensures
            self.build_post(storage.images(), &r),
    {
        let ss = self.segment_size as u32;
        if self.restore && self.datapool_path.is_some() && self.segments_fields_path.is_some()
            && self.ttl_buckets_path.is_some() && self.hashtable_path.is_some() {
            match self.try_restore(storage) {
                Some(r) => {
                    return r;
                },
                None => {},
            }
        }
        let r = Seg::new_empty(
            self.hash_power,
            self.heap_size,
            ss,
            self.evict_policy,
            self.datapool_path,
        );
        r
    }
}


impl Builder {
    /// Restores a cache from the images saved under the four paths, if they
    /// form a valid cache of the configured shape.
    fn try_restore(&self, storage: &Storage) -> (r: Option<Seg>)
        requires
            self.valid(),
            self.restore_requested(),
            storage.wf(),
        ensures
            r matches Some(s) ==> {
                &&& s.inv()
                &&& self.configures(&s)
                &&& s._restored
                &&& s.segments.fields_copied_back
                &&& s.ttl_buckets.buckets_copied_back
                &&& s.hashtable.table_copied_back
            },
            (!storage.images().contains_key(path_view(self.datapool_path))
                && !storage.images().contains_key(path_view(self.segments_fields_path))
                && !storage.images().contains_key(path_view(self.ttl_buckets_path))
                && !storage.images().contains_key(path_view(self.hashtable_path))) ==> (r matches Some(
                s,
            ) && s@ == Map::<Seq<u8>, Entry>::empty() && s.free_q().len() == s.nsegs() && forall|
                k: Seq<u8>,
            | #[trigger] s.cas_of(k) == 0),
            forall|c: Seg| #[trigger]
                self.saved(storage.images(), &c) ==> (r matches Some(s) && same_state(&s, &c)),
    {
        let dp = match &self.datapool_path {
            Some(p) => p,
            None => {
                return None;
            },
        };
        let fp = match &self.segments_fields_path {
            Some(p) => p,
            None => {
                return None;
            },
        };
        let tp = match &self.ttl_buckets_path {
            Some(p) => p,
            None => {
                return None;
            },
        };
        let hp = match &self.hashtable_path {
            Some(p) => p,
            None => {
                return None;
            },
        };
        let ss = self.segment_size as u32;
        let nseg = self.heap_size / (ss as usize);
        let data_img = storage.read(dp);
        let fields_img = storage.read(fp);
        let ttl_img = storage.read(tp);
        let table_img = storage.read(hp);
        if data_img.is_none() && fields_img.is_none() && ttl_img.is_none() && table_img.is_none() {
            let mut r = Seg::new_empty(
                self.hash_power,
                self.heap_size,
                ss,
                self.evict_policy,
                clone_path(&self.datapool_path),
            );
            let ghost r0 = r;
            r._restored = true;
            r.segments.fields_copied_back = true;
            r.ttl_buckets.buckets_copied_back = true;
            r.hashtable.table_copied_back = true;
            proof {
                Seg::lemma_same_state(&r0, &r);
                Seg::lemma_indexed_frame(&r0, &r);
                assert(r.free_q().len() == r.nsegs());
                assert forall|k: Seq<u8>| #[trigger] r.cas_of(k) == 0 by {
                    assert(r.cas_of(k) == r0.cas_of(k));
                }
            }
            return Some(r);
        }
        let ghost images = storage.images();
        proof {
            assert forall|c: Seg| #[trigger] self.saved(images, &c) implies c.free_q().len() <= u64::MAX && c.segments.headers@.len() <= u64::MAX
                && (forall|k: int| 0 <= k < c.ttl_buckets.buckets@.len() ==> #[trigger] c.ttl_buckets.buckets@[k].segs@.len() <= u64::MAX) by {
                assert(c.segments.free_q.len() == c.free_q().len());
                assert(c.segments.headers.len() == c.segments.headers@.len());
                assert forall|k: int| 0 <= k < c.ttl_buckets.buckets@.len() implies #[trigger] c.ttl_buckets.buckets@[k].segs@.len() <= u64::MAX by {
                    assert(c.ttl_buckets.buckets@[k].segs.len() == c.ttl_buckets.buckets@[k].segs@.len());
                }
            }
        }
        let data: Vec<u8> = match data_img {
            Some(d) => d,
            None => {
                assert forall|c: Seg| !#[trigger] self.saved(images, &c) by {}
                assert(nseg * ss <= self.heap_size) by (nonlinear_arith)
                    requires
                        nseg == self.heap_size as nat / (ss as nat),
                        ss >= 1,
                ;
                vec![0u8; nseg * (ss as usize)]
            },
        };
        let segments: Segments = match fields_img {
            Some(b) => {
                proof {
                    assert forall|c: Seg| #[trigger] self.saved(images, &c) implies b@ == segments_image(&c.segments) by {}
                    assert forall|c: Seg| #[trigger] self.saved(images, &c) implies b@.len() % 8 == 0
                        && crate::snapshot::segments_words_ok(bytes_words(b@)) by {
                        lemma_segments_image_complete(&c.segments);
                    }
                }
                match decode_segments(&b, data, self.evict_policy, clone_path(&self.datapool_path)) {
                    Some(s) => {
                        proof {
                            assert forall|c: Seg| #[trigger] self.saved(images, &c) implies s.segment_size == c.segments.segment_size
                                && s.free_q@ == c.free_q() && s.headers@ == c.segments.headers@ by {
                                assert(s.free_q.len() == s.free_q@.len());
                                assert(s.headers.len() == s.headers@.len());
                                lemma_segments_image_inj(&c.segments, &s);
                            }
                        }
                        s
                    },
                    None => {
                        return None;
                    },
                }
            },
            None => {
                assert forall|c: Seg| !#[trigger] self.saved(images, &c) by {}
                let mut s = Segments::new(self.heap_size, ss, self.evict_policy, clone_path(&self.datapool_path));
                s.data = data;
                s.fields_copied_back = true;
                s
            },
        };
        let ttl_buckets: TtlBuckets = match ttl_img {
            Some(b) => {
                proof {
                    assert forall|c: Seg| #[trigger] self.saved(images, &c) implies b@ == ttl_image(&c.ttl_buckets)
                        && b@.len() % 8 == 0 && crate::snapshot::ttl_words_ok(bytes_words(b@)) by {
                        lemma_ttl_image_complete(&c.ttl_buckets);
                    }
                }
                match decode_ttl(&b) {
                    Some(t) => {
                        proof {
                            assert forall|c: Seg| #[trigger] self.saved(images, &c) implies forall|bb: int|
                                0 <= bb < MAX_N_TTL_BUCKET ==> #[trigger] t.buckets@[bb].ttl
                                    == c.ttl_buckets.buckets@[bb].ttl && t.buckets@[bb].segs@
                                    == c.ttl_buckets.buckets@[bb].segs@ by {
                                assert forall|k: int| 0 <= k < t.buckets@.len() implies #[trigger] t.buckets@[k].segs@.len()
                                    <= u64::MAX by {
                                    assert(t.buckets@[k].segs.len() == t.buckets@[k].segs@.len());
                                }
                                lemma_ttl_image_inj(&c.ttl_buckets, &t);
                            }
                        }
                        t
                    },
                    None => {
                        return None;
                    },
                }
            },
            None => {
                assert forall|c: Seg| !#[trigger] self.saved(images, &c) by {}
                let mut t = TtlBuckets::new();
                t.buckets_copied_back = true;
                t
            },
        };
        let hashtable: HashTable = match table_img {
            Some(b) => {
                match decode_table(&b) {
                    Some(t) => {
                        proof {
                            assert forall|c: Seg| #[trigger] self.saved(images, &c) implies t.power
                                == c.hashtable.power && t.nbuckets == c.hashtable.nbuckets && t.slots@
                                == c.slots() by {
                                assert(b@ == words_bytes(
                                    table_words(c.hashtable.power, c.hashtable.nbuckets, c.slots()),
                                ));
                            }
                        }
                        t
                    },
                    None => {
                        proof {
                            assert forall|c: Seg| !#[trigger] self.saved(images, &c) by {
                                if self.saved(images, &c) {
                                    assert(b@ == words_bytes(
                                        table_words(c.hashtable.power, c.hashtable.nbuckets, c.slots()),
                                    ));
                                }
                            }
                        }
                        return None;
                    },
                }
            },
            None => {
                assert forall|c: Seg| !#[trigger] self.saved(images, &c) by {}
                let mut t = HashTable::new(self.hash_power);
                t.table_copied_back = true;
                t
            },
        };
        if hashtable.power != self.hash_power || segments.segment_size != ss || segments.headers.len()
            != nseg || ttl_buckets.buckets.len() != MAX_N_TTL_BUCKET {
            return None;
        }
        let members = build_index(&hashtable.slots, segments.headers.len());
        let r = Seg {
            hashtable,
            segments,
            ttl_buckets,
            _restored: true,
            clock: instant_now(),
            members,
        };
        proof {
            assert forall|c: Seg| #[trigger] self.saved(images, &c) implies same_state(&r, &c) by {
                assert forall|bb: int| 0 <= bb < r.ttl_buckets.buckets@.len() implies #[trigger] r.ttl_buckets.buckets@[bb].ttl
                    == c.ttl_buckets.buckets@[bb].ttl && r.chain(bb) == c.chain(bb) by {}
            }
        }
        if r.check_items() {
            proof {
                Seg::lemma_index_built(&r);
            }
            Some(r)
        } else {
            proof {
                assert forall|c: Seg| !#[trigger] self.saved(images, &c) by {
                    if self.saved(images, &c) {
                        Seg::lemma_same_state(&r, &c);
                    }
                }
            }
            None
        }
    }
}


/// Configures the graceful shutdown of a `Seg` instance, which saves its
/// structures so that a later instance can restore them.
pub struct Demolisher {
    pub heap_size: usize,
    pub segments_fields_path: Option<String>,
    pub ttl_buckets_path: Option<String>,
    pub hashtable_path: Option<String>,
}

impl Default for Demolisher {
    fn default() -> (r: Demolisher)
        ensures
            r.heap_size == DEFAULT_HEAP_SIZE,
            r.segments_fields_path is None,
            r.ttl_buckets_path is None,
            r.hashtable_path is None,
    {
        Demolisher {
            heap_size: DEFAULT_HEAP_SIZE,
            segments_fields_path: None,
            ttl_buckets_path: None,
            hashtable_path: None,
        }
    }
}

impl Demolisher {
    /// Sets the heap size of the cache being shut down.
    pub fn heap_size(self, heap_size: usize) -> (r: Demolisher)
        ensures
            r == (Demolisher { heap_size, ..self }),
    {
        Demolisher { heap_size, ..self }
    }

    /// Sets the path the segments' metadata is saved to.
    pub fn segments_fields_path(self, segments_fields_path: Option<String>) -> (r: Demolisher)
        ensures
            r == (Demolisher { segments_fields_path, ..self }),
    {
        Demolisher { segments_fields_path, ..self }
    }

    /// Sets the path the time-to-live buckets are saved to.
    pub fn ttl_buckets_path(self, ttl_buckets_path: Option<String>) -> (r: Demolisher)
        ensures
            r == (Demolisher { ttl_buckets_path, ..self }),
    {
        Demolisher { ttl_buckets_path, ..self }
    }

    /// Sets the path the hash table is saved to.
    pub fn hashtable_path(self, hashtable_path: Option<String>) -> (r: Demolisher)
        ensures
            r == (Demolisher { hashtable_path, ..self }),
    {
        Demolisher { hashtable_path, ..self }
    }

    /// The cache can be shut down gracefully: its data pool is backed by a
    /// file, the three paths are set, and the heap size is the cache's.
    pub open spec fn graceful(&self, cache: &Seg) -> bool {
        &&& cache.segments.datapool_path is Some
        &&& self.segments_fields_path is Some
        &&& self.ttl_buckets_path is Some
        &&& self.hashtable_path is Some
        &&& self.heap_size as nat / (cache.seg_size() as nat) == cache.nsegs()
    }

    /// Shuts the cache down. When it can be shut down gracefully, its data
    /// pool is saved under its own path and its structures under the three
    /// paths, and `true` is returned; otherwise nothing is saved and `false`
    /// is returned.
    pub fn demolish(self, cache: Seg, storage: &mut Storage) -> (r: bool)
        requires
            cache.inv(),
            old(storage).wf(),
        ensures
            final(storage).wf(),
            r == self.graceful(&cache),
            r ==> final(storage).images() == old(storage).images().insert(
                path_view(cache.segments.datapool_path),
                cache.data(),
            ).insert(path_view(self.segments_fields_path), segments_image(&cache.segments)).insert(
                path_view(self.ttl_buckets_path),
                ttl_image(&cache.ttl_buckets),
            ).insert(path_view(self.hashtable_path), table_image(&cache.hashtable)),
            !r ==> *final(storage) == *old(storage),
    {
        let dp = match &cache.segments.datapool_path {
            Some(p) => p,
            None => {
                return false;
            },
        };
        let fp = match &self.segments_fields_path {
            Some(p) => p,
            None => {
                return false;
            },
        };
        let tp = match &self.ttl_buckets_path {
            Some(p) => p,
            None => {
                return false;
            },
        };
        let hp = match &self.hashtable_path {
            Some(p) => p,
            None => {
                return false;
            },
        };
        if self.heap_size / (cache.segments.segment_size as usize) != cache.segments.headers.len() {
            return false;
        }
        let fields = encode_segments(&cache.segments);
        let buckets = encode_ttl(&cache.ttl_buckets);
        let table = encode_table(&cache.hashtable);
        storage.write(dp, cache.segments.data.clone());
        storage.write(fp, fields);
        storage.write(tp, buckets);
        storage.write(hp, table);
        true
    }
}

/// Restoring what a graceful shutdown saved gives back the cache that was
/// shut down: the same structures, hence the same items.
pub proof fn lemma_shutdown_restore(
    d: Demolisher,
    cache: Seg,
    before: Map<Seq<char>, Seq<u8>>,
    after: Map<Seq<char>, Seq<u8>>,
    b: Builder,
    r: Seg,
)
    requires
        cache.inv(),
        d.graceful(&cache),
        after == before.insert(path_view(cache.segments.datapool_path), cache.data()).insert(
            path_view(d.segments_fields_path),
            segments_image(&cache.segments),
        ).insert(path_view(d.ttl_buckets_path), ttl_image(&cache.ttl_buckets)).insert(
            path_view(d.hashtable_path),
            table_image(&cache.hashtable),
        ),
        path_view(cache.segments.datapool_path) != path_view(d.segments_fields_path),
        path_view(cache.segments.datapool_path) != path_view(d.ttl_buckets_path),
        path_view(cache.segments.datapool_path) != path_view(d.hashtable_path),
        path_view(d.segments_fields_path) != path_view(d.ttl_buckets_path),
        path_view(d.segments_fields_path) != path_view(d.hashtable_path),
        path_view(d.ttl_buckets_path) != path_view(d.hashtable_path),
        b.restore,
        b.datapool_path == cache.segments.datapool_path,
        b.segments_fields_path == d.segments_fields_path,
        b.ttl_buckets_path == d.ttl_buckets_path,
        b.hashtable_path == d.hashtable_path,
        b.configures(&cache),
        b.build_post(after, &r),
    ensures
        r._restored,
        same_state(&r, &cache),
        r@ == cache@,
{
    assert(b.saved(after, &cache));
    Seg::lemma_same_state(&r, &cache);
}

} // verus!
