//! The segments: fixed-size regions of one data pool into which items are
//! appended, together with their headers and the queue of free segments.
use vstd::prelude::*;

verus! {

/// How a segment is chosen for eviction when no free segment is left.
#[derive(Clone, Copy, Debug, PartialEq, Eq, Structural)]
pub enum Policy {
    /// Nothing is evicted: inserts fail once every segment is in use.
    NoEviction,
    /// A segment chosen at random among those that may be evicted.
    Random,
    /// The segment that was created first.
    Fifo,
    /// The segment that is closest to expiration.
    Cte,
}

/// The metadata of one segment.
#[derive(Clone, Copy, Debug, PartialEq, Eq)]
pub struct SegmentHeader {
    /// Offset at which the next item is appended.
    pub write_offset: u32,
    /// When the segment was taken from the free queue, in seconds of the
    /// cache's clock.
    pub create_at: u32,
    /// The time-to-live of the items of the segment, in seconds.
    pub ttl: u32,
}

/// Largest segment size: item offsets are recorded in 20 bits, in units of
/// eight bytes.
pub const MAX_SEGMENT_SIZE: u32 = 0x80_0000;

/// Largest number of segments: segment ids are recorded in 24 bits.
pub const MAX_SEGMENTS: usize = 0xff_ffff;

pub struct Segments {
    /// One header per segment.
    pub headers: Vec<SegmentHeader>,
    /// The data pool: segment `s` is `data[s * segment_size .. (s + 1) * segment_size]`.
    pub data: Vec<u8>,
    pub segment_size: u32,
    /// Ids of the free segments; the last one is taken first.
    pub free_q: Vec<u32>,
    pub evict_policy: Policy,
    /// The path of the file that backs the data pool, if any.
    pub datapool_path: Option<String>,
    /// The headers and the free queue were read back from a saved image.
    pub fields_copied_back: bool,
}

pub open spec fn empty_header() -> SegmentHeader {
    SegmentHeader { write_offset: 0, create_at: 0, ttl: 0 }
}

impl Segments {
    /// A pool of `heap_size / segment_size` segments, all free, the free
    /// queue handing out segment 0 first.
    pub fn new(
        heap_size: usize,
        segment_size: u32,
        evict_policy: Policy,
        datapool_path: Option<String>,
    ) -> (r: Segments)
        requires
            1 <= segment_size <= MAX_SEGMENT_SIZE,
            1 <= heap_size as nat / (segment_size as nat) <= MAX_SEGMENTS,
        ensures
            r.headers@.len() == heap_size as nat / (segment_size as nat),
            r.segment_size == segment_size,
            r.data@.len() == r.headers@.len() * segment_size,
            r.evict_policy == evict_policy,
            r.datapool_path == datapool_path,
            !r.fields_copied_back,
            forall|s: int| 0 <= s < r.headers@.len() ==> r.headers@[s] == empty_header(),
            r.free_q@.len() == r.headers@.len(),
            forall|j: int|
                0 <= j < r.free_q@.len() ==> r.free_q@[j] == r.headers@.len() - 1 - j,
    {
        let nseg: usize = heap_size / (segment_size as usize);
        assert(nseg * segment_size <= heap_size) by (nonlinear_arith)
            requires
                nseg == heap_size as nat / (segment_size as nat),
                segment_size >= 1,
        ;
        let data: Vec<u8> = vec![0u8; nseg * (segment_size as usize)];
        let mut headers: Vec<SegmentHeader> = Vec::with_capacity(nseg);
        let mut free_q: Vec<u32> = Vec::with_capacity(nseg);
        let mut i: usize = 0;
        while i < nseg
            invariant
                i <= nseg <= MAX_SEGMENTS,
                headers@.len() == i,
                free_q@.len() == i,
                forall|s: int| 0 <= s < i ==> headers@[s] == empty_header(),
                forall|j: int| 0 <= j < i ==> free_q@[j] == nseg - 1 - j,
            decreases nseg - i,
        {
            headers.push(SegmentHeader { write_offset: 0, create_at: 0, ttl: 0 });
            free_q.push((nseg - 1 - i) as u32);
            i = i + 1;
        }
        Segments {
            headers,
            data,
            segment_size,
            free_q,
            evict_policy,
            datapool_path,
            fields_copied_back: false,
        }
    }

    /// The number of free segments.
    pub fn free(&self) -> (r: usize)
        ensures
            r == self.free_q@.len(),
    {
        self.free_q.len()
    }

    /// Takes a segment from the free queue and returns its id plus one, or
    /// `None` if no segment is free.
    pub fn pop_free(&mut self) -> (r: Option<u32>)
        requires
            old(self).free_q@.len() > 0 ==> old(self).free_q@.last() < u32::MAX,
        ensures
            final(self).headers == old(self).headers,
            final(self).data == old(self).data,
            final(self).segment_size == old(self).segment_size,
            old(self).free_q@.len() == 0 ==> r is None && final(self).free_q@ == old(self).free_q@,
            old(self).free_q@.len() > 0 ==> r == Some((old(self).free_q@.last() + 1) as u32)
                && final(self).free_q@ == old(self).free_q@.drop_last(),
    {
        match self.free_q.pop() {
            Some(id) => Some(id + 1),
            None => None,
        }
    }

    /// Whether the data pool is backed by a file.
    pub fn data_file_backed(&self) -> (r: bool)
        ensures
            r == self.datapool_path.is_some(),
    {
        self.datapool_path.is_some()
    }
}

} // verus!
