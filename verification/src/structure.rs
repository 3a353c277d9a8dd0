//! The shape of the structures: the CAS slots of the hash table, the
//! segments and the free queue, the chains of the time-to-live buckets and
//! the times of their segments, with the facts that keep them valid.

use crate::ttl_buckets::bucket_ttl_spec;
use crate::segments::{SegmentHeader, Segments};
use crate::ttl_buckets::{TtlBuckets, MAX_N_TTL_BUCKET};
use vstd::prelude::*;
use vstd::set_lib::{lemma_int_range, set_int_range};

verus! {

/// The first slot of every bucket holds a 32-bit CAS value and a 16-bit
/// second above it.
pub open spec fn cas_slots_ok(slots: Seq<u64>, nb: int) -> bool {
    forall|b: int| 0 <= b < nb ==> #[trigger] slots[b * 8] < 0x1_0000_0000_0000
}

/// The shape of the segments and of the free queue.
pub open spec fn segments_ok(segs: Segments) -> bool {
    let ss = segs.segment_size as int;
    let n = segs.headers@.len() as int;
    &&& 1 <= ss <= 0x80_0000
    &&& 1 <= n <= 0xff_ffff
    &&& segs.data@.len() == n * ss
    &&& forall|s: int|
        0 <= s < n ==> #[trigger] segs.headers@[s].write_offset <= ss
            && segs.headers@[s].write_offset % 8 == 0
    &&& forall|j: int| 0 <= j < segs.free_q@.len() ==> #[trigger] segs.free_q@[j] < n
    &&& segs.free_q@.no_duplicates()
}

/// Every segment in a bucket's chain is a valid segment that is not free,
/// and no segment is in two places of the chains.
pub open spec fn chains_ok(n: int, free_q: Seq<u32>, ttl: TtlBuckets) -> bool {
    &&& ttl.buckets@.len() == MAX_N_TTL_BUCKET
    &&& forall|b: int, p: int|
        0 <= b < MAX_N_TTL_BUCKET && 0 <= p < ttl.buckets@[b].segs@.len()
            ==> #[trigger] ttl.buckets@[b].segs@[p] < n && !free_q.contains(
            ttl.buckets@[b].segs@[p],
        )
    &&& forall|b1: int, p1: int, b2: int, p2: int|
        0 <= b1 < MAX_N_TTL_BUCKET && 0 <= p1 < ttl.buckets@[b1].segs@.len() && 0 <= b2
            < MAX_N_TTL_BUCKET && 0 <= p2 < ttl.buckets@[b2].segs@.len() && (b1 != b2 || p1 != p2)
            ==> #[trigger] ttl.buckets@[b1].segs@[p1] != #[trigger] ttl.buckets@[b2].segs@[p2]
}

/// Every bucket has the time-to-live of its range, every segment in a
/// bucket's chain has the bucket's time-to-live, and the segments of a chain
/// were created in the order of the chain.
pub open spec fn chains_timed(h: Seq<SegmentHeader>, t: TtlBuckets) -> bool {
    &&& forall|b: int| 0 <= b < MAX_N_TTL_BUCKET ==> #[trigger] t.buckets@[b].ttl == bucket_ttl_spec(b)
    &&& forall|b: int, p: int|
        0 <= b < MAX_N_TTL_BUCKET && 0 <= p < t.buckets@[b].segs@.len() ==> #[trigger] h[t.buckets@[b].segs@[p] as int].ttl
            == t.buckets@[b].ttl
    &&& forall|b: int, p: int, q: int|
        0 <= b < MAX_N_TTL_BUCKET && 0 <= p < q < t.buckets@[b].segs@.len() ==> #[trigger] h[t.buckets@[b].segs@[p] as int].create_at
            <= #[trigger] h[t.buckets@[b].segs@[q] as int].create_at
}

/// Headers that keep the times of every segment keep the chains timed.
pub proof fn lemma_timed_same_times(h1: Seq<SegmentHeader>, h2: Seq<SegmentHeader>, t: TtlBuckets)
    requires
        chains_timed(h1, t),
        forall|u: int|
            #![trigger h2[u]]
            0 <= u < h1.len() ==> h2[u].ttl == h1[u].ttl && h2[u].create_at == h1[u].create_at,
        forall|b: int, p: int|
            0 <= b < MAX_N_TTL_BUCKET && 0 <= p < t.buckets@[b].segs@.len() ==> #[trigger] t.buckets@[b].segs@[p]
                < h1.len(),
    ensures
        chains_timed(h2, t),
{
    assert forall|b: int, p: int|
        0 <= b < MAX_N_TTL_BUCKET && 0 <= p < t.buckets@[b].segs@.len() implies #[trigger] h2[t.buckets@[b].segs@[p] as int].ttl
        == t.buckets@[b].ttl by {
        assert(t.buckets@[b].segs@[p] < h1.len());
    }
    assert forall|b: int, p: int, q: int|
        0 <= b < MAX_N_TTL_BUCKET && 0 <= p < q < t.buckets@[b].segs@.len() implies #[trigger] h2[t.buckets@[b].segs@[p] as int].create_at
        <= #[trigger] h2[t.buckets@[b].segs@[q] as int].create_at by {
        assert(t.buckets@[b].segs@[p] < h1.len());
        assert(t.buckets@[b].segs@[q] < h1.len());
        assert(h1[t.buckets@[b].segs@[p] as int].create_at <= h1[t.buckets@[b].segs@[q] as int].create_at);
    }
}

/// Appending segment `s`, with the bucket's time-to-live and created no
/// earlier than the chain's last segment, to the chain of bucket `b` keeps
/// the chains timed.
pub proof fn lemma_timed_push(
    h1: Seq<SegmentHeader>,
    h2: Seq<SegmentHeader>,
    t1: TtlBuckets,
    t2: TtlBuckets,
    b: int,
    s: int,
)
    requires
        chains_timed(h1, t1),
        0 <= b < MAX_N_TTL_BUCKET,
        t1.buckets@.len() == MAX_N_TTL_BUCKET,
        t2.buckets@.len() == MAX_N_TTL_BUCKET,
        forall|bb: int| 0 <= bb < MAX_N_TTL_BUCKET ==> #[trigger] t2.buckets@[bb].ttl == t1.buckets@[bb].ttl,
        t2.buckets@[b].segs@ == t1.buckets@[b].segs@.push(s as u32),
        forall|bb: int|
            0 <= bb < MAX_N_TTL_BUCKET && bb != b ==> #[trigger] t2.buckets@[bb].segs@ == t1.buckets@[bb].segs@,
        forall|bb: int, p: int|
            0 <= bb < MAX_N_TTL_BUCKET && 0 <= p < t1.buckets@[bb].segs@.len() ==> #[trigger] t1.buckets@[bb].segs@[p]
                != s,
        h2.len() == h1.len(),
        forall|bb: int, p: int|
            0 <= bb < MAX_N_TTL_BUCKET && 0 <= p < t1.buckets@[bb].segs@.len() ==> #[trigger] t1.buckets@[bb].segs@[p]
                < h1.len(),
        forall|u: int| #![trigger h2[u]] 0 <= u < h1.len() && u != s ==> h2[u] == h1[u],
        0 <= s < h1.len(),
        0 <= s < 0x1_0000_0000,
        h2[s].ttl == t1.buckets@[b].ttl,
        t1.buckets@[b].segs@.len() > 0 ==> h1[t1.buckets@[b].segs@.last() as int].create_at
            <= h2[s].create_at,
    ensures
        chains_timed(h2, t2),
{
    assert forall|bb: int| 0 <= bb < MAX_N_TTL_BUCKET implies #[trigger] t2.buckets@[bb].ttl
        == bucket_ttl_spec(bb) by {
        assert(t1.buckets@[bb].ttl == bucket_ttl_spec(bb));
    }
    assert forall|bb: int, p: int|
        0 <= bb < MAX_N_TTL_BUCKET && 0 <= p < t2.buckets@[bb].segs@.len() implies #[trigger] h2[t2.buckets@[bb].segs@[p] as int].ttl
        == t2.buckets@[bb].ttl by {
        assert(t2.buckets@[bb].ttl == t1.buckets@[bb].ttl);
        if bb == b && p == t1.buckets@[b].segs@.len() {
            assert(t2.buckets@[b].segs@[p] == s as u32);
        } else {
            assert(t2.buckets@[bb].segs@[p] == t1.buckets@[bb].segs@[p]);
            assert(t1.buckets@[bb].segs@[p] != s);
            assert(h2[t1.buckets@[bb].segs@[p] as int] == h1[t1.buckets@[bb].segs@[p] as int]);
            assert(h1[t1.buckets@[bb].segs@[p] as int].ttl == t1.buckets@[bb].ttl);
        }
    }
    assert forall|bb: int, p: int, q: int|
        0 <= bb < MAX_N_TTL_BUCKET && 0 <= p < q < t2.buckets@[bb].segs@.len() implies #[trigger] h2[t2.buckets@[bb].segs@[p] as int].create_at
        <= #[trigger] h2[t2.buckets@[bb].segs@[q] as int].create_at by {
        let n1 = t1.buckets@[b].segs@.len();
        assert(t2.buckets@[bb].segs@[p] == t1.buckets@[bb].segs@[p]);
        assert(t1.buckets@[bb].segs@[p] != s);
        assert(h2[t1.buckets@[bb].segs@[p] as int] == h1[t1.buckets@[bb].segs@[p] as int]);
        if bb == b && q == n1 {
            assert(t2.buckets@[b].segs@[q] == s as u32);
            let last = t1.buckets@[b].segs@[n1 - 1];
            assert(last == t1.buckets@[b].segs@.last());
            if p < n1 - 1 {
                assert(h1[t1.buckets@[b].segs@[p] as int].create_at <= h1[last as int].create_at);
            }
        } else {
            assert(t1.buckets@[bb].segs@[q] != s);
            assert(h2[t1.buckets@[bb].segs@[q] as int] == h1[t1.buckets@[bb].segs@[q] as int]);
            assert(t2.buckets@[bb].segs@[q] == t1.buckets@[bb].segs@[q]);
            assert(h1[t1.buckets@[bb].segs@[p] as int].create_at <= h1[t1.buckets@[bb].segs@[q] as int].create_at);
        }
    }
}

/// Removing the segment at position `p` of the chain of bucket `b`, whose
/// header may then change, keeps the chains timed.
pub proof fn lemma_timed_remove(
    h1: Seq<SegmentHeader>,
    h2: Seq<SegmentHeader>,
    t1: TtlBuckets,
    t2: TtlBuckets,
    b: int,
    p: int,
)
    requires
        chains_timed(h1, t1),
        0 <= b < MAX_N_TTL_BUCKET,
        0 <= p < t1.buckets@[b].segs@.len(),
        t1.buckets@.len() == MAX_N_TTL_BUCKET,
        t2.buckets@.len() == MAX_N_TTL_BUCKET,
        forall|bb: int| 0 <= bb < MAX_N_TTL_BUCKET ==> #[trigger] t2.buckets@[bb].ttl == t1.buckets@[bb].ttl,
        t2.buckets@[b].segs@ == t1.buckets@[b].segs@.remove(p),
        forall|bb: int|
            0 <= bb < MAX_N_TTL_BUCKET && bb != b ==> #[trigger] t2.buckets@[bb].segs@ == t1.buckets@[bb].segs@,
        h2.len() == h1.len(),
        forall|bb: int, q: int|
            0 <= bb < MAX_N_TTL_BUCKET && 0 <= q < t1.buckets@[bb].segs@.len() ==> #[trigger] t1.buckets@[bb].segs@[q]
                < h1.len(),
        forall|u: int|
            #![trigger h2[u]]
            0 <= u < h1.len() && u != t1.buckets@[b].segs@[p] ==> h2[u] == h1[u],
        forall|bb: int, q: int|
            0 <= bb < MAX_N_TTL_BUCKET && 0 <= q < t2.buckets@[bb].segs@.len() ==> #[trigger] t2.buckets@[bb].segs@[q]
                != t1.buckets@[b].segs@[p],
    ensures
        chains_timed(h2, t2),
{
    let s = t1.buckets@[b].segs@[p];
    assert forall|bb: int| 0 <= bb < MAX_N_TTL_BUCKET implies #[trigger] t2.buckets@[bb].ttl
        == bucket_ttl_spec(bb) by {
        assert(t1.buckets@[bb].ttl == bucket_ttl_spec(bb));
    }
    assert forall|bb: int, q: int|
        0 <= bb < MAX_N_TTL_BUCKET && 0 <= q < t2.buckets@[bb].segs@.len() implies #[trigger] h2[t2.buckets@[bb].segs@[q] as int].ttl
        == t2.buckets@[bb].ttl by {
        let q1 = if bb == b && q >= p {
            q + 1
        } else {
            q
        };
        assert(t2.buckets@[bb].segs@[q] == t1.buckets@[bb].segs@[q1]);
        assert(h1[t1.buckets@[bb].segs@[q1] as int].ttl == t1.buckets@[bb].ttl);
    }
    assert forall|bb: int, q: int, r: int|
        0 <= bb < MAX_N_TTL_BUCKET && 0 <= q < r < t2.buckets@[bb].segs@.len() implies #[trigger] h2[t2.buckets@[bb].segs@[q] as int].create_at
        <= #[trigger] h2[t2.buckets@[bb].segs@[r] as int].create_at by {
        let q1 = if bb == b && q >= p {
            q + 1
        } else {
            q
        };
        let r1 = if bb == b && r >= p {
            r + 1
        } else {
            r
        };
        assert(t2.buckets@[bb].segs@[q] == t1.buckets@[bb].segs@[q1]);
        assert(t2.buckets@[bb].segs@[r] == t1.buckets@[bb].segs@[r1]);
        assert(h1[t1.buckets@[bb].segs@[q1] as int].create_at <= h1[t1.buckets@[bb].segs@[r1] as int].create_at);
    }
}

/// Buckets with the same times and chains are timed together.
pub proof fn lemma_chains_timed_eq(h: Seq<SegmentHeader>, ta: TtlBuckets, tb: TtlBuckets)
    requires
        ta.buckets@.len() == MAX_N_TTL_BUCKET,
        ta.buckets@.len() == tb.buckets@.len(),
        forall|bb: int|
            0 <= bb < ta.buckets@.len() ==> #[trigger] ta.buckets@[bb].segs@ == tb.buckets@[bb].segs@
                && ta.buckets@[bb].ttl == tb.buckets@[bb].ttl,
    ensures
        chains_timed(h, ta) == chains_timed(h, tb),
{
    if chains_timed(h, ta) {
        assert forall|bb: int| 0 <= bb < MAX_N_TTL_BUCKET implies #[trigger] tb.buckets@[bb].ttl
            == bucket_ttl_spec(bb) by {
            assert(ta.buckets@[bb].segs@ == tb.buckets@[bb].segs@);
            assert(ta.buckets@[bb].ttl == bucket_ttl_spec(bb));
        }
        assert forall|bb: int, p: int|
            0 <= bb < MAX_N_TTL_BUCKET && 0 <= p < tb.buckets@[bb].segs@.len() implies #[trigger] h[tb.buckets@[bb].segs@[p] as int].ttl
            == tb.buckets@[bb].ttl by {
            assert(ta.buckets@[bb].segs@ == tb.buckets@[bb].segs@);
            assert(h[ta.buckets@[bb].segs@[p] as int].ttl == ta.buckets@[bb].ttl);
        }
        assert forall|bb: int, p: int, q: int|
            0 <= bb < MAX_N_TTL_BUCKET && 0 <= p < q < tb.buckets@[bb].segs@.len() implies #[trigger] h[tb.buckets@[bb].segs@[p] as int].create_at
            <= #[trigger] h[tb.buckets@[bb].segs@[q] as int].create_at by {
            assert(ta.buckets@[bb].segs@ == tb.buckets@[bb].segs@);
            assert(h[ta.buckets@[bb].segs@[p] as int].create_at <= h[ta.buckets@[bb].segs@[q] as int].create_at);
        }
    }
    if chains_timed(h, tb) {
        assert forall|bb: int| 0 <= bb < MAX_N_TTL_BUCKET implies #[trigger] ta.buckets@[bb].ttl
            == bucket_ttl_spec(bb) by {
            assert(ta.buckets@[bb].segs@ == tb.buckets@[bb].segs@);
            assert(tb.buckets@[bb].ttl == bucket_ttl_spec(bb));
        }
        assert forall|bb: int, p: int|
            0 <= bb < MAX_N_TTL_BUCKET && 0 <= p < ta.buckets@[bb].segs@.len() implies #[trigger] h[ta.buckets@[bb].segs@[p] as int].ttl
            == ta.buckets@[bb].ttl by {
            assert(ta.buckets@[bb].segs@ == tb.buckets@[bb].segs@);
            assert(h[tb.buckets@[bb].segs@[p] as int].ttl == tb.buckets@[bb].ttl);
        }
        assert forall|bb: int, p: int, q: int|
            0 <= bb < MAX_N_TTL_BUCKET && 0 <= p < q < ta.buckets@[bb].segs@.len() implies #[trigger] h[ta.buckets@[bb].segs@[p] as int].create_at
            <= #[trigger] h[ta.buckets@[bb].segs@[q] as int].create_at by {
            assert(ta.buckets@[bb].segs@ == tb.buckets@[bb].segs@);
            assert(h[tb.buckets@[bb].segs@[p] as int].create_at <= h[tb.buckets@[bb].segs@[q] as int].create_at);
        }
    }
}

pub proof fn lemma_chains_ok_eq(n: int, f: Seq<u32>, ta: TtlBuckets, tb: TtlBuckets)
    requires
        ta.buckets@.len() == tb.buckets@.len(),
        forall|bb: int| 0 <= bb < ta.buckets@.len() ==> #[trigger] ta.buckets@[bb].segs@ == tb.buckets@[bb].segs@,
    ensures
        chains_ok(n, f, ta) == chains_ok(n, f, tb),
{
    if chains_ok(n, f, ta) {
        assert forall|b: int, p: int|
            0 <= b < MAX_N_TTL_BUCKET && 0 <= p < tb.buckets@[b].segs@.len() implies #[trigger] tb.buckets@[b].segs@[p]
            < n && !f.contains(tb.buckets@[b].segs@[p]) by {
            assert(ta.buckets@[b].segs@ == tb.buckets@[b].segs@);
            assert(ta.buckets@[b].segs@[p] == tb.buckets@[b].segs@[p]);
        }
        assert forall|b1: int, p1: int, b2: int, p2: int|
            0 <= b1 < MAX_N_TTL_BUCKET && 0 <= p1 < tb.buckets@[b1].segs@.len() && 0 <= b2
                < MAX_N_TTL_BUCKET && 0 <= p2 < tb.buckets@[b2].segs@.len() && (b1 != b2 || p1 != p2)
                implies #[trigger] tb.buckets@[b1].segs@[p1] != #[trigger] tb.buckets@[b2].segs@[p2] by {
            assert(ta.buckets@[b1].segs@ == tb.buckets@[b1].segs@);
            assert(ta.buckets@[b2].segs@ == tb.buckets@[b2].segs@);
            assert(ta.buckets@[b1].segs@[p1] != ta.buckets@[b2].segs@[p2]);
        }
    }
    if chains_ok(n, f, tb) {
        assert forall|b: int, p: int|
            0 <= b < MAX_N_TTL_BUCKET && 0 <= p < ta.buckets@[b].segs@.len() implies #[trigger] ta.buckets@[b].segs@[p]
            < n && !f.contains(ta.buckets@[b].segs@[p]) by {
            assert(ta.buckets@[b].segs@ == tb.buckets@[b].segs@);
            assert(ta.buckets@[b].segs@[p] == tb.buckets@[b].segs@[p]);
        }
        assert forall|b1: int, p1: int, b2: int, p2: int|
            0 <= b1 < MAX_N_TTL_BUCKET && 0 <= p1 < ta.buckets@[b1].segs@.len() && 0 <= b2
                < MAX_N_TTL_BUCKET && 0 <= p2 < ta.buckets@[b2].segs@.len() && (b1 != b2 || p1 != p2)
                implies #[trigger] ta.buckets@[b1].segs@[p1] != #[trigger] ta.buckets@[b2].segs@[p2] by {
            assert(ta.buckets@[b1].segs@ == tb.buckets@[b1].segs@);
            assert(ta.buckets@[b2].segs@ == tb.buckets@[b2].segs@);
            assert(tb.buckets@[b1].segs@[p1] != tb.buckets@[b2].segs@[p2]);
        }
    }
}

pub proof fn lemma_addr(s: int, ss: int, o: int, n: int)
    requires
        0 <= s < n,
        0 <= o <= ss,
        ss >= 0,
    ensures
        0 <= s * ss,
        s * ss + o <= n * ss,
        s * ss + ss <= n * ss,
{
    assert(0 <= s * ss) by (nonlinear_arith)
        requires
            0 <= s,
            ss >= 0,
    ;
    assert(s * ss + ss <= n * ss) by (nonlinear_arith)
        requires
            s < n,
            ss >= 0,
    ;
}

/// Distinct segments do not overlap.
pub proof fn lemma_seg_disjoint(s: int, t: int, ss: int)
    requires
        0 <= s,
        0 <= t,
        s != t,
        ss >= 0,
    ensures
        s * ss + ss <= t * ss || t * ss + ss <= s * ss,
{
    if s < t {
        assert(s * ss + ss <= t * ss) by (nonlinear_arith)
            requires
                s < t,
                ss >= 0,
        ;
    } else {
        assert(t * ss + ss <= s * ss) by (nonlinear_arith)
            requires
                t < s,
                ss >= 0,
        ;
    }
}

/// A queue of distinct segment ids below `n` that holds every id below `n`
/// has length `n`.
pub proof fn lemma_full_queue(f: Seq<u32>, n: int)
    requires
        0 <= n <= u32::MAX,
        f.no_duplicates(),
        forall|j: int| 0 <= j < f.len() ==> #[trigger] f[j] < n,
        forall|t: int| 0 <= t < n ==> #[trigger] f.contains(t as u32),
    ensures
        f.len() == n,
{
    let g = f.map_values(|x: u32| x as int);
    assert forall|i: int, j: int| 0 <= i < g.len() && 0 <= j < g.len() && i != j implies g[i]
        != g[j] by {
        assert(f[i] != f[j]);
    }
    assert(g.no_duplicates());
    g.unique_seq_to_set();
    lemma_int_range(0, n);
    assert forall|x: int| #[trigger] g.to_set().contains(x) <==> set_int_range(0, n).contains(x) by {
        if g.to_set().contains(x) {
            assert(g.contains(x));
            let j = choose|j: int| 0 <= j < g.len() && g[j] == x;
            assert(f[j] < n);
        }
        if set_int_range(0, n).contains(x) {
            assert(f.contains(x as u32));
            let j = choose|j: int| 0 <= j < f.len() && f[j] == x as u32;
            assert(g[j] == x);
            assert(g.contains(x));
        }
    }
    assert(g.to_set() =~= set_int_range(0, n));
}

} // verus!
