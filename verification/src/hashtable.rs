//! The hash table that indexes the items of the cache.
//!
//! The table is an array of buckets of eight 64-bit slots. The first slot of
//! a bucket holds the bucket's CAS value; each of the other seven slots is
//! either zero (empty) or the packed location of one item:
//!
//! | bits   | field                                   |
//! |--------|-----------------------------------------|
//! | 52..64 | tag: the top bits of the key's hash     |
//! | 44..52 | access frequency                        |
//! | 20..44 | segment id                              |
//! | 0..20  | offset of the item in the segment / 8   |
//!
//! The tag always has its lowest bit set, so an occupied slot is never zero.
//! The low seven bits of the frequency byte count the reads of the item;
//! its high bit marks an item already counted in the current second, and is
//! cleared for all items of a bucket when the bucket sees a new second. The
//! second is kept in bits 32..48 of the bucket's first slot, above the CAS.
use vstd::prelude::*;

verus! {

/// Number of slots in a bucket, the first of which is the bucket's CAS value.
pub const BUCKET_SLOTS: usize = 8;

/// Highest access frequency that a slot records.
pub const MAX_FREQ: u64 = 127;

/// The frequency bit that marks an item read in the current second.
pub const RECENT: u64 = 0x80;

pub const FNV_OFFSET_BASIS: u64 = 0xcbf2_9ce4_8422_2325;

pub const FNV_PRIME: u64 = 0x0000_0100_0000_01b3;

/// The 64-bit FNV-1a hash of a key.
pub open spec fn hash_spec(k: Seq<u8>) -> u64
    decreases k.len(),
{
    if k.len() == 0 {
        FNV_OFFSET_BASIS
    } else {
        vstd::wrapping::u64_specs::wrapping_mul(
            hash_spec(k.drop_last()) ^ (k.last() as u64),
            FNV_PRIME,
        )
    }
}

/// The tag stored with an item whose key hashes to `h`.
pub open spec fn tag_of(h: u64) -> u64 {
    (h >> 52u64) | 1u64
}

pub open spec fn info_tag(x: u64) -> u64 {
    x >> 52u64
}

pub open spec fn info_freq(x: u64) -> u64 {
    (x >> 44u64) & 0xffu64
}

pub open spec fn info_seg(x: u64) -> u64 {
    (x >> 20u64) & 0xff_ffffu64
}

/// Offset of the item in its segment, in bytes.
pub open spec fn info_offset(x: u64) -> int {
    ((x & 0xf_ffffu64) as int) * 8
}

/// The second stamped in a bucket's first slot.
pub open spec fn bucket_stamp(x0: u64) -> u64 {
    x0 >> 32u64
}

/// The read count kept in a slot: the frequency byte without its high bit.
pub open spec fn info_count(x: u64) -> u64 {
    info_freq(x) % 0x80
}

pub open spec fn pack_spec(tag: u64, freq: u64, seg: u64, off8: u64) -> u64 {
    (tag << 52u64) | (freq << 44u64) | (seg << 20u64) | off8
}

pub proof fn lemma_tag(h: u64)
    ensures
        tag_of(h) < 0x1000,
        tag_of(h) != 0,
{
    assert(((h >> 52u64) | 1u64) < 0x1000 && ((h >> 52u64) | 1u64) != 0) by (bit_vector);
}

pub proof fn lemma_info_bounds(x: u64)
    ensures
        info_tag(x) < 0x1000,
        info_freq(x) < 0x100,
        info_seg(x) < 0x100_0000,
        x & 0xf_ffffu64 < 0x10_0000,
{
    assert(x >> 52u64 < 0x1000) by (bit_vector);
    assert((x >> 44u64) & 0xffu64 < 0x100) by (bit_vector);
    assert((x >> 20u64) & 0xff_ffffu64 < 0x100_0000) by (bit_vector);
    assert(x & 0xf_ffffu64 < 0x10_0000) by (bit_vector);
}

/// Unpacking a packed slot gives back its fields.
pub proof fn lemma_pack(tag: u64, freq: u64, seg: u64, off8: u64)
    requires
        tag < 0x1000,
        freq < 0x100,
        seg < 0x100_0000,
        off8 < 0x10_0000,
    ensures
        info_tag(pack_spec(tag, freq, seg, off8)) == tag,
        info_freq(pack_spec(tag, freq, seg, off8)) == freq,
        info_seg(pack_spec(tag, freq, seg, off8)) == seg,
        info_offset(pack_spec(tag, freq, seg, off8)) == off8 * 8,
        tag != 0 ==> pack_spec(tag, freq, seg, off8) != 0,
{
    assert(((tag << 52u64) | (freq << 44u64) | (seg << 20u64) | off8) >> 52u64 == tag)
        by (bit_vector)
        requires
            tag < 0x1000,
            freq < 0x100,
            seg < 0x100_0000,
            off8 < 0x10_0000,
    ;
    assert((((tag << 52u64) | (freq << 44u64) | (seg << 20u64) | off8) >> 44u64) & 0xffu64
        == freq) by (bit_vector)
        requires
            tag < 0x1000,
            freq < 0x100,
            seg < 0x100_0000,
            off8 < 0x10_0000,
    ;
    assert((((tag << 52u64) | (freq << 44u64) | (seg << 20u64) | off8) >> 20u64) & 0xff_ffffu64
        == seg) by (bit_vector)
        requires
            tag < 0x1000,
            freq < 0x100,
            seg < 0x100_0000,
            off8 < 0x10_0000,
    ;
    assert(((tag << 52u64) | (freq << 44u64) | (seg << 20u64) | off8) & 0xf_ffffu64 == off8)
        by (bit_vector)
        requires
            tag < 0x1000,
            freq < 0x100,
            seg < 0x100_0000,
            off8 < 0x10_0000,
    ;
    assert(tag != 0 ==> ((tag << 52u64) | (freq << 44u64) | (seg << 20u64) | off8) != 0)
        by (bit_vector)
        requires
            tag < 0x1000,
            freq < 0x100,
            seg < 0x100_0000,
            off8 < 0x10_0000,
    ;
}

/// Computes the hash of a key.
pub fn hash(key: &[u8]) -> (h: u64)
    ensures
        h == hash_spec(key@),
{
    let mut h: u64 = FNV_OFFSET_BASIS;
    let mut i: usize = 0;
    while i < key.len()
        invariant
            i <= key@.len(),
            h == hash_spec(key@.subrange(0, i as int)),
        decreases key@.len() - i,
    {
        assert(key@.subrange(0, i + 1).drop_last() =~= key@.subrange(0, i as int));
        h = (h ^ (key[i] as u64)).wrapping_mul(FNV_PRIME);
        i = i + 1;
    }
    assert(key@.subrange(0, key@.len() as int) =~= key@);
    h
}

pub fn tag(h: u64) -> (t: u64)
    ensures
        t == tag_of(h),
        t < 0x1000,
        t != 0,
{
    proof {
        lemma_tag(h);
    }
    (h >> 52u64) | 1u64
}

pub fn get_tag(x: u64) -> (r: u64)
    ensures
        r == info_tag(x),
{
    x >> 52u64
}

pub fn get_freq(x: u64) -> (r: u64)
    ensures
        r == info_freq(x),
{
    (x >> 44u64) & 0xffu64
}

pub fn get_seg(x: u64) -> (r: u64)
    ensures
        r == info_seg(x),
{
    (x >> 20u64) & 0xff_ffffu64
}

pub fn get_offset(x: u64) -> (r: u64)
    ensures
        r == info_offset(x),
{
    proof {
        lemma_info_bounds(x);
    }
    (x & 0xf_ffffu64) * 8
}

pub fn pack(tag: u64, freq: u64, seg: u64, off8: u64) -> (x: u64)
    requires
        tag < 0x1000,
        freq < 0x100,
        seg < 0x100_0000,
        off8 < 0x10_0000,
    ensures
        x == pack_spec(tag, freq, seg, off8),
        info_tag(x) == tag,
        info_freq(x) == freq,
        info_seg(x) == seg,
        info_offset(x) == off8 * 8,
        tag != 0 ==> x != 0,
{
    proof {
        lemma_pack(tag, freq, seg, off8);
    }
    (tag << 52u64) | (freq << 44u64) | (seg << 20u64) | off8
}

pub fn get_stamp(x0: u64) -> (r: u64)
    ensures
        r == bucket_stamp(x0),
{
    x0 >> 32u64
}

/// The first slot `x0` of a bucket with its CAS value kept and `stamp` as
/// its second.
pub open spec fn restamp_spec(x0: u64, stamp: u64) -> u64 {
    (x0 & 0xffff_ffffu64) | (stamp << 32u64)
}

/// The item slot `x` without the mark of the current second.
pub open spec fn recent_cleared(x: u64) -> u64 {
    x & 0xfff7_ffff_ffff_ffffu64
}

/// The first slot of a bucket with its CAS value kept and `stamp` as its
/// second.
pub fn restamp(x0: u64, stamp: u64) -> (r: u64)
    requires
        stamp < 0x1_0000,
    ensures
        r == restamp_spec(x0, stamp),
        r < 0x1_0000_0000_0000,
        r as u32 == x0 as u32,
        bucket_stamp(r) == stamp,
{
    assert(((x0 & 0xffff_ffffu64) | (stamp << 32u64)) < 0x1_0000_0000_0000u64) by (bit_vector)
        requires
            stamp < 0x1_0000u64,
    ;
    assert(((x0 & 0xffff_ffffu64) | (stamp << 32u64)) as u32 == x0 as u32) by (bit_vector);
    assert(((x0 & 0xffff_ffffu64) | (stamp << 32u64)) >> 32u64 == stamp) by (bit_vector)
        requires
            stamp < 0x1_0000u64,
    ;
    (x0 & 0xffff_ffffu64) | (stamp << 32u64)
}

/// Clearing the mark of the current second leaves the read count as the
/// slot's whole frequency byte.
pub proof fn lemma_recent_cleared(x: u64)
    ensures
        info_freq(recent_cleared(x)) == info_count(x),
{
    assert(((x & 0xfff7_ffff_ffff_ffffu64) >> 44u64) & 0xffu64 == ((x >> 44u64) & 0xffu64)
        % 0x80) by (bit_vector);
}

/// An item slot with the mark of the current second cleared.
pub fn clear_recent(x: u64) -> (r: u64)
    ensures
        r == recent_cleared(x),
        info_tag(r) == info_tag(x),
        info_seg(r) == info_seg(x),
        info_offset(r) == info_offset(x),
        info_freq(r) == info_count(x),
        info_tag(x) != 0 ==> r != 0,
{
    assert((x & 0xfff7_ffff_ffff_ffffu64) >> 52u64 == x >> 52u64) by (bit_vector);
    assert(((x & 0xfff7_ffff_ffff_ffffu64) >> 20u64) & 0xff_ffffu64 == (x >> 20u64)
        & 0xff_ffffu64) by (bit_vector);
    assert((x & 0xfff7_ffff_ffff_ffffu64) & 0xf_ffffu64 == x & 0xf_ffffu64) by (bit_vector);
    assert(((x & 0xfff7_ffff_ffff_ffffu64) >> 44u64) & 0xffu64 == ((x >> 44u64) & 0xffu64)
        % 0x80) by (bit_vector);
    assert(x >> 52u64 != 0 ==> (x & 0xfff7_ffff_ffff_ffffu64) != 0) by (bit_vector);
    x & 0xfff7_ffff_ffff_ffffu64
}

pub open spec fn two_pow(n: nat) -> nat
    decreases n,
{
    if n == 0 {
        1
    } else {
        2 * two_pow((n - 1) as nat)
    }
}

pub proof fn lemma_two_pow_28()
    ensures
        two_pow(27) == 0x800_0000,
        two_pow(28) == 0x1000_0000,
{
    reveal_with_fuel(two_pow, 30);
}

pub proof fn lemma_two_pow_pos(n: nat)
    ensures
        two_pow(n) >= 1,
    decreases n,
{
    if n > 0 {
        lemma_two_pow_pos((n - 1) as nat);
    }
}

pub proof fn lemma_two_pow_le(n: nat, m: nat)
    requires
        n <= m,
    ensures
        two_pow(n) <= two_pow(m),
    decreases m,
{
    if m > n {
        lemma_two_pow_le(n, (m - 1) as nat);
        lemma_two_pow_pos((m - 1) as nat);
    }
}

/// A power of two of at least 256 is 256 times a power of two.
pub proof fn lemma_two_pow_256(n: nat)
    requires
        n >= 8,
    ensures
        two_pow(n) == 256 * two_pow((n - 8) as nat),
    decreases n,
{
    if n > 8 {
        lemma_two_pow_256((n - 1) as nat);
    } else {
        reveal_with_fuel(two_pow, 9);
    }
}

/// Two distinct keys of one byte have hashes that differ modulo any power
/// of two of at least 256: the low byte of the hash is the key byte, mixed
/// with the low byte of the offset basis and multiplied by the odd low byte
/// of the prime.
pub proof fn lemma_one_byte_hashes(k1: Seq<u8>, k2: Seq<u8>, n: nat)
    requires
        k1.len() == 1,
        k2.len() == 1,
        k1 != k2,
        n >= 8,
    ensures
        hash_spec(k1) as int % (two_pow(n) as int) != hash_spec(k2) as int % (two_pow(n) as int),
{
    reveal_with_fuel(hash_spec, 2);
    assert(k1 =~= seq![k1[0]]);
    assert(k2 =~= seq![k2[0]]);
    let x1 = k1[0] as u64;
    let x2 = k2[0] as u64;
    assert(x1 != x2);
    let a1 = FNV_OFFSET_BASIS ^ x1;
    let a2 = FNV_OFFSET_BASIS ^ x2;
    assert(hash_spec(k1) == vstd::wrapping::u64_specs::wrapping_mul(a1, FNV_PRIME));
    assert(hash_spec(k2) == vstd::wrapping::u64_specs::wrapping_mul(a2, FNV_PRIME));
    let m64: int = 0x1_0000_0000_0000_0000;
    let p1: int = a1 as int * FNV_PRIME as int;
    let p2: int = a2 as int * FNV_PRIME as int;
    assert(p1 >= 0 && p2 >= 0) by (nonlinear_arith)
        requires
            p1 == a1 as int * FNV_PRIME as int,
            p2 == a2 as int * FNV_PRIME as int,
    ;
    assert(hash_spec(k1) as int == p1 % m64);
    assert(hash_spec(k2) as int == p2 % m64);
    vstd::arithmetic::div_mod::lemma_mod_mod(p1, 256, 0x100_0000_0000_0000);
    vstd::arithmetic::div_mod::lemma_mod_mod(p2, 256, 0x100_0000_0000_0000);
    vstd::arithmetic::div_mod::lemma_mul_mod_noop_general(a1 as int, FNV_PRIME as int, 256);
    vstd::arithmetic::div_mod::lemma_mul_mod_noop_general(a2 as int, FNV_PRIME as int, 256);
    assert(x1 < 256 ==> (0xcbf2_9ce4_8422_2325u64 ^ x1) % 256 == 0x25u64 ^ x1) by (bit_vector);
    assert(x2 < 256 ==> (0xcbf2_9ce4_8422_2325u64 ^ x2) % 256 == 0x25u64 ^ x2) by (bit_vector);
    assert(x1 < 256 && x2 < 256 && x1 != x2 ==> ((0x25u64 ^ x1) * 0xb3u64) % 256 != ((0x25u64
        ^ x2) * 0xb3u64) % 256) by (bit_vector);
    assert(p1 % 256 != p2 % 256);
    lemma_two_pow_256(n);
    let q = two_pow((n - 8) as nat) as int;
    lemma_two_pow_pos((n - 8) as nat);
    vstd::arithmetic::div_mod::lemma_mod_mod(hash_spec(k1) as int, 256, q);
    vstd::arithmetic::div_mod::lemma_mod_mod(hash_spec(k2) as int, 256, q);
}

/// The hash of a key is the FNV-1a hash of all its bytes: the empty key
/// hashes to the offset basis, and each further byte is mixed in by xor and
/// a multiplication by the prime, modulo 2^64.
pub proof fn lemma_hash_fnv(k: Seq<u8>, c: u8)
    ensures
        hash_spec(Seq::<u8>::empty()) == 0xcbf2_9ce4_8422_2325u64,
        hash_spec(k.push(c)) as int == ((hash_spec(k) ^ (c as u64)) as int * 0x100_0000_01b3int)
            % 0x1_0000_0000_0000_0000int,
{
    assert(k.push(c).drop_last() =~= k);
    assert(k.push(c).last() == c);
}

/// Multiplying by the FNV prime modulo 2^64 loses nothing: the prime is
/// odd, so distinct words stay distinct.
pub proof fn lemma_prime_mul_injective(x: u64, y: u64)
    requires
        x != y,
    ensures
        vstd::wrapping::u64_specs::wrapping_mul(x, FNV_PRIME)
            != vstd::wrapping::u64_specs::wrapping_mul(y, FNV_PRIME),
{
    let m: int = 0x1_0000_0000_0000_0000;
    let p: int = 0x100_0000_01b3;
    let inv: int = 0xce96_5057_aff6_957b;
    let q: int = 887285111055;
    assert(p * inv == 1 + q * m);
    let a: int = x as int * p;
    let b: int = y as int * p;
    assert(a * inv == x as int + (x as int * q) * m) by (nonlinear_arith)
        requires
            a == x as int * p,
            p * inv == 1 + q * m,
    ;
    assert(b * inv == y as int + (y as int * q) * m) by (nonlinear_arith)
        requires
            b == y as int * p,
            p * inv == 1 + q * m,
    ;
    assert(a >= 0 && b >= 0) by (nonlinear_arith)
        requires
            a == x as int * p,
            b == y as int * p,
            p > 0,
    ;
    vstd::arithmetic::div_mod::lemma_mul_mod_noop_left(a, inv, m);
    vstd::arithmetic::div_mod::lemma_mul_mod_noop_left(b, inv, m);
    vstd::arithmetic::div_mod::lemma_mod_multiples_vanish(x as int * q, x as int, m);
    vstd::arithmetic::div_mod::lemma_mod_multiples_vanish(y as int * q, y as int, m);
    vstd::arithmetic::div_mod::lemma_small_mod(x as nat, m as nat);
    vstd::arithmetic::div_mod::lemma_small_mod(y as nat, m as nat);
    assert(m * (x as int * q) + x as int == x as int + (x as int * q) * m);
    assert(m * (y as int * q) + y as int == y as int + (y as int * q) * m);
    assert(a % m * inv % m == x as int);
    assert(b % m * inv % m == y as int);
    assert(a % m != b % m);
    vstd::arithmetic::div_mod::lemma_mod_bound(a, m);
    vstd::arithmetic::div_mod::lemma_mod_bound(b, m);
}

/// Keys that differ in exactly one byte have different hashes, wherever
/// that byte stands: the hash depends on every byte of the key.
pub proof fn lemma_hash_one_byte_apart(p: Seq<u8>, b1: u8, b2: u8, s: Seq<u8>)
    requires
        b1 != b2,
    ensures
        hash_spec(p.push(b1) + s) != hash_spec(p.push(b2) + s),
    decreases s.len(),
{
    if s.len() == 0 {
        assert(p.push(b1) + s =~= p.push(b1));
        assert(p.push(b2) + s =~= p.push(b2));
        let h = hash_spec(p);
        assert((h ^ (b1 as u64)) != (h ^ (b2 as u64))) by (bit_vector)
            requires
                b1 != b2,
        ;
        lemma_hash_fnv(p, b1);
        lemma_hash_fnv(p, b2);
        lemma_prime_mul_injective(h ^ (b1 as u64), h ^ (b2 as u64));
    } else {
        let t = s.drop_last();
        let c = s.last();
        lemma_hash_one_byte_apart(p, b1, b2, t);
        let k1 = p.push(b1) + t;
        let k2 = p.push(b2) + t;
        assert(p.push(b1) + s =~= k1.push(c));
        assert(p.push(b2) + s =~= k2.push(c));
        let h1 = hash_spec(k1);
        let h2 = hash_spec(k2);
        assert((h1 ^ (c as u64)) != (h2 ^ (c as u64))) by (bit_vector)
            requires
                h1 != h2,
        ;
        lemma_hash_fnv(k1, c);
        lemma_hash_fnv(k2, c);
        lemma_prime_mul_injective(h1 ^ (c as u64), h2 ^ (c as u64));
    }
}

/// The hash table: `slots` holds `nbuckets` buckets of `BUCKET_SLOTS` slots.
pub struct HashTable {
    pub power: u8,
    pub nbuckets: usize,
    pub slots: Vec<u64>,
    pub table_copied_back: bool,
}

impl HashTable {
    /// The shape of the table: as many slots as `nbuckets` buckets hold.
    pub open spec fn shaped(&self) -> bool {
        &&& 3 <= self.power <= 31
        &&& self.nbuckets == two_pow((self.power - 3) as nat)
        &&& self.nbuckets >= 1
        &&& self.slots@.len() == self.nbuckets * 8
    }

    /// A table of `2^power` slots, all empty.
    pub fn new(power: u8) -> (t: HashTable)
        requires
            3 <= power <= 31,
        ensures
            t.shaped(),
            t.power == power,
            !t.table_copied_back,
            forall|i: int| 0 <= i < t.slots@.len() ==> t.slots@[i] == 0,
    {
        let mut nb: usize = 1;
        let mut k: u8 = 3;
        while k < power
            invariant
                3 <= k <= power <= 31,
                nb == two_pow((k - 3) as nat),
            decreases power - k,
        {
            proof {
                lemma_two_pow_le((k - 3) as nat, 27);
                lemma_two_pow_28();
            }
            assert(two_pow((k + 1 - 3) as nat) == 2 * two_pow((k - 3) as nat));
            nb = nb * 2;
            k = k + 1;
        }
        proof {
            lemma_two_pow_le((k - 3) as nat, 28);
            lemma_two_pow_28();
            lemma_two_pow_pos((k - 3) as nat);
        }
        let slots: Vec<u64> = vec![0u64; nb * 8];
        HashTable { power, nbuckets: nb, slots, table_copied_back: false }
    }
}

} // verus!
