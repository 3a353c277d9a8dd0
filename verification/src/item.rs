//! Layout of an item inside a segment, and the byte-level helpers that read
//! and write it.
//!
//! An item is stored as a five byte header followed by its optional data, its
//! key and its value:
//!
//! | byte | content                                   |
//! |------|-------------------------------------------|
//! | 0    | key length                                |
//! | 1..4 | value length, 24 bits, little endian      |
//! | 4    | optional data length                      |
//! | 5..  | optional data, then key, then value       |
use vstd::prelude::*;

verus! {

/// Size of the header that precedes every item in a segment.
pub const ITEM_HDR_SIZE: usize = 5;

/// Largest key length that the header can record.
pub const MAX_KEY_LEN: usize = 255;

/// Largest optional data length that the header can record.
pub const MAX_OPTIONAL_LEN: usize = 63;

pub open spec fn hdr_klen(d: Seq<u8>, a: int) -> nat {
    d[a] as nat
}

pub open spec fn hdr_vlen(d: Seq<u8>, a: int) -> nat {
    d[a + 1] as nat + 256 * (d[a + 2] as nat) + 65536 * (d[a + 3] as nat)
}

pub open spec fn hdr_olen(d: Seq<u8>, a: int) -> nat {
    d[a + 4] as nat
}

/// Number of bytes that the item starting at `a` occupies, padding excluded.
pub open spec fn item_len(d: Seq<u8>, a: int) -> nat {
    5 + hdr_olen(d, a) + hdr_klen(d, a) + hdr_vlen(d, a)
}

/// The header at `a` can be read and the item it describes lies inside `d`.
pub open spec fn item_fits(d: Seq<u8>, a: int) -> bool {
    &&& 0 <= a
    &&& a + 5 <= d.len()
    &&& a + item_len(d, a) <= d.len()
}

pub open spec fn item_optional(d: Seq<u8>, a: int) -> Seq<u8> {
    d.subrange(a + 5, a + 5 + hdr_olen(d, a))
}

pub open spec fn item_key(d: Seq<u8>, a: int) -> Seq<u8> {
    d.subrange(a + 5 + hdr_olen(d, a), a + 5 + hdr_olen(d, a) + hdr_klen(d, a))
}

pub open spec fn item_value(d: Seq<u8>, a: int) -> Seq<u8> {
    d.subrange(a + 5 + hdr_olen(d, a) + hdr_klen(d, a), a + item_len(d, a))
}

/// The space reserved in a segment for an item whose header and payload take
/// `n` bytes: rounded up to the next multiple of eight, always adding at
/// least one byte.
pub open spec fn padded_size(n: nat) -> nat {
    (n / 8 + 1) * 8
}

/// The space reserved for an item with the given key, value and optional
/// data lengths.
pub open spec fn item_size_spec(klen: nat, vlen: nat, olen: nat) -> nat {
    padded_size(ITEM_HDR_SIZE as nat + klen + vlen + olen)
}

/// Two byte sequences that agree on the bytes of an item decode to the same
/// item.
pub proof fn lemma_item_frame(d1: Seq<u8>, d2: Seq<u8>, a: int, e: int)
    requires
        item_fits(d1, a),
        a + item_len(d1, a) <= e,
        e <= d1.len(),
        e <= d2.len(),
        forall|j: int| a <= j < e ==> d1[j] == d2[j],
    ensures
        item_fits(d2, a),
        item_len(d2, a) == item_len(d1, a),
        item_key(d2, a) == item_key(d1, a),
        item_value(d2, a) == item_value(d1, a),
        item_optional(d2, a) == item_optional(d1, a),
{
    assert(d1[a] == d2[a]);
    assert(d1[a + 1] == d2[a + 1]);
    assert(d1[a + 2] == d2[a + 2]);
    assert(d1[a + 3] == d2[a + 3]);
    assert(d1[a + 4] == d2[a + 4]);
    assert(item_key(d2, a) =~= item_key(d1, a));
    assert(item_value(d2, a) =~= item_value(d1, a));
    assert(item_optional(d2, a) =~= item_optional(d1, a));
}

/// Computes the space reserved for an item, saturating at `usize::MAX`.
pub fn item_size(klen: usize, vlen: usize, olen: usize) -> (size: usize)
    ensures
        size as nat == if item_size_spec(klen as nat, vlen as nat, olen as nat) <= usize::MAX {
            item_size_spec(klen as nat, vlen as nat, olen as nat)
        } else {
            usize::MAX as nat
        },
{
    let total: u128 = ITEM_HDR_SIZE as u128 + klen as u128 + vlen as u128 + olen as u128;
    let padded: u128 = (total / 8 + 1) * 8;
    if padded <= usize::MAX as u128 {
        padded as usize
    } else {
        usize::MAX
    }
}

/// Copies `src` into `data` starting at `start`.
pub fn copy_into(data: &mut Vec<u8>, start: usize, src: &[u8])
    requires
        start + src@.len() <= old(data)@.len(),
    ensures
        final(data)@.len() == old(data)@.len(),
        forall|j: int|
            0 <= j < final(data)@.len() ==> #[trigger] final(data)@[j] == if start <= j < start
                + src@.len() {
                src@[j - start]
            } else {
                old(data)@[j]
            },
{
    let mut i: usize = 0;
    let dlen = data.len();
    while i < src.len()
        invariant
            i <= src@.len(),
            dlen == data@.len(),
            start + src@.len() <= data@.len(),
            data@.len() == old(data)@.len(),
            forall|j: int|
                0 <= j < data@.len() ==> #[trigger] data@[j] == if start <= j < start + i {
                    src@[j - start]
                } else {
                    old(data)@[j]
                },
        decreases src@.len() - i,
    {
        data.set(start + i, src[i]);
        i = i + 1;
    }
}

/// Writes an item with the given key, value and optional data at byte `a`.
pub fn write_item(data: &mut Vec<u8>, a: usize, key: &[u8], value: &[u8], optional: &[u8])
    requires
        key@.len() <= MAX_KEY_LEN,
        optional@.len() <= MAX_OPTIONAL_LEN,
        value@.len() < 0x100_0000,
        a + 5 + key@.len() + value@.len() + optional@.len() <= old(data)@.len(),
    ensures
        final(data)@.len() == old(data)@.len(),
        item_fits(final(data)@, a as int),
        item_len(final(data)@, a as int) == 5 + key@.len() + value@.len() + optional@.len(),
        item_key(final(data)@, a as int) == key@,
        item_value(final(data)@, a as int) == value@,
        item_optional(final(data)@, a as int) == optional@,
        forall|j: int|
            0 <= j < old(data)@.len() && !(a <= j < a + item_len(final(data)@, a as int))
                ==> #[trigger] final(data)@[j] == old(data)@[j],
{
    let vlen = value.len();
    let v0: u8 = (vlen % 256) as u8;
    let v1: u8 = ((vlen / 256) % 256) as u8;
    let v2: u8 = (vlen / 65536) as u8;
    assert(v0 as nat + 256 * (v1 as nat) + 65536 * (v2 as nat) == vlen) by (nonlinear_arith)
        requires
            vlen < 0x100_0000,
            v0 == vlen % 256,
            v1 == (vlen / 256) % 256,
            v2 == vlen / 65536,
    ;
    let dlen = data.len();
    assert(a + 5 <= dlen);
    data.set(a, key.len() as u8);
    data.set(a + 1, v0);
    data.set(a + 2, v1);
    data.set(a + 3, v2);
    data.set(a + 4, optional.len() as u8);
    let ghost d1 = data@;
    let ostart = a + 5;
    copy_into(data, ostart, optional);
    let kstart = ostart + optional.len();
    copy_into(data, kstart, key);
    let vstart = kstart + key.len();
    copy_into(data, vstart, value);
    let ghost d = data@;
    assert(d[a as int] == key.len());
    assert(d[a + 1] == v0);
    assert(d[a + 2] == v1);
    assert(d[a + 3] == v2);
    assert(d[a + 4] == optional.len());
    assert(item_optional(d, a as int) =~= optional@);
    assert(item_key(d, a as int) =~= key@);
    assert(item_value(d, a as int) =~= value@);
}

/// Returns a copy of `n` bytes of `data` starting at `start`.
pub fn read_bytes(data: &Vec<u8>, start: usize, n: usize) -> (r: Vec<u8>)
    requires
        start + n <= data@.len(),
    ensures
        r@ == data@.subrange(start as int, start + n),
{
    let mut r: Vec<u8> = Vec::with_capacity(n);
    let mut i: usize = 0;
    let dlen = data.len();
    while i < n
        invariant
            i <= n,
            dlen == data@.len(),
            start + n <= data@.len(),
            r@ == data@.subrange(start as int, start + i),
        decreases n - i,
    {
        r.push(data[start + i]);
        i = i + 1;
        assert(r@ =~= data@.subrange(start as int, start + i));
    }
    r
}

/// Tells whether the `key@.len()` bytes of `data` at `start` equal `key`.
pub fn bytes_eq(data: &Vec<u8>, start: usize, key: &[u8]) -> (r: bool)
    requires
        start + key@.len() <= data@.len(),
    ensures
        r == (data@.subrange(start as int, start + key@.len()) == key@),
{
    let mut i: usize = 0;
    let dlen = data.len();
    while i < key.len()
        invariant
            i <= key@.len(),
            dlen == data@.len(),
            start + key@.len() <= data@.len(),
            forall|j: int| 0 <= j < i ==> data@[start + j] == key@[j],
        decreases key@.len() - i,
    {
        if data[start + i] != key[i] {
            assert(data@.subrange(start as int, start + key@.len())[i as int] != key@[i as int]);
            return false;
        }
        i = i + 1;
    }
    assert(data@.subrange(start as int, start + key@.len()) =~= key@);
    true
}

/// An item as returned by a lookup: a copy of its key, value and optional
/// data, together with the CAS value of the item at the time of the lookup.
#[derive(Debug)]
pub struct Item {
    pub(crate) cas: u32,
    pub(crate) key: Vec<u8>,
    pub(crate) value: Vec<u8>,
    pub(crate) optional: Vec<u8>,
}

impl Item {
    pub(crate) fn new(cas: u32, key: Vec<u8>, value: Vec<u8>, optional: Vec<u8>) -> (r: Item)
        ensures
            r.spec_cas() == cas,
            r.key_view() == key@,
            r.value_view() == value@,
            r.optional_view() == optional@,
    {
        Item { cas, key, value, optional }
    }

    pub closed spec fn spec_cas(&self) -> u32 {
        self.cas
    }

    pub closed spec fn key_view(&self) -> Seq<u8> {
        self.key@
    }

    pub closed spec fn value_view(&self) -> Seq<u8> {
        self.value@
    }

    pub closed spec fn optional_view(&self) -> Seq<u8> {
        self.optional@
    }

    /// The CAS value of the item when it was looked up.
    pub fn cas(&self) -> (r: u32)
        ensures
            r == self.spec_cas(),
    {
        self.cas
    }

    /// The key of the item.
    pub fn key(&self) -> (r: &[u8])
        ensures
            r@ == self.key_view(),
    {
        self.key.as_slice()
    }

    /// The value of the item.
    pub fn value(&self) -> (r: &[u8])
        ensures
            r@ == self.value_view(),
    {
        self.value.as_slice()
    }

    /// The optional data stored with the item.
    pub fn optional(&self) -> (r: &[u8])
        ensures
            r@ == self.optional_view(),
    {
        self.optional.as_slice()
    }
}

} // verus!
