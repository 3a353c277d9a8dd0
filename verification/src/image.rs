//! The byte images that a cache is saved to on a graceful shutdown and
//! restored from: sequences of 64-bit little-endian words.
use vstd::bytes::{
    lemma_auto_spec_u64_to_from_le_bytes, spec_u64_from_le_bytes, spec_u64_to_le_bytes,
    u64_from_le_bytes, u64_to_le_bytes,
};
use vstd::prelude::*;

verus! {

/// The bytes of a sequence of words, each in little-endian order.
pub open spec fn words_bytes(w: Seq<u64>) -> Seq<u8>
    decreases w.len(),
{
    if w.len() == 0 {
        Seq::empty()
    } else {
        words_bytes(w.drop_last()) + spec_u64_to_le_bytes(w.last())
    }
}

/// The words of a byte sequence whose length is a multiple of eight.
pub open spec fn bytes_words(b: Seq<u8>) -> Seq<u64> {
    Seq::new(b.len() / 8, |i: int| spec_u64_from_le_bytes(b.subrange(8 * i, 8 * i + 8)))
}

pub proof fn lemma_words_bytes(w: Seq<u64>)
    ensures
        words_bytes(w).len() == 8 * w.len(),
        forall|i: int|
            0 <= i < w.len() ==> #[trigger] words_bytes(w).subrange(8 * i, 8 * i + 8)
                == spec_u64_to_le_bytes(w[i]),
    decreases w.len(),
{
    lemma_auto_spec_u64_to_from_le_bytes();
    if w.len() > 0 {
        let p = w.drop_last();
        lemma_words_bytes(p);
        let wb = words_bytes(w);
        assert forall|i: int| 0 <= i < w.len() implies #[trigger] wb.subrange(8 * i, 8 * i + 8)
            == spec_u64_to_le_bytes(w[i]) by {
            if i < p.len() {
                assert(wb.subrange(8 * i, 8 * i + 8) =~= words_bytes(p).subrange(8 * i, 8 * i + 8));
            } else {
                assert(wb.subrange(8 * i, 8 * i + 8) =~= spec_u64_to_le_bytes(w.last()));
            }
        }
    }
}

/// Decoding the bytes of words gives back the words.
pub proof fn lemma_bytes_words_roundtrip(w: Seq<u64>)
    ensures
        bytes_words(words_bytes(w)) == w,
{
    lemma_words_bytes(w);
    lemma_auto_spec_u64_to_from_le_bytes();
    let b = words_bytes(w);
    assert forall|i: int| 0 <= i < w.len() implies #[trigger] bytes_words(b)[i] == w[i] by {
        assert(b.subrange(8 * i, 8 * i + 8) == spec_u64_to_le_bytes(w[i]));
    }
    assert(bytes_words(b) =~= w);
}

/// Bytes whose length is a multiple of eight are the bytes of their words.
pub proof fn lemma_words_bytes_roundtrip(b: Seq<u8>)
    requires
        b.len() % 8 == 0,
    ensures
        words_bytes(bytes_words(b)) == b,
{
    let w = bytes_words(b);
    lemma_words_bytes(w);
    lemma_auto_spec_u64_to_from_le_bytes();
    let wb = words_bytes(w);
    assert forall|j: int| 0 <= j < b.len() implies #[trigger] wb[j] == b[j] by {
        let i = j / 8;
        assert(0 <= i < w.len());
        assert(wb.subrange(8 * i, 8 * i + 8) == spec_u64_to_le_bytes(w[i]));
        assert(spec_u64_to_le_bytes(w[i]) == b.subrange(8 * i, 8 * i + 8));
        assert(wb[j] == wb.subrange(8 * i, 8 * i + 8)[j - 8 * i]);
    }
    assert(wb =~= b);
}

/// Encodes words as bytes.
pub fn words_to_bytes(w: &Vec<u64>) -> (r: Vec<u8>)
    ensures
        r@ == words_bytes(w@),
{
    let mut r: Vec<u8> = Vec::new();
    let mut i: usize = 0;
    while i < w.len()
        invariant
            i <= w@.len(),
            r@ == words_bytes(w@.subrange(0, i as int)),
        decreases w@.len() - i,
    {
        let mut bytes = u64_to_le_bytes(w[i]);
        proof {
            assert(w@.subrange(0, i + 1).drop_last() =~= w@.subrange(0, i as int));
        }
        r.append(&mut bytes);
        i = i + 1;
    }
    proof {
        assert(w@.subrange(0, w@.len() as int) =~= w@);
    }
    r
}

/// Decodes bytes into words; `None` when their length is not a multiple
/// of eight.
pub fn bytes_to_words(b: &Vec<u8>) -> (r: Option<Vec<u64>>)
    ensures
        r is Some <==> b@.len() % 8 == 0,
        r matches Some(w) ==> w@ == bytes_words(b@) && words_bytes(w@) == b@,
{
    if b.len() % 8 != 0 {
        return None;
    }
    let blen = b.len();
    let n = blen / 8;
    let mut w: Vec<u64> = Vec::with_capacity(n);
    let mut i: usize = 0;
    while i < n
        invariant
            blen == b@.len(),
            n == b@.len() / 8,
            i <= n,
            w@.len() == i,
            forall|j: int| 0 <= j < i ==> #[trigger] w@[j] == bytes_words(b@)[j],
        decreases n - i,
    {
        let mut chunk: Vec<u8> = Vec::with_capacity(8);
        let mut k: usize = 0;
        while k < 8
            invariant
                i < n,
                blen == b@.len(),
                n == b@.len() / 8,
                k <= 8,
                chunk@ == b@.subrange(8 * i as int, 8 * i + k),
            decreases 8 - k,
        {
            chunk.push(b[8 * i + k]);
            k = k + 1;
            assert(chunk@ =~= b@.subrange(8 * i as int, 8 * i + k));
        }
        let x = u64_from_le_bytes(chunk.as_slice());
        w.push(x);
        i = i + 1;
    }
    proof {
        assert(w@ =~= bytes_words(b@));
        lemma_words_bytes_roundtrip(b@);
    }
    Some(w)
}

} // verus!
