//! How a bloom filter is written as bytes for gossip.
//!
//! A filter is known by the number of its bits, the number of its hash
//! functions, the four keys of its two hashers, and its bitmap. It is written
//! as these numbers, each with its lowest byte first, followed by the bitmap:
//! eight bytes for the number of bits, four for the number of hash
//! functions, eight for each key, and then the bitmap to the end.

use vstd::bytes::{
    lemma_auto_spec_u32_to_from_le_bytes, lemma_auto_spec_u64_to_from_le_bytes,
    spec_u32_from_le_bytes, spec_u32_to_le_bytes, spec_u64_from_le_bytes, spec_u64_to_le_bytes,
    u32_from_le_bytes, u32_to_le_bytes, u64_from_le_bytes, u64_to_le_bytes,
};
use vstd::prelude::*;
use vstd::slice::slice_subrange;

verus! {

/// The number of bytes that stand before the bitmap.
pub const HEADER_LEN: usize = 44;

/// What makes up a bloom filter.
pub struct BloomParts {
    /// The number of bits of the filter.
    pub bitmap_bits: u64,
    /// The number of hash functions.
    pub k_num: u32,
    /// The keys of the first hasher.
    pub first_keys: (u64, u64),
    /// The keys of the second hasher.
    pub second_keys: (u64, u64),
    /// The bits of the filter, eight to a byte.
    pub bitmap: Vec<u8>,
}

/// The mathematical value of [`BloomParts`].
pub struct BloomView {
    pub bitmap_bits: u64,
    pub k_num: u32,
    pub first_keys: (u64, u64),
    pub second_keys: (u64, u64),
    pub bitmap: Seq<u8>,
}

impl View for BloomParts {
    type V = BloomView;

    open spec fn view(&self) -> BloomView {
        BloomView {
            bitmap_bits: self.bitmap_bits,
            k_num: self.k_num,
            first_keys: self.first_keys,
            second_keys: self.second_keys,
            bitmap: self.bitmap@,
        }
    }
}

/// The bytes that stand for a filter.
pub open spec fn encoded(parts: BloomView) -> Seq<u8> {
    spec_u64_to_le_bytes(parts.bitmap_bits) + spec_u32_to_le_bytes(parts.k_num)
        + spec_u64_to_le_bytes(parts.first_keys.0) + spec_u64_to_le_bytes(parts.first_keys.1)
        + spec_u64_to_le_bytes(parts.second_keys.0) + spec_u64_to_le_bytes(parts.second_keys.1)
        + parts.bitmap
}

/// The filter that bytes stand for, or `None` if they are too few to hold
/// the numbers.
pub open spec fn decoded(bytes: Seq<u8>) -> Option<BloomView> {
    if bytes.len() < HEADER_LEN {
        None
    } else {
        Some(
            BloomView {
                bitmap_bits: spec_u64_from_le_bytes(bytes.subrange(0, 8)),
                k_num: spec_u32_from_le_bytes(bytes.subrange(8, 12)),
                first_keys: (
                    spec_u64_from_le_bytes(bytes.subrange(12, 20)),
                    spec_u64_from_le_bytes(bytes.subrange(20, 28)),
                ),
                second_keys: (
                    spec_u64_from_le_bytes(bytes.subrange(28, 36)),
                    spec_u64_from_le_bytes(bytes.subrange(36, 44)),
                ),
                bitmap: bytes.skip(44),
            },
        )
    }
}

/// Appends the bytes of `from` to `to`.
fn append(to: &mut Vec<u8>, from: &[u8])
    ensures
        final(to)@ == old(to)@ + from@,
{
    let ghost head = to@;
    let mut i: usize = 0;
    proof {
        assert(to@ =~= head + from@.take(0));
    }
    while i < from.len()
        invariant
            i <= from.len(),
            to@ == head + from@.take(i as int),
        decreases from.len() - i,
    {
        to.push(from[i]);
        proof {
            assert(to@ =~= head + from@.take(i + 1));
        }
        i = i + 1;
    }
    proof {
        assert(from@.take(from.len() as int) =~= from@);
    }
}

/// Writes a filter as bytes.
pub fn encode_bloom_filter(parts: &BloomParts) -> (bytes: Vec<u8>)
    ensures
        bytes@ == encoded(parts@),
{
    let mut buf = u64_to_le_bytes(parts.bitmap_bits);
    let k_num = u32_to_le_bytes(parts.k_num);
    append(&mut buf, k_num.as_slice());
    let k1 = u64_to_le_bytes(parts.first_keys.0);
    append(&mut buf, k1.as_slice());
    let k2 = u64_to_le_bytes(parts.first_keys.1);
    append(&mut buf, k2.as_slice());
    let k3 = u64_to_le_bytes(parts.second_keys.0);
    append(&mut buf, k3.as_slice());
    let k4 = u64_to_le_bytes(parts.second_keys.1);
    append(&mut buf, k4.as_slice());
    append(&mut buf, parts.bitmap.as_slice());
    buf
}

/// Reads a filter from bytes. There is no filter in fewer bytes than the
/// numbers take.
pub fn decode_bloom_filter(bytes: &[u8]) -> (r: Option<BloomParts>)
    ensures
        match r {
            Some(parts) => decoded(bytes@) == Some(parts@),
            None => decoded(bytes@) is None,
        },
{
    if bytes.len() < HEADER_LEN {
        return None;
    }
    let bitmap_bits = u64_from_le_bytes(slice_subrange(bytes, 0, 8));
    let k_num = u32_from_le_bytes(slice_subrange(bytes, 8, 12));
    let k1 = u64_from_le_bytes(slice_subrange(bytes, 12, 20));
    let k2 = u64_from_le_bytes(slice_subrange(bytes, 20, 28));
    let k3 = u64_from_le_bytes(slice_subrange(bytes, 28, 36));
    let k4 = u64_from_le_bytes(slice_subrange(bytes, 36, 44));
    let mut bitmap: Vec<u8> = Vec::new();
    append(&mut bitmap, slice_subrange(bytes, 44, bytes.len()));
    proof {
        assert(bitmap@ =~= bytes@.skip(44));
    }
    Some(BloomParts { bitmap_bits, k_num, first_keys: (k1, k2), second_keys: (k3, k4), bitmap })
}

/// Two filters are the same if all their parts are.
pub fn same_filter(a: &BloomParts, b: &BloomParts) -> (r: bool)
    ensures
        r == (a@ == b@),
{
    if a.bitmap_bits != b.bitmap_bits || a.k_num != b.k_num {
        return false;
    }
    if a.first_keys.0 != b.first_keys.0 || a.first_keys.1 != b.first_keys.1 {
        return false;
    }
    if a.second_keys.0 != b.second_keys.0 || a.second_keys.1 != b.second_keys.1 {
        return false;
    }
    if a.bitmap.len() != b.bitmap.len() {
        return false;
    }
    let mut i: usize = 0;
    while i < a.bitmap.len()
        invariant
            i <= a.bitmap.len(),
            a.bitmap.len() == b.bitmap.len(),
            forall|j: int| 0 <= j < i ==> a.bitmap@[j] == b.bitmap@[j],
        decreases a.bitmap.len() - i,
    {
        if a.bitmap[i] != b.bitmap[i] {
            return false;
        }
        i = i + 1;
    }
    proof {
        assert(a.bitmap@ =~= b.bitmap@);
    }
    true
}

/// Reading what was written gives the filter back.
pub proof fn law_decode_recovers(parts: BloomView)
    ensures
        decoded(encoded(parts)) == Some(parts),
{
    lemma_auto_spec_u32_to_from_le_bytes();
    lemma_auto_spec_u64_to_from_le_bytes();
    let bytes = encoded(parts);
    assert(bytes.subrange(0, 8) =~= spec_u64_to_le_bytes(parts.bitmap_bits));
    assert(bytes.subrange(8, 12) =~= spec_u32_to_le_bytes(parts.k_num));
    assert(bytes.subrange(12, 20) =~= spec_u64_to_le_bytes(parts.first_keys.0));
    assert(bytes.subrange(20, 28) =~= spec_u64_to_le_bytes(parts.first_keys.1));
    assert(bytes.subrange(28, 36) =~= spec_u64_to_le_bytes(parts.second_keys.0));
    assert(bytes.subrange(36, 44) =~= spec_u64_to_le_bytes(parts.second_keys.1));
    assert(bytes.skip(44) =~= parts.bitmap);
}

/// Writing what was read gives the bytes back.
pub proof fn law_encode_recovers(bytes: Seq<u8>)
    requires
        bytes.len() >= HEADER_LEN,
    ensures
        encoded(decoded(bytes)->0) == bytes,
{
    lemma_auto_spec_u32_to_from_le_bytes();
    lemma_auto_spec_u64_to_from_le_bytes();
    let parts = decoded(bytes)->0;
    assert(spec_u64_to_le_bytes(parts.bitmap_bits) == bytes.subrange(0, 8));
    assert(spec_u32_to_le_bytes(parts.k_num) == bytes.subrange(8, 12));
    assert(spec_u64_to_le_bytes(parts.first_keys.0) == bytes.subrange(12, 20));
    assert(spec_u64_to_le_bytes(parts.first_keys.1) == bytes.subrange(20, 28));
    assert(spec_u64_to_le_bytes(parts.second_keys.0) == bytes.subrange(28, 36));
    assert(spec_u64_to_le_bytes(parts.second_keys.1) == bytes.subrange(36, 44));
    assert(encoded(parts) =~= bytes);
}

} // verus!
