//! Lossless conversion between byte buffers and bit sequences.
//!
//! Within a byte the most significant bit comes first: bit `8 * j + k` of the
//! sequence is the bit of weight `2^(7 - k)` of byte `j`.

use crate::error::HuffmanError;
use vstd::prelude::*;

verus! {

/// The bit of `byte` at position `k` counted from the most significant one.
pub open spec fn bit_of(byte: u8, k: int) -> bool {
    (byte >> ((7 - k) as u8)) & 1u8 == 1u8
}

/// The byte that has only the bit at position `k`, counted from the most
/// significant one, set if `bit` holds, and no bit otherwise.
pub open spec fn bit_mask(bit: bool, k: int) -> u8 {
    if bit {
        1u8 << ((7 - k) as u8)
    } else {
        0u8
    }
}

/// The first `n` bits of the group that starts at `start`, packed MSB-first
/// into the upper bits of a byte.
pub open spec fn pack_prefix(bits: Seq<bool>, start: int, n: nat) -> u8
    decreases n,
{
    if n == 0 {
        0u8
    } else {
        pack_prefix(bits, start, (n - 1) as nat) | bit_mask(bits[start + n - 1], n - 1)
    }
}

/// The bit sequence of a byte buffer: eight bits per byte, MSB-first.
pub open spec fn bits_of_bytes(bytes: Seq<u8>) -> Seq<bool> {
    Seq::new(8 * bytes.len(), |i: int| bit_of(bytes[i / 8], i % 8))
}

/// The byte buffer of a bit sequence: one byte per full group of eight bits.
pub open spec fn bytes_of_bits(bits: Seq<bool>) -> Seq<u8> {
    Seq::new(bits.len() / 8, |j: int| pack_prefix(bits, 8 * j, 8))
}

/// Converts a byte buffer into its bit sequence, eight bits per byte with the
/// most significant bit first.
pub fn bytes_to_bits(bytes: &[u8]) -> (bits: Vec<bool>)
    ensures
        bits@ == bits_of_bytes(bytes@),
{
    let mut bits: Vec<bool> = Vec::new();
    let mut j: usize = 0;
    while j < bytes.len()
        invariant
            j <= bytes.len(),
            bits@ == bits_of_bytes(bytes@.take(j as int)),
        decreases bytes.len() - j,
    {
        let byte: u8 = bytes[j];
        let mut k: u8 = 0;
        while k < 8
            invariant
                k <= 8,
                j < bytes.len(),
                byte == bytes@[j as int],
                bits@ == bits_of_bytes(bytes@.take(j as int)) + Seq::new(
                    k as nat,
                    |i: int| bit_of(byte, i),
                ),
            decreases 8 - k,
        {
            bits.push((byte >> (7 - k)) & 1 == 1);
            k += 1;
        }
        assert(bits@ == bits_of_bytes(bytes@.take(j + 1)));
        j += 1;
    }
    assert(bytes@.take(j as int) == bytes@);
    bits
}

/// Packs a bit sequence into bytes, each group of eight bits MSB-first into
/// one byte. A sequence whose length is no multiple of 8 is refused with
/// `UnalignedBitLength`, and only such a sequence is.
pub fn bits_to_bytes(bits: &[bool]) -> (packed: Result<Vec<u8>, HuffmanError>)
    ensures
        match packed {
            Ok(bytes) => bits@.len() % 8 == 0 && bytes@ == bytes_of_bits(bits@),
            Err(e) => bits@.len() % 8 != 0 && e == HuffmanError::UnalignedBitLength,
        },
{
    if bits.len() % 8 != 0 {
        return Err(HuffmanError::UnalignedBitLength);
    }
    let groups: usize = bits.len() / 8;
    let mut bytes: Vec<u8> = Vec::new();
    let mut j: usize = 0;
    while j < groups
        invariant
            j <= groups,
            bits@.len() == 8 * groups <= usize::MAX,
            bytes@ == bytes_of_bits(bits@).take(j as int),
        decreases groups - j,
    {
        let mut byte: u8 = 0;
        let mut k: u8 = 0;
        while k < 8
            invariant
                k <= 8,
                j < groups,
                bits@.len() == 8 * groups <= usize::MAX,
                byte == pack_prefix(bits@, 8 * j, k as nat),
            decreases 8 - k,
        {
            if bits[8 * j + k as usize] {
                byte = byte | (1u8 << (7 - k));
            } else {
                assert(byte | 0u8 == byte) by (bit_vector);
            }
            k += 1;
        }
        bytes.push(byte);
        assert(bytes@ == bytes_of_bits(bits@).take(j + 1));
        j += 1;
    }
    Ok(bytes)
}

proof fn lemma_byte_from_its_bits(x: u8)
    by (bit_vector)
    ensures
        (((((((0u8 | (if (x >> 7u8) & 1u8 == 1u8 { 1u8 << 7u8 } else { 0u8 }))
            | (if (x >> 6u8) & 1u8 == 1u8 { 1u8 << 6u8 } else { 0u8 }))
            | (if (x >> 5u8) & 1u8 == 1u8 { 1u8 << 5u8 } else { 0u8 }))
            | (if (x >> 4u8) & 1u8 == 1u8 { 1u8 << 4u8 } else { 0u8 }))
            | (if (x >> 3u8) & 1u8 == 1u8 { 1u8 << 3u8 } else { 0u8 }))
            | (if (x >> 2u8) & 1u8 == 1u8 { 1u8 << 2u8 } else { 0u8 }))
            | (if (x >> 1u8) & 1u8 == 1u8 { 1u8 << 1u8 } else { 0u8 }))
            | (if (x >> 0u8) & 1u8 == 1u8 { 1u8 << 0u8 } else { 0u8 }) == x,
{
}

proof fn lemma_bits_from_their_byte(
    b0: bool,
    b1: bool,
    b2: bool,
    b3: bool,
    b4: bool,
    b5: bool,
    b6: bool,
    b7: bool,
    x: u8,
)
    by (bit_vector)
    requires
        x == (((((((0u8 | (if b0 { 1u8 << 7u8 } else { 0u8 })) | (if b1 { 1u8 << 6u8 } else { 0u8 }))
            | (if b2 { 1u8 << 5u8 } else { 0u8 })) | (if b3 { 1u8 << 4u8 } else { 0u8 })) | (if b4 {
            1u8 << 3u8
        } else {
            0u8
        })) | (if b5 { 1u8 << 2u8 } else { 0u8 })) | (if b6 { 1u8 << 1u8 } else { 0u8 })) | (if b7 {
            1u8 << 0u8
        } else {
            0u8
        }),
    ensures
        ((x >> 7u8) & 1u8 == 1u8) == b0,
        ((x >> 6u8) & 1u8 == 1u8) == b1,
        ((x >> 5u8) & 1u8 == 1u8) == b2,
        ((x >> 4u8) & 1u8 == 1u8) == b3,
        ((x >> 3u8) & 1u8 == 1u8) == b4,
        ((x >> 2u8) & 1u8 == 1u8) == b5,
        ((x >> 1u8) & 1u8 == 1u8) == b6,
        ((x >> 0u8) & 1u8 == 1u8) == b7,
{
}

/// Packing the bits of a byte buffer gives the buffer back, for every buffer,
/// the empty one included.
pub proof fn lemma_pack_unpack(bytes: Seq<u8>)
    ensures
        bits_of_bytes(bytes).len() % 8 == 0,
        bytes_of_bits(bits_of_bytes(bytes)) == bytes,
{
    let bits = bits_of_bytes(bytes);
    assert forall|j: int| 0 <= j < bytes.len() implies pack_prefix(bits, 8 * j, 8) == bytes[j] by {
        let x = bytes[j];
        assert forall|k: int| 0 <= k < 8 implies #[trigger] bits[8 * j + k] == bit_of(x, k) by {
            assert((8 * j + k) / 8 == j && (8 * j + k) % 8 == k);
        }
        reveal_with_fuel(pack_prefix, 9);
        lemma_byte_from_its_bits(x);
    }
    assert(bytes_of_bits(bits) =~= bytes);
}

proof fn lemma_group_unpacks(bits: Seq<bool>, start: int)
    ensures
        forall|k: int|
            0 <= k < 8 ==> #[trigger] bit_of(pack_prefix(bits, start, 8), k) == bits[start + k],
{
    reveal_with_fuel(pack_prefix, 9);
    lemma_bits_from_their_byte(
        bits[start],
        bits[start + 1],
        bits[start + 2],
        bits[start + 3],
        bits[start + 4],
        bits[start + 5],
        bits[start + 6],
        bits[start + 7],
        pack_prefix(bits, start, 8),
    );
}

/// Unpacking the bytes of a bit sequence gives the sequence back whenever its
/// length is a multiple of 8.
pub proof fn lemma_unpack_pack(bits: Seq<bool>)
    requires
        bits.len() % 8 == 0,
    ensures
        bits_of_bytes(bytes_of_bits(bits)) == bits,
{
    let bytes = bytes_of_bits(bits);
    assert forall|i: int| 0 <= i < bits.len() implies bit_of(bytes[i / 8], i % 8) == bits[i] by {
        let j = i / 8;
        let k = i % 8;
        lemma_group_unpacks(bits, 8 * j);
        assert(bit_of(pack_prefix(bits, 8 * j, 8), k) == bits[8 * j + k]);
    }
    assert(bits_of_bytes(bytes) =~= bits);
}

} // verus!
