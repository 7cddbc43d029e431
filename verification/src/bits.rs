//! The bit-level model of the wire format.
//!
//! A stream is a sequence of booleans. Within each byte, bits are packed
//! LSB-first; the stream crosses byte boundaries without realignment, and the
//! final byte is zero-padded in its unused high-order bits.

use vstd::prelude::*;

verus! {

/// Bit `i` of the 32-bit word `w` (LSB is bit 0).
pub open spec fn bit_of(w: u32, i: u32) -> bool {
    w >> i & 1u32 == 1u32
}

/// Bit `i` of the byte `x` (LSB is bit 0).
pub open spec fn byte_bit(x: u8, i: u32) -> bool {
    x >> i & 1u8 == 1u8
}

/// The low `width` bits of `w`, LSB first.
pub open spec fn word_bits(w: u32, width: u32) -> Seq<bool> {
    Seq::new(width as nat, |i: int| bit_of(w, i as u32))
}

/// All bits of the byte sequence `bytes`, in stream order.
pub open spec fn bytes_bits(bytes: Seq<u8>) -> Seq<bool> {
    Seq::new(bytes.len() * 8, |i: int| byte_bit(bytes[i / 8], (i % 8) as u32))
}

/// Bit `i` of the stream as 0 or 1; 0 beyond the end.
pub open spec fn bit_val(bits: Seq<bool>, i: int) -> int {
    if 0 <= i < bits.len() && bits[i] {
        1
    } else {
        0
    }
}

/// Byte `k` of the stream once packed: its eight bits, LSB first,
/// zero-padded past the end of the stream.
pub open spec fn byte_at(bits: Seq<bool>, k: int) -> u8 {
    (bit_val(bits, 8 * k) + 2 * bit_val(bits, 8 * k + 1) + 4 * bit_val(bits, 8 * k + 2) + 8
        * bit_val(bits, 8 * k + 3) + 16 * bit_val(bits, 8 * k + 4) + 32 * bit_val(bits, 8 * k + 5)
        + 64 * bit_val(bits, 8 * k + 6) + 128 * bit_val(bits, 8 * k + 7)) as u8
}

/// The stream packed into bytes, the last one zero-padded.
pub open spec fn bits_to_bytes(bits: Seq<bool>) -> Seq<u8> {
    Seq::new(((bits.len() + 7) / 8) as nat, |k: int| byte_at(bits, k))
}

/// The unsigned value of the `width`-bit field starting at `pos`, LSB first.
pub open spec fn field_val(bits: Seq<bool>, pos: int, width: nat) -> int
    decreases width,
{
    if width == 0 {
        0
    } else {
        bit_val(bits, pos) + 2 * field_val(bits, pos + 1, (width - 1) as nat)
    }
}

/// A byte equals the weighted sum of its bits.
pub proof fn lemma_byte_is_sum_of_bits(x: u8)
    ensures
        x == (if byte_bit(x, 0) {
            1int
        } else {
            0
        }) + 2 * (if byte_bit(x, 1) {
            1int
        } else {
            0
        }) + 4 * (if byte_bit(x, 2) {
            1int
        } else {
            0
        }) + 8 * (if byte_bit(x, 3) {
            1int
        } else {
            0
        }) + 16 * (if byte_bit(x, 4) {
            1int
        } else {
            0
        }) + 32 * (if byte_bit(x, 5) {
            1int
        } else {
            0
        }) + 64 * (if byte_bit(x, 6) {
            1int
        } else {
            0
        }) + 128 * (if byte_bit(x, 7) {
            1int
        } else {
            0
        }),
{
    assert(x == (if x >> 0u32 & 1u8 == 1u8 {
        1int
    } else {
        0
    }) + 2 * (if x >> 1u32 & 1u8 == 1u8 {
        1int
    } else {
        0
    }) + 4 * (if x >> 2u32 & 1u8 == 1u8 {
        1int
    } else {
        0
    }) + 8 * (if x >> 3u32 & 1u8 == 1u8 {
        1int
    } else {
        0
    }) + 16 * (if x >> 4u32 & 1u8 == 1u8 {
        1int
    } else {
        0
    }) + 32 * (if x >> 5u32 & 1u8 == 1u8 {
        1int
    } else {
        0
    }) + 64 * (if x >> 6u32 & 1u8 == 1u8 {
        1int
    } else {
        0
    }) + 128 * (if x >> 7u32 & 1u8 == 1u8 {
        1int
    } else {
        0
    })) by (bit_vector);
}

/// Packing bits into bytes loses nothing: bit `i` read back from the packed
/// bytes is bit `i` of the stream.
pub proof fn lemma_bits_bytes_inverse(bits: Seq<bool>, i: int)
    requires
        0 <= i < bits.len(),
    ensures
        bytes_bits(bits_to_bytes(bits)).len() >= bits.len(),
        bytes_bits(bits_to_bytes(bits))[i] == bits[i],
{
    let bytes = bits_to_bytes(bits);
    let k = i / 8;
    let r = (i % 8) as u32;
    assert(0 <= k < bytes.len());
    assert(bytes[k] == byte_at(bits, k));
    let w0: u8 = bit_val(bits, 8 * k) as u8;
    let w1: u8 = bit_val(bits, 8 * k + 1) as u8;
    let w2: u8 = bit_val(bits, 8 * k + 2) as u8;
    let w3: u8 = bit_val(bits, 8 * k + 3) as u8;
    let w4: u8 = bit_val(bits, 8 * k + 4) as u8;
    let w5: u8 = bit_val(bits, 8 * k + 5) as u8;
    let w6: u8 = bit_val(bits, 8 * k + 6) as u8;
    let w7: u8 = bit_val(bits, 8 * k + 7) as u8;
    assert(byte_at(bits, k) == (w0 + 2 * w1 + 4 * w2 + 8 * w3 + 16 * w4 + 32 * w5 + 64 * w6 + 128
        * w7) as u8);
    assert(byte_bit(
        ((w0 + 2 * w1 + 4 * w2 + 8 * w3 + 16 * w4 + 32 * w5 + 64 * w6 + 128 * w7) as u8),
        r,
    ) <==> (if r == 0 {
        w0 == 1
    } else if r == 1 {
        w1 == 1
    } else if r == 2 {
        w2 == 1
    } else if r == 3 {
        w3 == 1
    } else if r == 4 {
        w4 == 1
    } else if r == 5 {
        w5 == 1
    } else {
        (if r == 6 {
            w6 == 1
        } else {
            w7 == 1
        })
    })) by (bit_vector)
        requires
            w0 <= 1 && w1 <= 1 && w2 <= 1 && w3 <= 1 && w4 <= 1 && w5 <= 1 && w6 <= 1 && w7 <= 1
                && r < 8,
    ;
    assert(8 * k + r == i);
    assert(bytes_bits(bytes)[i] == byte_bit(bytes[k], r));
}

/// The low eight bits of a word below 256 are the bits of that byte.
pub proof fn lemma_low_byte_bits(w: u32, i: u32)
    requires
        w < 256,
        i < 8,
    ensures
        byte_bit(w as u8, i) == bit_of(w, i),
{
    assert(w < 256 && i < 8 ==> ((w as u8) >> i & 1u8 == 1u8) == (w >> i & 1u32 == 1u32))
        by (bit_vector);
}

} // verus!
