//! Bit-level writer and reader over byte buffers.
//!
//! The writer is constructed with a branch factor and a height and
//! immediately encodes the header byte; `write_node` appends a node's bits
//! low-index-first; `into_bytes` hands back the packed bytes, the last one
//! zero-padded. The reader is a cursor over a byte buffer whose reads fail
//! (return `None`) rather than run past the end.

use vstd::prelude::*;

use crate::bits::byte_at;
use crate::bits::byte_bit;
use crate::bits::bit_of;
use crate::bits::bit_val;
use crate::bits::bits_to_bytes;
use crate::bits::bytes_bits;
use crate::bits::field_val;
use crate::bits::lemma_byte_is_sum_of_bits;
use crate::bits::lemma_low_byte_bits;
use crate::bits::word_bits;
use crate::branch_factor::bf_code;
use crate::branch_factor::bf_of_code;
use crate::branch_factor::bf_valid;

verus! {

/// The header byte: branch-factor code in bits 0-1, height in bits 2-6,
/// bit 7 reserved as zero.
pub open spec fn header_word(b: u32, h: u32) -> u32 {
    bf_code(b) | (h << 2)
}

/// Accumulates a bitstream, packing bits LSB-first into bytes.
pub struct OutputBitStream {
    data: Vec<u8>,
    filled: u32,
}

impl OutputBitStream {
    /// The bits written so far, header included.
    pub closed spec fn bits(&self) -> Seq<bool> {
        if self.data@.len() == 0 {
            Seq::empty()
        } else {
            Seq::new(
                ((self.data@.len() - 1) * 8 + self.filled) as nat,
                |i: int| byte_bit(self.data@[i / 8], (i % 8) as u32),
            )
        }
    }

    /// One to eight bits of the last byte are in use and the unused
    /// high-order bits of that byte are zero.
    pub closed spec fn wf(&self) -> bool {
        &&& self.data@.len() >= 1
        &&& 1 <= self.filled <= 8
        &&& forall|i: u32|
            self.filled <= i < 8 ==> !#[trigger] byte_bit(self.data@[self.data@.len() - 1], i)
    }

    /// Starts a stream holding the header byte for `branch_factor` and
    /// `height`.
    pub fn new(branch_factor: u32, height: u8) -> (r: OutputBitStream)
        requires
            bf_valid(branch_factor),
            height <= 31,
        ensures
            r.wf(),
            r.bits() == word_bits(header_word(branch_factor, height as u32), 8),
    {
        let code: u8 = if branch_factor == 2 {
            0
        } else if branch_factor == 4 {
            1
        } else if branch_factor == 8 {
            2
        } else {
            3
        };
        let hdr: u8 = code | (height << 2);
        let mut data: Vec<u8> = Vec::new();
        data.push(hdr);
        let r = OutputBitStream { data, filled: 8 };
        proof {
            let w = header_word(branch_factor, height as u32);
            assert((code | ((height as u8) << 2)) as u32 == (code as u32) | ((height as u32) << 2)
                && (code as u32) | ((height as u32) << 2) < 256) by (bit_vector)
                requires
                    code <= 3,
                    height <= 31,
            ;
            assert(hdr == w as u8);
            assert forall|i: int| 0 <= i < 8 implies #[trigger] byte_bit(hdr, i as u32) == bit_of(
                w,
                i as u32,
            ) by {
                lemma_low_byte_bits(w, i as u32);
            }
            assert(r.bits() =~= word_bits(w, 8));
        }
        r
    }

    /// Appends one bit.
    pub fn write_bit(&mut self, b: bool)
        requires
            old(self).wf(),
        ensures
            final(self).wf(),
            final(self).bits() == old(self).bits().push(b),
    {
        let ghost obits = old(self).bits();
        if self.filled == 8 {
            let nb: u8 = if b {
                1
            } else {
                0
            };
            self.data.push(nb);
            self.filled = 1;
            proof {
                if b {
                    assert(byte_bit(1u8, 0)) by (bit_vector);
                    assert(forall|i: u32| 1 <= i < 8 ==> !#[trigger] byte_bit(1u8, i))
                        by (bit_vector);
                } else {
                    assert(!byte_bit(0u8, 0)) by (bit_vector);
                    assert(forall|i: u32| 1 <= i < 8 ==> !#[trigger] byte_bit(0u8, i))
                        by (bit_vector);
                }
                assert(self.wf());
                assert(self.bits() =~= obits.push(b));
            }
        } else {
            let ghost f = self.filled;
            let n = self.data.len() - 1;
            let cur = self.data[n];
            let updated: u8 = if b {
                cur | (1u8 << self.filled)
            } else {
                cur
            };
            self.data[n] = updated;
            self.filled = self.filled + 1;
            proof {
                assert(forall|j: u32|
                    j < 8 && j != f ==> #[trigger] byte_bit(cur | (1u8 << f), j) == byte_bit(
                        cur,
                        j,
                    )) by (bit_vector)
                    requires
                        f < 8,
                ;
                assert(byte_bit(cur | (1u8 << f), f)) by (bit_vector)
                    requires
                        f < 8,
                ;
                assert(!byte_bit(cur, f));
                assert(byte_bit(updated, f) == b);
                assert(self.wf());
                assert(self.bits() =~= obits.push(b));
            }
        }
    }

    /// Appends the low `width` bits of `word`, lowest index first.
    pub fn write_node(&mut self, word: u32, width: u32)
        requires
            old(self).wf(),
            width <= 32,
        ensures
            final(self).wf(),
            final(self).bits() == old(self).bits() + word_bits(word, width),
    {
        let ghost obits = old(self).bits();
        let mut j: u32 = 0;
        proof {
            assert(obits + word_bits(word, 0) =~= obits);
        }
        while j < width
            invariant
                self.wf(),
                j <= width,
                width <= 32,
                self.bits() == obits + word_bits(word, j),
            decreases width - j,
        {
            let bit = (word >> j) & 1u32 == 1u32;
            self.write_bit(bit);
            proof {
                assert(bit == bit_of(word, j));
                assert((obits + word_bits(word, j)).push(bit_of(word, j)) =~= obits + word_bits(
                    word,
                    (j + 1) as u32,
                ));
            }
            j += 1;
        }
    }

    /// The packed bytes, the last one zero-padded in its unused high bits.
    pub fn into_bytes(self) -> (r: Vec<u8>)
        requires
            self.wf(),
        ensures
            r@ == bits_to_bytes(self.bits()),
    {
        proof {
            let bits = self.bits();
            let d = self.data@;
            assert(bits.len() == (d.len() - 1) * 8 + self.filled);
            assert((bits.len() + 7) / 8 == d.len());
            assert forall|k: int| 0 <= k < d.len() implies byte_at(bits, k) == d[k] by {
                lemma_byte_is_sum_of_bits(d[k]);
                assert forall|i: int| 0 <= i < 8 implies #[trigger] bit_val(bits, 8 * k + i) == (
                if byte_bit(d[k], i as u32) {
                    1int
                } else {
                    0
                }) by {
                    if 8 * k + i < bits.len() {
                        assert((8 * k + i) / 8 == k && (8 * k + i) % 8 == i);
                        assert(bits[8 * k + i] == byte_bit(d[k], i as u32));
                    } else {
                        assert(k == d.len() - 1 && i >= self.filled);
                        assert(!byte_bit(d[k], i as u32));
                    }
                }
            }
            assert(bits_to_bytes(bits) =~= d);
        }
        self.data
    }
}

/// A cursor that reads a byte buffer bit by bit, LSB of each byte first.
pub struct InputBitStream<'a> {
    data: &'a [u8],
    byte_pos: usize,
    bit_pos: u32,
}

impl<'a> InputBitStream<'a> {
    /// All bits of the underlying buffer.
    pub closed spec fn stream(&self) -> Seq<bool> {
        bytes_bits(self.data@)
    }

    /// How many bits have been consumed.
    pub closed spec fn pos(&self) -> int {
        8 * self.byte_pos + self.bit_pos
    }

    /// The cursor is normalized: it never rests past the end of a byte.
    pub closed spec fn wf(&self) -> bool {
        &&& self.bit_pos < 8
        &&& self.byte_pos <= self.data@.len()
        &&& self.byte_pos == self.data@.len() ==> self.bit_pos == 0
    }

    /// A cursor at the start of `data`.
    pub fn from(data: &'a [u8]) -> (r: InputBitStream<'a>)
        ensures
            r.wf(),
            r.stream() == bytes_bits(data@),
            r.pos() == 0,
    {
        InputBitStream { data, byte_pos: 0, bit_pos: 0 }
    }

    /// Reads one bit, or fails when the buffer is exhausted.
    pub fn read_bit(&mut self) -> (r: Option<bool>)
        requires
            old(self).wf(),
        ensures
            final(self).wf(),
            final(self).stream() == old(self).stream(),
            old(self).pos() < old(self).stream().len() ==> r == Some(
                old(self).stream()[old(self).pos()],
            ) && final(self).pos() == old(self).pos() + 1,
            old(self).pos() >= old(self).stream().len() ==> r is None && final(self).pos() == old(
                self,
            ).pos(),
    {
        if self.byte_pos >= self.data.len() {
            return None;
        }
        let byte = self.data[self.byte_pos];
        let bit = (byte >> self.bit_pos) & 1u8 == 1u8;
        proof {
            let p = self.pos();
            assert(p / 8 == self.byte_pos as int && p % 8 == self.bit_pos as int);
            assert(self.stream()[p] == byte_bit(byte, self.bit_pos));
        }
        if self.bit_pos == 7 {
            self.bit_pos = 0;
            self.byte_pos = self.byte_pos + 1;
        } else {
            self.bit_pos = self.bit_pos + 1;
        }
        Some(bit)
    }

    /// Advances past one bit; the caller must know one is available.
    pub fn skip_bit(&mut self)
        requires
            old(self).wf(),
            old(self).pos() < old(self).stream().len(),
        ensures
            final(self).wf(),
            final(self).stream() == old(self).stream(),
            final(self).pos() == old(self).pos() + 1,
    {
        let n = self.data.len();
        proof {
            assert(self.byte_pos < n);
        }
        if self.bit_pos == 7 {
            self.bit_pos = 0;
            self.byte_pos = self.byte_pos + 1;
        } else {
            self.bit_pos = self.bit_pos + 1;
        }
    }

    /// Reads the two-bit branch-factor code from the start of the stream and
    /// returns the branch factor it stands for.
    pub fn read_branch_factor(&mut self) -> (r: Option<u32>)
        requires
            old(self).wf(),
            old(self).pos() == 0,
        ensures
            final(self).wf(),
            final(self).stream() == old(self).stream(),
            old(self).stream().len() >= 2 ==> r == Some(
                bf_of_code(field_val(old(self).stream(), 0, 2)),
            ) && final(self).pos() == 2,
            old(self).stream().len() < 2 ==> r is None,
    {
        let b0 = match self.read_bit() {
            None => { return None; },
            Some(x) => x,
        };
        let b1 = match self.read_bit() {
            None => { return None; },
            Some(x) => x,
        };
        let code: u32 = (if b0 {
            1
        } else {
            0
        }) + (if b1 {
            2
        } else {
            0
        });
        proof {
            reveal_with_fuel(field_val, 3);
        }
        match code {
            0 => Some(2),
            1 => Some(4),
            2 => Some(8),
            _ => Some(32),
        }
    }

    /// Reads the five-bit height field that follows the branch-factor code.
    pub fn read_height(&mut self) -> (r: Option<u8>)
        requires
            old(self).wf(),
            old(self).pos() == 2,
        ensures
            final(self).wf(),
            final(self).stream() == old(self).stream(),
            old(self).stream().len() >= 7 ==> (r matches Some(h) && h as int == field_val(
                old(self).stream(),
                2,
                5,
            ) && h <= 31 && final(self).pos() == 7),
            old(self).stream().len() < 7 ==> r is None,
    {
        let mut h: u8 = 0;
        let b0 = match self.read_bit() {
            None => { return None; },
            Some(x) => x,
        };
        let b1 = match self.read_bit() {
            None => { return None; },
            Some(x) => x,
        };
        let b2 = match self.read_bit() {
            None => { return None; },
            Some(x) => x,
        };
        let b3 = match self.read_bit() {
            None => { return None; },
            Some(x) => x,
        };
        let b4 = match self.read_bit() {
            None => { return None; },
            Some(x) => x,
        };
        if b0 {
            h = h + 1;
        }
        if b1 {
            h = h + 2;
        }
        if b2 {
            h = h + 4;
        }
        if b3 {
            h = h + 8;
        }
        if b4 {
            h = h + 16;
        }
        proof {
            reveal_with_fuel(field_val, 6);
        }
        Some(h)
    }
}

} // verus!
