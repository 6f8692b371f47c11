//! Compacted UTF-16 string storage and the 32-bit pointers into it.

use vstd::prelude::*;
use vstd::slice::slice_to_vec;
use vstd::std_specs::bits::{axiom_u32_leading_zeros, u32_leading_zeros};

use crate::dic::lexicon_set::LexiconSetError;
use crate::dic::read::{decode_utf16_string_of_length, spec_units_at, spec_utf16_decode};
use crate::error::{SudachiError, SudachiResult};

verus! {

/// A block of UTF-16 code units that strings are read from.
pub struct CompactedStrings {
    bytes: Vec<u8>,
}

/// The string of `length` code units stored `offset` code units into `bytes`.
pub open spec fn spec_compacted_string(bytes: Seq<u8>, length: int, offset: int) -> Option<
    Seq<char>,
> {
    if 2 * offset + 2 * length <= bytes.len() {
        spec_utf16_decode(spec_units_at(bytes, 2 * offset, length))
    } else {
        None
    }
}

impl CompactedStrings {
    /// The bytes of the block.
    pub closed spec fn spec_bytes(&self) -> Seq<u8> {
        self.bytes@
    }

    /// A block over the given bytes.
    pub fn from_bytes(bytes: &[u8]) -> (r: CompactedStrings)
        ensures
            r.spec_bytes() == bytes@,
    {
        CompactedStrings { bytes: slice_to_vec(bytes) }
    }

    /// The string a pointer designates; an error when it lies outside the
    /// block or is not valid UTF-16.
    pub fn get_string(&self, pointer: StringPointer) -> (r: SudachiResult<String>)
        ensures
            r is Ok <==> spec_compacted_string(
                self.spec_bytes(),
                pointer.length as int,
                pointer.offset as int,
            ) is Some,
            r matches Ok(s) ==> Some(s@) == spec_compacted_string(
                self.spec_bytes(),
                pointer.length as int,
                pointer.offset as int,
            ),
    {
        let blen = self.bytes.len();
        let start = pointer.offset as usize;
        let n = pointer.length as usize;
        if start > blen / 2 || n > blen / 2 - start {
            return Err(SudachiError::InvalidDataFormat(start));
        }
        decode_utf16_string_of_length(self.bytes.as_slice(), 2 * start, n)
    }
}

/// Location of a string in a [`CompactedStrings`] block, both in UTF-16 code units.
#[derive(Copy, Clone, Eq, PartialEq, Debug, Structural)]
pub struct StringPointer {
    /// Length of the string.
    pub length: u32,
    /// Offset of the string in the block.
    pub offset: u32,
}

/// Bits of the base part of an encoded pointer.
pub const BASE_LENGTH_BITS: u32 = 5;

/// Position of the base part in an encoded pointer.
pub const BASE_LENGTH_OFFSET: u32 = 27;

/// Largest number of bits of the additional length.
pub const MAX_VARIABLE_LENGTH_BITS: u32 = 12;

/// Longest string stored with the base part alone.
pub const MAX_SIMPLE_LENGTH: u32 = 19;

/// Longest string a pointer can address.
pub const MAX_LENGTH: u32 = 4114;

/// Number of low offset bits that must be zero for a string of `length`
/// code units, plus one (zero when the length fits the base part).
pub open spec fn spec_required_alignment(length: u32) -> u32 {
    if length <= MAX_SIMPLE_LENGTH {
        0
    } else {
        (32 - u32_leading_zeros((length - MAX_SIMPLE_LENGTH) as u32)) as u32
    }
}

/// Whether a string of `length` code units may be stored at `offset`.
pub open spec fn spec_is_valid(length: u32, offset: u32) -> bool {
    &&& length <= MAX_LENGTH
    &&& spec_required_alignment(length) == 0 || offset & (((1u32 << ((spec_required_alignment(
        length,
    ) - 1) as u32)) - 1u32) as u32) == 0
}

/// The 32-bit form of a pointer whose alignment value is `a`.
pub open spec fn spec_encode_with(length: u32, offset: u32, a: u32) -> u32 {
    let base_length: u32 = if length < MAX_SIMPLE_LENGTH {
        length
    } else {
        MAX_SIMPLE_LENGTH
    };
    let base_part: u32 = ((base_length + a) as u32) << 27u32;
    let additional: u32 = (length - base_length) as u32;
    let implicit_bit: u32 = 4096u32 >> ((13u32 - a) as u32);
    let variable_part: u32 = (additional ^ implicit_bit) << ((28u32 - a) as u32);
    let offset_part: u32 = offset >> (if a == 0 {
        0u32
    } else {
        ((a - 1u32) as u32)
    });
    base_part | variable_part | offset_part
}

/// The 32-bit form of a pointer.
pub open spec fn spec_encode(length: u32, offset: u32) -> u32 {
    spec_encode_with(length, offset, spec_required_alignment(length))
}

/// Alignment value stored in an encoded pointer.
pub open spec fn spec_decoded_alignment(encoded: u32) -> u32 {
    if encoded >> 27u32 > MAX_SIMPLE_LENGTH {
        ((encoded >> 27u32) - MAX_SIMPLE_LENGTH) as u32
    } else {
        0u32
    }
}

/// Length stored in an encoded pointer.
pub open spec fn spec_decode_length(encoded: u32) -> u32 {
    let base_value: u32 = encoded >> 27u32;
    let a: u32 = spec_decoded_alignment(encoded);
    let non_fixed: u32 = (encoded & 0x07ff_0000u32) >> ((28u32 - a) as u32);
    let implicit_bit: u32 = 4096u32 >> ((13u32 - a) as u32);
    (((base_value - a) as u32) + (non_fixed | implicit_bit)) as u32
}

/// Offset stored in an encoded pointer.
pub open spec fn spec_decode_offset(encoded: u32) -> u32 {
    let a: u32 = spec_decoded_alignment(encoded);
    let alignment: u32 = if a == 0 {
        0u32
    } else {
        (a - 1u32) as u32
    };
    (encoded & (0x07ff_ffffu32 >> alignment)) << alignment
}

/// The pointer an encoded 32-bit value stands for, as `(length, offset)`.
pub open spec fn spec_decode(encoded: u32) -> (u32, u32) {
    (spec_decode_length(encoded), spec_decode_offset(encoded))
}

/// A value below 4096 has no bit set at position 12 or above.
proof fn lemma_small_bits(x: u32, k: u32)
    by (bit_vector)
    requires
        x < 4096u32,
        12u32 <= k < 32u32,
    ensures
        (x >> k) & 1u32 == 0u32,
{
}

/// One shifted left by less than 32 is positive.
proof fn lemma_shl_positive(k: u32)
    by (bit_vector)
    requires
        k < 32u32,
    ensures
        (1u32 << k) >= 1u32,
{
}

/// The variable length bits and the implicit bit stay below 8192.
proof fn lemma_length_bits_small(e: u32, s: u32, t: u32)
    by (bit_vector)
    requires
        16u32 <= s < 32u32,
        t < 32u32,
    ensures
        (((e & 0x07ff_0000u32) >> s) | (4096u32 >> t)) < 8192u32,
{
}

/// The bit length of a value in `1..4096` is between 1 and 12, and its
/// top bit is at that length minus one.
proof fn lemma_small_alignment(r: u32)
    requires
        1 <= r < 4096,
    ensures
        20 <= u32_leading_zeros(r) < 32,
        r >> ((32 - u32_leading_zeros(r)) as u32) == 0u32,
        (r >> ((31 - u32_leading_zeros(r)) as u32)) & 1u32 != 0u32,
{
    axiom_u32_leading_zeros(r);
    let lz = u32_leading_zeros(r);
    if lz < 20 {
        lemma_small_bits(r, (31 - lz) as u32);
    }
    assert(r >> ((32u32 - lz) as u32) == 0u32);
}

/// Bit-level core of the round trip, for an explicit alignment value.
proof fn lemma_roundtrip_bits(length: u32, offset: u32, a: u32)
    by (bit_vector)
    requires
        offset < 0x0800_0000u32,
        a == 0 ==> length <= 19u32,
        a != 0 ==> (1u32 <= a && a <= 12u32 && length > 19u32 && ((length - 19u32) as u32) >> a
            == 0u32 && (((length - 19u32) as u32) >> ((a - 1u32) as u32)) & 1u32 != 0u32 && offset
            & (((1u32 << ((a - 1u32) as u32)) - 1u32) as u32) == 0u32),
    ensures
        spec_decode_length(spec_encode_with(length, offset, a)) == length,
        spec_decode_offset(spec_encode_with(length, offset, a)) == offset,
{
}

impl StringPointer {
    /// Checks that a string of `length` code units may be stored at `offset`.
    fn is_valid(length: u32, offset: u32) -> (r: bool)
        ensures
            r == spec_is_valid(length, offset),
    {
        if length > MAX_LENGTH {
            return false;
        }
        let alignment = Self::required_alignment(length);
        if alignment == 0 {
            return true;
        }
        proof {
            lemma_shl_positive((alignment - 1) as u32);
        }
        let alignment_mask = (1u32 << (alignment - 1)) - 1;
        (offset & alignment_mask) == 0
    }

    /// Alignment value for a string of `length` code units.
    pub(crate) fn required_alignment(length: u32) -> (r: u32)
        requires
            length <= MAX_LENGTH,
        ensures
            r == spec_required_alignment(length),
            r <= 12,
    {
        if length <= MAX_SIMPLE_LENGTH {
            0
        } else {
            let remaining = length - MAX_SIMPLE_LENGTH;
            proof {
                lemma_small_alignment(remaining);
            }
            32 - remaining.leading_zeros()
        }
    }

    /// A pointer with the given fields, not checked.
    pub fn unchecked(length: u32, offset: u32) -> (r: StringPointer)
        ensures
            r.length == length,
            r.offset == offset,
    {
        StringPointer { length, offset }
    }

    /// A pointer with the given fields; an error when the length is too
    /// large or the offset is not aligned as the length requires.
    pub fn checked(length: u32, offset: u32) -> (r: SudachiResult<StringPointer>)
        ensures
            r is Ok <==> spec_is_valid(length, offset),
            r matches Ok(p) ==> p.length == length && p.offset == offset,
            r matches Err(e) ==> e matches SudachiError::LexiconSetError(
                LexiconSetError::InvalidStringPointer(l, o, _),
            ) && l == length && o == offset,
    {
        if !Self::is_valid(length, offset) {
            let alignment = if length > MAX_LENGTH {
                0
            } else {
                Self::required_alignment(length)
            };
            return Err(
                SudachiError::LexiconSetError(
                    LexiconSetError::InvalidStringPointer(
                        length as usize,
                        offset as usize,
                        alignment as usize,
                    ),
                ),
            );
        }
        Ok(Self::unchecked(length, offset))
    }

    /// The 32-bit form of the pointer.
    pub fn encode(&self) -> (r: u32)
        requires
            self.length <= MAX_LENGTH,
        ensures
            r == spec_encode(self.length, self.offset),
    {
        let a = Self::required_alignment(self.length);
        let base_length = if self.length < MAX_SIMPLE_LENGTH {
            self.length
        } else {
            MAX_SIMPLE_LENGTH
        };
        let base_part = (base_length + a) << BASE_LENGTH_OFFSET;
        let additional_length = self.length - base_length;
        let implicit_bit = 4096u32 >> (13 - a);
        let non_fixed_length = additional_length ^ implicit_bit;
        let variable_part = non_fixed_length << (16 + MAX_VARIABLE_LENGTH_BITS - a);
        let offset_part = self.offset >> (if a == 0 {
            0
        } else {
            a - 1
        });
        base_part | variable_part | offset_part
    }

    /// The pointer an encoded 32-bit value stands for.
    pub fn decode(encoded: u32) -> (r: StringPointer)
        ensures
            (r.length, r.offset) == spec_decode(encoded),
    {
        let base_value = encoded >> BASE_LENGTH_OFFSET;
        assert(encoded >> 27u32 < 32u32) by (bit_vector);
        let a = if base_value > MAX_SIMPLE_LENGTH {
            base_value - MAX_SIMPLE_LENGTH
        } else {
            0
        };
        let non_fixed_length = (encoded & 0x07ff_0000) >> (16 + MAX_VARIABLE_LENGTH_BITS - a);
        let implicit_bit = 4096u32 >> (13 - a);
        proof {
            lemma_length_bits_small(encoded, (16 + MAX_VARIABLE_LENGTH_BITS - a) as u32, (13 - a) as u32);
        }
        let length = (base_value - a) + (non_fixed_length | implicit_bit);
        let alignment = if a == 0 {
            0
        } else {
            a - 1
        };
        let offset = (encoded & (0x07ff_ffff >> alignment)) << alignment;
        StringPointer { length, offset }
    }
}

/// Decoding an encoded pointer gives it back, for every valid pointer whose
/// offset fits the 27 bits the encoding keeps for it.
pub proof fn lemma_decode_encode(p: StringPointer)
    requires
        spec_is_valid(p.length, p.offset),
        p.offset < 0x0800_0000,
    ensures
        spec_decode(spec_encode(p.length, p.offset)) == (p.length, p.offset),
{
    let a = spec_required_alignment(p.length);
    if p.length > MAX_SIMPLE_LENGTH {
        let r = (p.length - MAX_SIMPLE_LENGTH) as u32;
        lemma_small_alignment(r);
        assert(r >> a == 0u32);
        assert((r >> ((a - 1u32) as u32)) & 1u32 != 0u32);
    }
    lemma_roundtrip_bits(p.length, p.offset, a);
}

} // verus!
