//! The typed layer of the pixel codec: every scalar type a pixel can have,
//! with its canonical `PixelType` tag, its byte width, and its conversion
//! to and from on-disk bytes under an explicit endianness.
//!
//! A pixel value is identified with its *word*: the value of its bit pattern
//! read as an unsigned integer. Encoding writes the word's bytes, decoding
//! reads them back, and a value is recovered exactly — a pure byte
//! reinterpretation, never a numeric normalization. Floating-point pixels are
//! therefore carried as their bit patterns (`F32Bits`, `F64Bits`);
//! interpreting those bits numerically is outside this verified core.

use vstd::prelude::*;

verus! {

use crate::codec::{pow256, word_of, word_bytes, read_word, write_word, lemma_pow256_u64,
    lemma_word_bytes_round_trip};
use crate::header::{Endian, PixelType, size_spec};

/// A scalar type that can live in an image pixel: it names its canonical
/// `PixelType` tag (the single source of truth for its byte width) and
/// converts to and from `width` on-disk bytes under a given endianness.
pub trait PixelValue: Sized + Copy {
    /// The canonical tag of this scalar type.
    spec fn pixel_type_spec() -> PixelType;

    /// The value's bit pattern, read as an unsigned word.
    spec fn word(self) -> int;

    /// A pixel tag is never `Block`, is at most eight bytes wide, and the
    /// word determines the value: two values with equal bit patterns are
    /// equal.
    proof fn lemma_word(a: Self, b: Self)
        ensures
            !(Self::pixel_type_spec() is Block),
            1 <= size_spec(Self::pixel_type_spec()) <= 8,
            0 <= a.word() < pow256(size_spec(Self::pixel_type_spec()) as nat),
            a.word() == b.word() ==> a == b,
    ;

    /// The canonical tag of this scalar type.
    fn pixel_type() -> (t: PixelType)
        ensures
            t == Self::pixel_type_spec(),
            !(t is Block),
            1 <= size_spec(t) <= 8,
    ;

    /// Reads one value from the `width` bytes at `offset`, respecting the
    /// given byte order.
    fn from_bytes(buffer: &[u8], offset: usize, endian: Endian) -> (r: Self)
        requires
            offset + size_spec(Self::pixel_type_spec()) <= buffer@.len(),
        ensures
            r.word() == word_of(
                buffer@.subrange(offset as int, offset + size_spec(Self::pixel_type_spec())),
                endian,
            ),
    ;

    /// Appends the value's `width` bytes, respecting the given byte order.
    fn to_bytes(&self, out: &mut Vec<u8>, endian: Endian)
        ensures
            final(out)@ == old(out)@ + word_bytes(
                self.word(),
                size_spec(Self::pixel_type_spec()) as nat,
                endian,
            ),
    ;
}

/// The bit pattern of a 32-bit IEEE 754 value. The codec reinterprets bytes,
/// so a float pixel is carried by its bits, NaN payloads included.
#[derive(Clone, Copy, PartialEq, Eq, Structural, Debug)]
pub struct F32Bits {
    pub bits: u32,
}

/// The bit pattern of a 64-bit IEEE 754 value. The codec reinterprets bytes,
/// so a float pixel is carried by its bits, NaN payloads included.
#[derive(Clone, Copy, PartialEq, Eq, Structural, Debug)]
pub struct F64Bits {
    pub bits: u64,
}

/// The pixel codec round-trip law: decoding the bytes that encoding produced,
/// under the same endianness, recovers the original value — bit-exact, for
/// every representable value and both byte orders.
pub proof fn lemma_pixel_round_trip<T: PixelValue>(v: T, r: T, endian: Endian)
    requires
        r.word() == word_of(
            word_bytes(v.word(), size_spec(T::pixel_type_spec()) as nat, endian),
            endian,
        ),
    ensures
        r == v,
{
    T::lemma_word(v, r);
    lemma_word_bytes_round_trip(v.word(), size_spec(T::pixel_type_spec()) as nat, endian);
}

impl PixelValue for u8 {
    open spec fn pixel_type_spec() -> PixelType {
        PixelType::UInt8
    }

    open spec fn word(self) -> int {
        self as int
    }

    proof fn lemma_word(a: Self, b: Self) {
        lemma_pow256_u64();
    }

    fn pixel_type() -> (t: PixelType) {
        PixelType::UInt8
    }

    fn from_bytes(buffer: &[u8], offset: usize, endian: Endian) -> (r: Self) {
        proof {
            lemma_pow256_u64();
        }
        read_word(buffer, offset, 1, endian) as u8
    }

    fn to_bytes(&self, out: &mut Vec<u8>, endian: Endian) {
        proof {
            lemma_pow256_u64();
        }
        write_word(out, *self as u64, 1, endian);
    }
}

impl PixelValue for u16 {
    open spec fn pixel_type_spec() -> PixelType {
        PixelType::UInt16
    }

    open spec fn word(self) -> int {
        self as int
    }

    proof fn lemma_word(a: Self, b: Self) {
        lemma_pow256_u64();
    }

    fn pixel_type() -> (t: PixelType) {
        PixelType::UInt16
    }

    fn from_bytes(buffer: &[u8], offset: usize, endian: Endian) -> (r: Self) {
        proof {
            lemma_pow256_u64();
        }
        read_word(buffer, offset, 2, endian) as u16
    }

    fn to_bytes(&self, out: &mut Vec<u8>, endian: Endian) {
        proof {
            lemma_pow256_u64();
        }
        write_word(out, *self as u64, 2, endian);
    }
}

impl PixelValue for u32 {
    open spec fn pixel_type_spec() -> PixelType {
        PixelType::UInt32
    }

    open spec fn word(self) -> int {
        self as int
    }

    proof fn lemma_word(a: Self, b: Self) {
        lemma_pow256_u64();
    }

    fn pixel_type() -> (t: PixelType) {
        PixelType::UInt32
    }

    fn from_bytes(buffer: &[u8], offset: usize, endian: Endian) -> (r: Self) {
        proof {
            lemma_pow256_u64();
        }
        read_word(buffer, offset, 4, endian) as u32
    }

    fn to_bytes(&self, out: &mut Vec<u8>, endian: Endian) {
        proof {
            lemma_pow256_u64();
        }
        write_word(out, *self as u64, 4, endian);
    }
}

impl PixelValue for u64 {
    open spec fn pixel_type_spec() -> PixelType {
        PixelType::UInt64
    }

    open spec fn word(self) -> int {
        self as int
    }

    proof fn lemma_word(a: Self, b: Self) {
        lemma_pow256_u64();
    }

    fn pixel_type() -> (t: PixelType) {
        PixelType::UInt64
    }

    fn from_bytes(buffer: &[u8], offset: usize, endian: Endian) -> (r: Self) {
        proof {
            lemma_pow256_u64();
        }
        read_word(buffer, offset, 8, endian)
    }

    fn to_bytes(&self, out: &mut Vec<u8>, endian: Endian) {
        proof {
            lemma_pow256_u64();
        }
        write_word(out, *self, 8, endian);
    }
}

impl PixelValue for i8 {
    open spec fn pixel_type_spec() -> PixelType {
        PixelType::Int8
    }

    open spec fn word(self) -> int {
        (self as u8) as int
    }

    proof fn lemma_word(a: Self, b: Self) {
        lemma_pow256_u64();
        assert(a as u8 == b as u8 ==> a == b) by (bit_vector);
    }

    fn pixel_type() -> (t: PixelType) {
        PixelType::Int8
    }

    fn from_bytes(buffer: &[u8], offset: usize, endian: Endian) -> (r: Self) {
        proof {
            lemma_pow256_u64();
        }
        let w = read_word(buffer, offset, 1, endian) as u8;
        proof {
            assert(w as i8 as u8 == w) by (bit_vector);
        }
        w as i8
    }

    fn to_bytes(&self, out: &mut Vec<u8>, endian: Endian) {
        proof {
            lemma_pow256_u64();
        }
        let w = *self as u8;
        write_word(out, w as u64, 1, endian);
    }
}

impl PixelValue for i16 {
    open spec fn pixel_type_spec() -> PixelType {
        PixelType::Int16
    }

    open spec fn word(self) -> int {
        (self as u16) as int
    }

    proof fn lemma_word(a: Self, b: Self) {
        lemma_pow256_u64();
        assert(a as u16 == b as u16 ==> a == b) by (bit_vector);
    }

    fn pixel_type() -> (t: PixelType) {
        PixelType::Int16
    }

    fn from_bytes(buffer: &[u8], offset: usize, endian: Endian) -> (r: Self) {
        proof {
            lemma_pow256_u64();
        }
        let w = read_word(buffer, offset, 2, endian) as u16;
        proof {
            assert(w as i16 as u16 == w) by (bit_vector);
        }
        w as i16
    }

    fn to_bytes(&self, out: &mut Vec<u8>, endian: Endian) {
        proof {
            lemma_pow256_u64();
        }
        let w = *self as u16;
        write_word(out, w as u64, 2, endian);
    }
}

impl PixelValue for i32 {
    open spec fn pixel_type_spec() -> PixelType {
        PixelType::Int32
    }

    open spec fn word(self) -> int {
        (self as u32) as int
    }

    proof fn lemma_word(a: Self, b: Self) {
        lemma_pow256_u64();
        assert(a as u32 == b as u32 ==> a == b) by (bit_vector);
    }

    fn pixel_type() -> (t: PixelType) {
        PixelType::Int32
    }

    fn from_bytes(buffer: &[u8], offset: usize, endian: Endian) -> (r: Self) {
        proof {
            lemma_pow256_u64();
        }
        let w = read_word(buffer, offset, 4, endian) as u32;
        proof {
            assert(w as i32 as u32 == w) by (bit_vector);
        }
        w as i32
    }

    fn to_bytes(&self, out: &mut Vec<u8>, endian: Endian) {
        proof {
            lemma_pow256_u64();
        }
        let w = *self as u32;
        write_word(out, w as u64, 4, endian);
    }
}

impl PixelValue for i64 {
    open spec fn pixel_type_spec() -> PixelType {
        PixelType::Int64
    }

    open spec fn word(self) -> int {
        (self as u64) as int
    }

    proof fn lemma_word(a: Self, b: Self) {
        lemma_pow256_u64();
        assert(a as u64 == b as u64 ==> a == b) by (bit_vector);
    }

    fn pixel_type() -> (t: PixelType) {
        PixelType::Int64
    }

    fn from_bytes(buffer: &[u8], offset: usize, endian: Endian) -> (r: Self) {
        proof {
            lemma_pow256_u64();
        }
        let w = read_word(buffer, offset, 8, endian);
        proof {
            assert(w as i64 as u64 == w) by (bit_vector);
        }
        w as i64
    }

    fn to_bytes(&self, out: &mut Vec<u8>, endian: Endian) {
        proof {
            lemma_pow256_u64();
        }
        write_word(out, *self as u64, 8, endian);
    }
}

impl PixelValue for F32Bits {
    open spec fn pixel_type_spec() -> PixelType {
        PixelType::Float32
    }

    open spec fn word(self) -> int {
        self.bits as int
    }

    proof fn lemma_word(a: Self, b: Self) {
        lemma_pow256_u64();
    }

    fn pixel_type() -> (t: PixelType) {
        PixelType::Float32
    }

    fn from_bytes(buffer: &[u8], offset: usize, endian: Endian) -> (r: Self) {
        proof {
            lemma_pow256_u64();
        }
        F32Bits { bits: read_word(buffer, offset, 4, endian) as u32 }
    }

    fn to_bytes(&self, out: &mut Vec<u8>, endian: Endian) {
        proof {
            lemma_pow256_u64();
        }
        write_word(out, self.bits as u64, 4, endian);
    }
}

impl PixelValue for F64Bits {
    open spec fn pixel_type_spec() -> PixelType {
        PixelType::Float64
    }

    open spec fn word(self) -> int {
        self.bits as int
    }

    proof fn lemma_word(a: Self, b: Self) {
        lemma_pow256_u64();
    }

    fn pixel_type() -> (t: PixelType) {
        PixelType::Float64
    }

    fn from_bytes(buffer: &[u8], offset: usize, endian: Endian) -> (r: Self) {
        proof {
            lemma_pow256_u64();
        }
        F64Bits { bits: read_word(buffer, offset, 8, endian) }
    }

    fn to_bytes(&self, out: &mut Vec<u8>, endian: Endian) {
        proof {
            lemma_pow256_u64();
        }
        write_word(out, self.bits, 8, endian);
    }
}

} // verus!
