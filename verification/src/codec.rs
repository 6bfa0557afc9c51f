//! The pixel codec's byte layer: conversion between machine words and
//! fixed-width byte sequences under an explicit endianness.
//!
//! A word of `width` bytes is modeled as its mathematical value. Little-endian
//! order stores the least significant byte first; big-endian is exactly the
//! reverse byte order. `decode(encode(v)) == v` is proved here once, at the
//! word level, and every pixel type rides on it.

use vstd::prelude::*;

verus! {

use vstd::arithmetic::div_mod::lemma_fundamental_div_mod;
use crate::header::Endian;

/// 256 to the power `n`: the number of distinct words of `n` bytes.
pub open spec fn pow256(n: nat) -> int
    decreases n,
{
    if n == 0 {
        1
    } else {
        256 * pow256((n - 1) as nat)
    }
}

pub proof fn lemma_pow256_positive(n: nat)
    ensures
        pow256(n) >= 1,
    decreases n,
{
    if n > 0 {
        lemma_pow256_positive((n - 1) as nat);
    }
}

pub proof fn lemma_pow256_mono(a: nat, b: nat)
    requires
        a <= b,
    ensures
        pow256(a) <= pow256(b),
    decreases b,
{
    if a < b {
        lemma_pow256_mono(a, (b - 1) as nat);
        lemma_pow256_positive((b - 1) as nat);
    }
}

pub proof fn lemma_pow256_u64()
    ensures
        pow256(8) == 0x1_0000_0000_0000_0000,
        pow256(1) == 0x100,
        pow256(2) == 0x1_0000,
        pow256(4) == 0x1_0000_0000,
{
    reveal_with_fuel(pow256, 9);
}

/// The value of a little-endian byte sequence: the first byte is the least
/// significant.
pub open spec fn le_word(s: Seq<u8>) -> int
    decreases s.len(),
{
    if s.len() == 0 {
        0
    } else {
        s[0] + 256 * le_word(s.drop_first())
    }
}

/// The value of a byte sequence read under the given endianness; big-endian
/// bytes are the little-endian bytes reversed.
pub open spec fn word_of(s: Seq<u8>, endian: Endian) -> int {
    match endian {
        Endian::Little => le_word(s),
        Endian::Big => le_word(s.reverse()),
    }
}

/// The canonical `width`-byte little-endian encoding of a word.
pub open spec fn le_bytes(v: int, width: nat) -> Seq<u8>
    decreases width,
{
    if width == 0 {
        Seq::empty()
    } else {
        seq![(v % 256) as u8] + le_bytes(v / 256, (width - 1) as nat)
    }
}

/// The canonical `width`-byte encoding of a word under the given endianness.
pub open spec fn word_bytes(v: int, width: nat, endian: Endian) -> Seq<u8> {
    match endian {
        Endian::Little => le_bytes(v, width),
        Endian::Big => le_bytes(v, width).reverse(),
    }
}

pub proof fn lemma_le_bytes_len(v: int, width: nat)
    ensures
        le_bytes(v, width).len() == width,
    decreases width,
{
    if width > 0 {
        lemma_le_bytes_len(v / 256, (width - 1) as nat);
    }
}

/// Decoding the canonical encoding gives the word back: the round-trip law at
/// the little-endian byte level.
pub proof fn lemma_le_bytes_word(v: int, width: nat)
    requires
        0 <= v < pow256(width),
    ensures
        le_bytes(v, width).len() == width,
        le_word(le_bytes(v, width)) == v,
    decreases width,
{
    lemma_le_bytes_len(v, width);
    if width > 0 {
        lemma_fundamental_div_mod(v, 256);
        assert(v / 256 < pow256((width - 1) as nat)) by (nonlinear_arith)
            requires
                0 <= v,
                v < 256 * pow256((width - 1) as nat),
        ;
        lemma_le_bytes_word(v / 256, (width - 1) as nat);
        let s = le_bytes(v, width);
        assert(s[0] == (v % 256) as u8);
        assert(s.drop_first() =~= le_bytes(v / 256, (width - 1) as nat));
    }
}

/// Decoding the canonical encoding under the same endianness gives the word
/// back, for either endianness.
pub proof fn lemma_word_bytes_round_trip(v: int, width: nat, endian: Endian)
    requires
        0 <= v < pow256(width),
    ensures
        word_bytes(v, width, endian).len() == width,
        word_of(word_bytes(v, width, endian), endian) == v,
{
    lemma_le_bytes_word(v, width);
    match endian {
        Endian::Little => {},
        Endian::Big => {
            assert(le_bytes(v, width).reverse().reverse() =~= le_bytes(v, width));
        },
    }
}

/// Reads the `width`-byte word stored at `offset` in `buffer` under the given
/// byte order.
pub fn read_word(buffer: &[u8], offset: usize, width: usize, endian: Endian) -> (r: u64)
    requires
        width <= 8,
        offset + width <= buffer@.len(),
    ensures
        r as int == word_of(buffer@.subrange(offset as int, offset + width), endian),
        r < pow256(width as nat),
{
    let ghost s = buffer@.subrange(offset as int, offset + width);
    let n = buffer.len();
    proof {
        lemma_pow256_u64();
        lemma_pow256_mono(width as nat, 8);
    }
    match endian {
        Endian::Little => {
            let mut acc: u64 = 0;
            let mut i: usize = width;
            while i > 0
                invariant
                    i <= width <= 8,
                    offset + width <= n == buffer@.len(),
                    s == buffer@.subrange(offset as int, offset + width),
                    acc as int == le_word(s.skip(i as int)),
                    acc < pow256((width - i) as nat),
                decreases i,
            {
                i = i - 1;
                proof {
                    lemma_pow256_u64();
                    assert(s.skip(i as int)[0] == s[i as int]);
                    assert(s.skip(i as int).drop_first() =~= s.skip(i + 1));
                    assert(pow256(((width - i) as nat)) == 256 * pow256((width - (i + 1)) as nat));
                    lemma_pow256_mono((width - i) as nat, 8);
                    assert(acc as int <= pow256((width - (i + 1)) as nat) - 1);
                    assert(acc as int * 256 + 255 < pow256((width - i) as nat));
                }
                acc = acc * 256 + (buffer[offset + i] as u64);
            }
            proof {
                assert(s.skip(0) =~= s);
            }
            acc
        },
        Endian::Big => {
            let mut acc: u64 = 0;
            let mut i: usize = 0;
            while i < width
                invariant
                    i <= width <= 8,
                    offset + width <= n == buffer@.len(),
                    s == buffer@.subrange(offset as int, offset + width),
                    acc as int == le_word(s.take(i as int).reverse()),
                    acc < pow256(i as nat),
                decreases width - i,
            {
                proof {
                    lemma_pow256_u64();
                    let t = s.take(i + 1).reverse();
                    assert(t[0] == s[i as int]);
                    assert(t.drop_first() =~= s.take(i as int).reverse());
                    assert(pow256((i + 1) as nat) == 256 * pow256(i as nat));
                    lemma_pow256_mono((i + 1) as nat, 8);
                    assert(acc as int <= pow256(i as nat) - 1);
                    assert(acc as int * 256 + 255 < pow256((i + 1) as nat));
                }
                acc = acc * 256 + (buffer[offset + i] as u64);
                i = i + 1;
            }
            proof {
                assert(s.take(width as int) =~= s);
            }
            acc
        },
    }
}

/// Appends the canonical `width`-byte encoding of `v` under the given byte
/// order; everything already in `out` is left in place.
pub fn write_word(out: &mut Vec<u8>, v: u64, width: usize, endian: Endian)
    requires
        width <= 8,
        (v as int) < pow256(width as nat),
    ensures
        final(out)@ == old(out)@ + word_bytes(v as int, width as nat, endian),
{
    let mut tmp: Vec<u8> = Vec::new();
    let mut x = v;
    let mut i: usize = 0;
    while i < width
        invariant
            i <= width <= 8,
            tmp@.len() == i,
            le_bytes(v as int, width as nat) =~= tmp@ + le_bytes(x as int, (width - i) as nat),
            (x as int) < pow256((width - i) as nat),
        decreases width - i,
    {
        proof {
            lemma_pow256_u64();
            lemma_pow256_mono((width - i) as nat, 8);
            lemma_fundamental_div_mod(x as int, 256);
            assert((x as int) / 256 < pow256((width - (i + 1)) as nat)) by (nonlinear_arith)
                requires
                    0 <= x as int,
                    (x as int) < 256 * pow256((width - (i + 1)) as nat),
            ;
            assert(le_bytes(x as int, (width - i) as nat) =~= seq![((x as int) % 256) as u8]
                + le_bytes((x as int) / 256, (width - (i + 1)) as nat));
            assert((x as int) % 256 == (x % 256) as int);
            assert((x as int) / 256 == (x / 256) as int);
        }
        let b = (x % 256) as u8;
        tmp.push(b);
        x = x / 256;
        i = i + 1;
        proof {
            assert(le_bytes(v as int, width as nat) =~= tmp@ + le_bytes(
                x as int,
                (width - i) as nat,
            ));
        }
    }
    proof {
        assert(le_bytes(v as int, width as nat) =~= tmp@);
    }
    match endian {
        Endian::Little => {
            let mut j: usize = 0;
            while j < width
                invariant
                    j <= width,
                    tmp@ == le_bytes(v as int, width as nat),
                    tmp@.len() == width,
                    out@ == old(out)@ + tmp@.take(j as int),
                decreases width - j,
            {
                out.push(tmp[j]);
                proof {
                    assert(tmp@.take(j + 1) =~= tmp@.take(j as int).push(tmp@[j as int]));
                    assert(old(out)@ + tmp@.take(j + 1) =~= (old(out)@ + tmp@.take(j as int)).push(
                        tmp@[j as int],
                    ));
                }
                j = j + 1;
            }
            proof {
                assert(tmp@.take(width as int) =~= tmp@);
            }
        },
        Endian::Big => {
            let mut j: usize = 0;
            while j < width
                invariant
                    j <= width,
                    tmp@ == le_bytes(v as int, width as nat),
                    tmp@.len() == width,
                    out@ == old(out)@ + tmp@.reverse().take(j as int),
                decreases width - j,
            {
                proof {
                    assert(tmp@.reverse()[j as int] == tmp@[width - 1 - j]);
                    assert(tmp@.reverse().take(j + 1) =~= tmp@.reverse().take(j as int).push(
                        tmp@.reverse()[j as int],
                    ));
                    assert(old(out)@ + tmp@.reverse().take(j + 1) =~= (old(out)@
                        + tmp@.reverse().take(j as int)).push(tmp@[width - 1 - j]));
                }
                out.push(tmp[width - 1 - j]);
                j = j + 1;
            }
            proof {
                assert(tmp@.reverse().take(width as int) =~= tmp@.reverse());
            }
        },
    }
}

} // verus!
