use vstd::prelude::*;
use vstd::utf8::decode_utf8;
use vstd::utf8::encode_utf8;
use vstd::utf8::valid_utf8;
use crate::error::ElfError;
use crate::object::Endianness;
use std::string::FromUtf8Error;

verus! {

/// The smallest multiple of `align` that is not below `pos`; `pos` itself
/// where `align` is zero.
pub open spec fn align_up(pos: int, align: int) -> int {
    if align == 0 || pos % align == 0 {
        pos
    } else {
        pos + (align - pos % align)
    }
}

/// Aligns a given number to a given multiple.
///
/// The rounded number has to fit in a `u64`.
pub fn align_to(pos: &u64, align: &u64) -> (r: u64)
    requires
        align_up(*pos as int, *align as int) <= u64::MAX,
    ensures
        r == align_up(*pos as int, *align as int),
{
    if *align == 0 {
        return *pos;
    }
    let over: u64 = *pos % *align;
    if over == 0 {
        return *pos;
    }
    *pos + (*align - over)
}

/// As [`align_to`], for every input: `None` where the rounded number does
/// not fit in a `u64`.
pub fn checked_align_to(pos: u64, align: u64) -> (r: Option<u64>)
    ensures
        match r {
            Some(v) => v == align_up(pos as int, align as int),
            None => align_up(pos as int, align as int) > u64::MAX,
        },
{
    if align == 0 {
        return Some(pos);
    }
    let over: u64 = pos % align;
    if over == 0 {
        return Some(pos);
    }
    let pad: u64 = align - over;
    if pad > u64::MAX - pos {
        None
    } else {
        Some(pos + pad)
    }
}

/// Rounding up lands on a multiple of the alignment, moves by less than one
/// alignment, and never moves backwards.
pub proof fn lemma_align_up(pos: int, align: int)
    requires
        0 <= pos,
        0 <= align,
    ensures
        pos <= align_up(pos, align),
        align > 0 ==> align_up(pos, align) % align == 0,
        align > 0 ==> align_up(pos, align) < pos + align,
        align_up(align_up(pos, align), align) == align_up(pos, align),
{
    if align > 0 && pos % align != 0 {
        let r = pos % align;
        let up = pos + (align - r);
        assert(up % align == 0) by (nonlinear_arith)
            requires
                align > 0,
                r == pos % align,
                up == pos + (align - r),
        {
            let q = pos / align;
            assert(pos == q * align + r);
            assert(up == (q + 1) * align);
        }
    }
}


/// The two bytes that hold `x` in the given byte order.
#[verifier::opaque]
pub open spec fn u16_bytes(endian: Endianness, x: u16) -> Seq<u8> {
    match endian {
        Endianness::Little => seq![(x % 256) as u8, (x / 256) as u8],
        Endianness::Big => seq![(x / 256) as u8, (x % 256) as u8],
    }
}

/// The four bytes that hold `x` in the given byte order.
#[verifier::opaque]
pub open spec fn u32_bytes(endian: Endianness, x: u32) -> Seq<u8> {
    match endian {
        Endianness::Little => seq![
            (x % 256) as u8,
            (x / 0x100 % 256) as u8,
            (x / 0x1_0000 % 256) as u8,
            (x / 0x100_0000) as u8,
        ],
        Endianness::Big => seq![
            (x / 0x100_0000) as u8,
            (x / 0x1_0000 % 256) as u8,
            (x / 0x100 % 256) as u8,
            (x % 256) as u8,
        ],
    }
}

/// The eight bytes that hold `x` in the given byte order.
#[verifier::opaque]
pub open spec fn u64_bytes(endian: Endianness, x: u64) -> Seq<u8> {
    match endian {
        Endianness::Little => seq![
            (x % 256) as u8,
            (x / 0x100 % 256) as u8,
            (x / 0x1_0000 % 256) as u8,
            (x / 0x100_0000 % 256) as u8,
            (x / 0x1_0000_0000 % 256) as u8,
            (x / 0x100_0000_0000 % 256) as u8,
            (x / 0x1_0000_0000_0000 % 256) as u8,
            (x / 0x100_0000_0000_0000) as u8,
        ],
        Endianness::Big => seq![
            (x / 0x100_0000_0000_0000) as u8,
            (x / 0x1_0000_0000_0000 % 256) as u8,
            (x / 0x100_0000_0000 % 256) as u8,
            (x / 0x1_0000_0000 % 256) as u8,
            (x / 0x100_0000 % 256) as u8,
            (x / 0x1_0000 % 256) as u8,
            (x / 0x100 % 256) as u8,
            (x % 256) as u8,
        ],
    }
}

/// The number whose bytes, least significant first, are `b0` and `b1`.
pub open spec fn join2(b0: u8, b1: u8) -> u16 {
    (b0 + 0x100 * b1) as u16
}

/// The number whose bytes, least significant first, are `b0` to `b3`.
pub open spec fn join4(b0: u8, b1: u8, b2: u8, b3: u8) -> u32 {
    (b0 + 0x100 * b1 + 0x1_0000 * b2 + 0x100_0000 * b3) as u32
}

/// The number whose bytes, least significant first, are `b0` to `b7`.
pub open spec fn join8(b0: u8, b1: u8, b2: u8, b3: u8, b4: u8, b5: u8, b6: u8, b7: u8) -> u64 {
    (b0 + 0x100 * b1 + 0x1_0000 * b2 + 0x100_0000 * b3 + 0x1_0000_0000 * b4 + 0x100_0000_0000 * b5
        + 0x1_0000_0000_0000 * b6 + 0x100_0000_0000_0000 * b7) as u64
}

/// The byte at `at`.
pub open spec fn u8_at(bytes: Seq<u8>, at: int) -> u8 {
    bytes[at]
}

/// The number that the two bytes from `at` on hold in the given byte order.
#[verifier::opaque]
pub open spec fn u16_at(endian: Endianness, bytes: Seq<u8>, at: int) -> u16 {
    match endian {
        Endianness::Little => join2(bytes[at], bytes[at + 1]),
        Endianness::Big => join2(bytes[at + 1], bytes[at]),
    }
}

/// The number that the four bytes from `at` on hold in the given byte order.
#[verifier::opaque]
pub open spec fn u32_at(endian: Endianness, bytes: Seq<u8>, at: int) -> u32 {
    match endian {
        Endianness::Little => join4(bytes[at], bytes[at + 1], bytes[at + 2], bytes[at + 3]),
        Endianness::Big => join4(bytes[at + 3], bytes[at + 2], bytes[at + 1], bytes[at]),
    }
}

/// The number that the eight bytes from `at` on hold in the given byte order.
#[verifier::opaque]
pub open spec fn u64_at(endian: Endianness, bytes: Seq<u8>, at: int) -> u64 {
    match endian {
        Endianness::Little => join8(
            bytes[at],
            bytes[at + 1],
            bytes[at + 2],
            bytes[at + 3],
            bytes[at + 4],
            bytes[at + 5],
            bytes[at + 6],
            bytes[at + 7],
        ),
        Endianness::Big => join8(
            bytes[at + 7],
            bytes[at + 6],
            bytes[at + 5],
            bytes[at + 4],
            bytes[at + 3],
            bytes[at + 2],
            bytes[at + 1],
            bytes[at],
        ),
    }
}

proof fn lemma_split_join2(x: u16)
    ensures
        join2((x % 256) as u8, (x / 256) as u8) == x,
{
}

proof fn lemma_split_join4(x: u32)
    ensures
        join4(
            (x % 256) as u8,
            (x / 0x100 % 256) as u8,
            (x / 0x1_0000 % 256) as u8,
            (x / 0x100_0000) as u8,
        ) == x,
{
    assert((x % 256) + 0x100u32 * (x / 0x100 % 256) + 0x1_0000u32 * (x / 0x1_0000 % 256)
        + 0x100_0000u32 * (x / 0x100_0000) == x) by (bit_vector);
    assert(x / 0x100_0000 < 256) by (bit_vector);
}

proof fn lemma_split_join8(x: u64)
    ensures
        join8(
            (x % 256) as u8,
            (x / 0x100 % 256) as u8,
            (x / 0x1_0000 % 256) as u8,
            (x / 0x100_0000 % 256) as u8,
            (x / 0x1_0000_0000 % 256) as u8,
            (x / 0x100_0000_0000 % 256) as u8,
            (x / 0x1_0000_0000_0000 % 256) as u8,
            (x / 0x100_0000_0000_0000) as u8,
        ) == x,
{
    assert((x % 256) + 0x100u64 * (x / 0x100 % 256) + 0x1_0000u64 * (x / 0x1_0000 % 256)
        + 0x100_0000u64 * (x / 0x100_0000 % 256) + 0x1_0000_0000u64 * (x / 0x1_0000_0000 % 256)
        + 0x100_0000_0000u64 * (x / 0x100_0000_0000 % 256) + 0x1_0000_0000_0000u64 * (x
        / 0x1_0000_0000_0000 % 256) + 0x100_0000_0000_0000u64 * (x / 0x100_0000_0000_0000) == x)
        by (bit_vector);
    assert(x / 0x100_0000_0000_0000 < 256) by (bit_vector);
}

proof fn lemma_join_split2(b0: u8, b1: u8)
    ensures
        (join2(b0, b1) % 256) as u8 == b0,
        (join2(b0, b1) / 256) as u8 == b1,
{
}

proof fn lemma_join_split4(b0: u8, b1: u8, b2: u8, b3: u8)
    ensures
        (join4(b0, b1, b2, b3) % 256) as u8 == b0,
        (join4(b0, b1, b2, b3) / 0x100 % 256) as u8 == b1,
        (join4(b0, b1, b2, b3) / 0x1_0000 % 256) as u8 == b2,
        (join4(b0, b1, b2, b3) / 0x100_0000) as u8 == b3,
{
    let d0 = b0 as u32;
    let d1 = b1 as u32;
    let d2 = b2 as u32;
    let d3 = b3 as u32;
    let x = join4(b0, b1, b2, b3);
    assert(x == d0 + 0x100u32 * d1 + 0x1_0000u32 * d2 + 0x100_0000u32 * d3);
    assert(x % 256 == d0 && x / 0x100 % 256 == d1 && x / 0x1_0000 % 256 == d2 && x / 0x100_0000
        == d3) by (bit_vector)
        requires
            d0 < 256,
            d1 < 256,
            d2 < 256,
            d3 < 256,
            x == d0 + 0x100u32 * d1 + 0x1_0000u32 * d2 + 0x100_0000u32 * d3,
    ;
}

proof fn lemma_join_split8(b0: u8, b1: u8, b2: u8, b3: u8, b4: u8, b5: u8, b6: u8, b7: u8)
    ensures
        (join8(b0, b1, b2, b3, b4, b5, b6, b7) % 256) as u8 == b0,
        (join8(b0, b1, b2, b3, b4, b5, b6, b7) / 0x100 % 256) as u8 == b1,
        (join8(b0, b1, b2, b3, b4, b5, b6, b7) / 0x1_0000 % 256) as u8 == b2,
        (join8(b0, b1, b2, b3, b4, b5, b6, b7) / 0x100_0000 % 256) as u8 == b3,
        (join8(b0, b1, b2, b3, b4, b5, b6, b7) / 0x1_0000_0000 % 256) as u8 == b4,
        (join8(b0, b1, b2, b3, b4, b5, b6, b7) / 0x100_0000_0000 % 256) as u8 == b5,
        (join8(b0, b1, b2, b3, b4, b5, b6, b7) / 0x1_0000_0000_0000 % 256) as u8 == b6,
        (join8(b0, b1, b2, b3, b4, b5, b6, b7) / 0x100_0000_0000_0000) as u8 == b7,
{
    let d0 = b0 as u64;
    let d1 = b1 as u64;
    let d2 = b2 as u64;
    let d3 = b3 as u64;
    let d4 = b4 as u64;
    let d5 = b5 as u64;
    let d6 = b6 as u64;
    let d7 = b7 as u64;
    let x = join8(b0, b1, b2, b3, b4, b5, b6, b7);
    assert(x == d0 + 0x100u64 * d1 + 0x1_0000u64 * d2 + 0x100_0000u64 * d3 + 0x1_0000_0000u64 * d4
        + 0x100_0000_0000u64 * d5 + 0x1_0000_0000_0000u64 * d6 + 0x100_0000_0000_0000u64 * d7);
    assert(x % 256 == d0 && x / 0x100 % 256 == d1 && x / 0x1_0000 % 256 == d2 && x / 0x100_0000
        % 256 == d3 && x / 0x1_0000_0000 % 256 == d4 && x / 0x100_0000_0000 % 256 == d5 && x
        / 0x1_0000_0000_0000 % 256 == d6 && x / 0x100_0000_0000_0000 == d7) by (bit_vector)
        requires
            d0 < 256,
            d1 < 256,
            d2 < 256,
            d3 < 256,
            d4 < 256,
            d5 < 256,
            d6 < 256,
            d7 < 256,
            x == d0 + 0x100u64 * d1 + 0x1_0000u64 * d2 + 0x100_0000u64 * d3 + 0x1_0000_0000u64
                * d4 + 0x100_0000_0000u64 * d5 + 0x1_0000_0000_0000u64 * d6
                + 0x100_0000_0000_0000u64 * d7,
    ;
}

/// Decoding the two bytes of a number gives the number back.
pub proof fn lemma_u16_round_trip(endian: Endianness, x: u16)
    ensures
        u16_bytes(endian, x).len() == 2,
        u16_at(endian, u16_bytes(endian, x), 0) == x,
{
    reveal(u16_bytes);
    reveal(u16_at);
    lemma_split_join2(x);
}

/// Decoding the four bytes of a number gives the number back.
pub proof fn lemma_u32_round_trip(endian: Endianness, x: u32)
    ensures
        u32_bytes(endian, x).len() == 4,
        u32_at(endian, u32_bytes(endian, x), 0) == x,
{
    reveal(u32_bytes);
    reveal(u32_at);
    lemma_split_join4(x);
}

/// Decoding the eight bytes of a number gives the number back.
pub proof fn lemma_u64_round_trip(endian: Endianness, x: u64)
    ensures
        u64_bytes(endian, x).len() == 8,
        u64_at(endian, u64_bytes(endian, x), 0) == x,
{
    reveal(u64_bytes);
    reveal(u64_at);
    lemma_split_join8(x);
}

/// Encoding the number that two bytes hold gives those bytes back.
pub proof fn lemma_u16_bytes_of_at(endian: Endianness, bytes: Seq<u8>, at: int)
    requires
        0 <= at,
        at + 2 <= bytes.len(),
    ensures
        u16_bytes(endian, u16_at(endian, bytes, at)) == bytes.subrange(at, at + 2),
{
    reveal(u16_bytes);
    reveal(u16_at);
    lemma_join_split2(bytes[at], bytes[at + 1]);
    lemma_join_split2(bytes[at + 1], bytes[at]);
    assert(u16_bytes(endian, u16_at(endian, bytes, at)) =~= bytes.subrange(at, at + 2));
}

/// Encoding the number that four bytes hold gives those bytes back.
pub proof fn lemma_u32_bytes_of_at(endian: Endianness, bytes: Seq<u8>, at: int)
    requires
        0 <= at,
        at + 4 <= bytes.len(),
    ensures
        u32_bytes(endian, u32_at(endian, bytes, at)) == bytes.subrange(at, at + 4),
{
    reveal(u32_bytes);
    reveal(u32_at);
    lemma_join_split4(bytes[at], bytes[at + 1], bytes[at + 2], bytes[at + 3]);
    lemma_join_split4(bytes[at + 3], bytes[at + 2], bytes[at + 1], bytes[at]);
    assert(u32_bytes(endian, u32_at(endian, bytes, at)) =~= bytes.subrange(at, at + 4));
}

/// Encoding the number that eight bytes hold gives those bytes back.
pub proof fn lemma_u64_bytes_of_at(endian: Endianness, bytes: Seq<u8>, at: int)
    requires
        0 <= at,
        at + 8 <= bytes.len(),
    ensures
        u64_bytes(endian, u64_at(endian, bytes, at)) == bytes.subrange(at, at + 8),
{
    let x = u64_at(endian, bytes, at);
    let out = u64_bytes(endian, x);
    let part = bytes.subrange(at, at + 8);
    match endian {
        Endianness::Little => {
            assert(x == join8(
                bytes[at],
                bytes[at + 1],
                bytes[at + 2],
                bytes[at + 3],
                bytes[at + 4],
                bytes[at + 5],
                bytes[at + 6],
                bytes[at + 7],
            )) by {
                reveal(u64_at);
            }
            lemma_join_split8(
                bytes[at],
                bytes[at + 1],
                bytes[at + 2],
                bytes[at + 3],
                bytes[at + 4],
                bytes[at + 5],
                bytes[at + 6],
                bytes[at + 7],
            );
            assert(out.len() == 8 && out[0] == part[0] && out[1] == part[1] && out[2] == part[2]
                && out[3] == part[3] && out[4] == part[4] && out[5] == part[5] && out[6]
                == part[6] && out[7] == part[7]) by {
                reveal(u64_bytes);
            }
        },
        Endianness::Big => {
            assert(x == join8(
                bytes[at + 7],
                bytes[at + 6],
                bytes[at + 5],
                bytes[at + 4],
                bytes[at + 3],
                bytes[at + 2],
                bytes[at + 1],
                bytes[at],
            )) by {
                reveal(u64_at);
            }
            lemma_join_split8(
                bytes[at + 7],
                bytes[at + 6],
                bytes[at + 5],
                bytes[at + 4],
                bytes[at + 3],
                bytes[at + 2],
                bytes[at + 1],
                bytes[at],
            );
            assert(out.len() == 8 && out[0] == part[0] && out[1] == part[1] && out[2] == part[2]
                && out[3] == part[3] && out[4] == part[4] && out[5] == part[5] && out[6]
                == part[6] && out[7] == part[7]) by {
                reveal(u64_bytes);
            }
        },
    }
    assert(out =~= part);
}


/// Splits `x` into its two bytes in the given byte order.
pub fn u16_to_bytes(endian: &Endianness, x: u16) -> (b: [u8; 2])
    ensures
        b@ == u16_bytes(*endian, x),
{
    proof {
        reveal(u16_bytes);
    }
    let b0: u8 = (x % 256) as u8;
    let b1: u8 = (x / 256) as u8;
    let b = match endian {
        Endianness::Little => [b0, b1],
        Endianness::Big => [b1, b0],
    };
    assert(b@ =~= u16_bytes(*endian, x));
    b
}

/// Splits `x` into its four bytes in the given byte order.
pub fn u32_to_bytes(endian: &Endianness, x: u32) -> (b: [u8; 4])
    ensures
        b@ == u32_bytes(*endian, x),
{
    proof {
        reveal(u32_bytes);
    }
    let b0: u8 = (x % 256) as u8;
    let b1: u8 = (x / 0x100 % 256) as u8;
    let b2: u8 = (x / 0x1_0000 % 256) as u8;
    let b3: u8 = (x / 0x100_0000) as u8;
    let b = match endian {
        Endianness::Little => [b0, b1, b2, b3],
        Endianness::Big => [b3, b2, b1, b0],
    };
    assert(b@ =~= u32_bytes(*endian, x));
    b
}

/// Splits `x` into its eight bytes in the given byte order.
pub fn u64_to_bytes(endian: &Endianness, x: u64) -> (b: [u8; 8])
    ensures
        b@ == u64_bytes(*endian, x),
{
    proof {
        reveal(u64_bytes);
    }
    let b0: u8 = (x % 256) as u8;
    let b1: u8 = (x / 0x100 % 256) as u8;
    let b2: u8 = (x / 0x1_0000 % 256) as u8;
    let b3: u8 = (x / 0x100_0000 % 256) as u8;
    let b4: u8 = (x / 0x1_0000_0000 % 256) as u8;
    let b5: u8 = (x / 0x100_0000_0000 % 256) as u8;
    let b6: u8 = (x / 0x1_0000_0000_0000 % 256) as u8;
    let b7: u8 = (x / 0x100_0000_0000_0000) as u8;
    let b = match endian {
        Endianness::Little => [b0, b1, b2, b3, b4, b5, b6, b7],
        Endianness::Big => [b7, b6, b5, b4, b3, b2, b1, b0],
    };
    assert(b@ =~= u64_bytes(*endian, x));
    b
}

/// Joins two bytes in the given byte order.
pub fn u16_from_bytes(endian: &Endianness, b: &[u8; 2]) -> (x: u16)
    ensures
        x == u16_at(*endian, b@, 0),
{
    proof {
        reveal(u16_at);
    }
    match endian {
        Endianness::Little => b[0] as u16 + 0x100 * (b[1] as u16),
        Endianness::Big => b[1] as u16 + 0x100 * (b[0] as u16),
    }
}

/// Joins four bytes in the given byte order.
pub fn u32_from_bytes(endian: &Endianness, b: &[u8; 4]) -> (x: u32)
    ensures
        x == u32_at(*endian, b@, 0),
{
    proof {
        reveal(u32_at);
    }
    match endian {
        Endianness::Little => b[0] as u32 + 0x100 * (b[1] as u32) + 0x1_0000 * (b[2] as u32)
            + 0x100_0000 * (b[3] as u32),
        Endianness::Big => b[3] as u32 + 0x100 * (b[2] as u32) + 0x1_0000 * (b[1] as u32)
            + 0x100_0000 * (b[0] as u32),
    }
}

/// Joins eight bytes in the given byte order.
pub fn u64_from_bytes(endian: &Endianness, b: &[u8; 8]) -> (x: u64)
    ensures
        x == u64_at(*endian, b@, 0),
{
    proof {
        reveal(u64_at);
    }
    match endian {
        Endianness::Little => b[0] as u64 + 0x100 * (b[1] as u64) + 0x1_0000 * (b[2] as u64)
            + 0x100_0000 * (b[3] as u64) + 0x1_0000_0000 * (b[4] as u64) + 0x100_0000_0000 * (
        b[5] as u64) + 0x1_0000_0000_0000 * (b[6] as u64) + 0x100_0000_0000_0000 * (b[7] as u64),
        Endianness::Big => b[7] as u64 + 0x100 * (b[6] as u64) + 0x1_0000 * (b[5] as u64)
            + 0x100_0000 * (b[4] as u64) + 0x1_0000_0000 * (b[3] as u64) + 0x100_0000_0000 * (
        b[2] as u64) + 0x1_0000_0000_0000 * (b[1] as u64) + 0x100_0000_0000_0000 * (b[0] as u64),
    }
}


/// The error of `String::from_utf8` of std, carried through unread.
#[verifier::external_type_specification]
#[verifier::external_body]
pub struct ExFromUtf8Error(FromUtf8Error);

/// `String::from_utf8` of std: it succeeds exactly on well-formed UTF-8, and
/// the string it returns holds the characters that the bytes encode.
pub assume_specification[ String::from_utf8 ](vec: Vec<u8>) -> (r: Result<String, FromUtf8Error>)
    ensures
        match r {
            Ok(s) => valid_utf8(vec@) && s@ == decode_utf8(vec@),
            Err(_) => !valid_utf8(vec@),
        },
;

/// Where the zero-terminated string that starts at `start` ends: the place of
/// the first zero byte at or after `start`, or the length of `bytes` where
/// there is none.
pub open spec fn cstr_end(bytes: Seq<u8>, start: int) -> int
    decreases bytes.len() - start,
{
    if start < 0 || start >= bytes.len() {
        bytes.len() as int
    } else if bytes[start] == 0 {
        start
    } else {
        cstr_end(bytes, start + 1)
    }
}

/// `image` after `patch` was written at `at`: the bytes under the patch are
/// replaced, a gap between the end of the image and `at` is filled with
/// zeros, and the image grows as far as the patch reaches.
pub open spec fn overlay(image: Seq<u8>, at: nat, patch: Seq<u8>) -> Seq<u8> {
    Seq::new(
        if image.len() >= at + patch.len() {
            image.len()
        } else {
            at + patch.len()
        },
        |i: int|
            if at <= i < at + patch.len() {
                patch[i - at]
            } else if i < image.len() {
                image[i]
            } else {
                0u8
            },
    )
}

/// What the contracts of this module know of a stream: all of its bytes, and
/// how far from its start the cursor stands.
pub trait ByteStream {
    /// Every byte of the stream, from its start.
    spec fn bytes(&self) -> Seq<u8>;

    /// The distance of the cursor from the start of the stream.
    spec fn cursor(&self) -> nat;

    /// The stream is held in memory: a `usize` can count its bytes.
    proof fn lemma_held_in_memory(&self)
        ensures
            self.bytes().len() <= usize::MAX,
    ;
}

/// Moving the cursor of a stream.
pub trait SeekExt: ByteStream {
    /// Where the cursor stands.
    fn stream_position(&self) -> (pos: u64)
        ensures
            pos == self.cursor(),
    ;

    /// Moves the cursor to `pos`, counted from the start. A place beyond the
    /// end is accepted.
    fn seek(&mut self, pos: u64)
        ensures
            final(self).cursor() == pos,
            final(self).bytes() == old(self).bytes(),
    ;

    /// Moves the cursor up to the next multiple of `align`.
    fn align(&mut self, align: u64) -> (r: Result<(), ElfError>)
        ensures
            final(self).bytes() == old(self).bytes(),
            match r {
                Ok(_) => final(self).cursor() == align_up(
                    old(self).cursor() as int,
                    align as int,
                ),
                Err(e) => e == ElfError::OffsetOverflow && align_up(
                    old(self).cursor() as int,
                    align as int,
                ) > u64::MAX && final(self).cursor() == old(self).cursor(),
            },
    {
        let cur: u64 = self.stream_position();
        match checked_align_to(cur, align) {
            Some(to) => {
                self.seek(to);
                Ok(())
            },
            None => Err(ElfError::OffsetOverflow),
        }
    }
}

/// Reading integers, byte blocks and zero-terminated strings at the cursor
/// of a stream. A read never changes the bytes of the stream.
pub trait ReadExt: ByteStream {
    /// Reads the next `count` bytes. Where fewer are left the read fails and
    /// the cursor stays.
    fn read_exact(&mut self, count: usize) -> (r: Result<Vec<u8>, ElfError>)
        ensures
            final(self).bytes() == old(self).bytes(),
            match r {
                Ok(v) => old(self).cursor() + count <= old(self).bytes().len()
                    && v@ == old(self).bytes().subrange(
                        old(self).cursor() as int,
                        old(self).cursor() + count,
                    )
                    && final(self).cursor() == old(self).cursor() + count,
                Err(e) => e == ElfError::TruncatedInput && old(self).cursor()
                    + count > old(self).bytes().len() && final(self).cursor() == old(self).cursor(),
            },
    ;

    /// Reads the next `COUNT` bytes.
    fn read_bytes<const COUNT: usize>(&mut self) -> (r: Result<[u8; COUNT], ElfError>)
        ensures
            final(self).bytes() == old(self).bytes(),
            match r {
                Ok(v) => old(self).cursor() + COUNT <= old(self).bytes().len()
                    && v@ == old(self).bytes().subrange(
                        old(self).cursor() as int,
                        old(self).cursor() + COUNT,
                    )
                    && final(self).cursor() == old(self).cursor() + COUNT,
                Err(e) => e == ElfError::TruncatedInput && old(self).cursor()
                    + COUNT > old(self).bytes().len() && final(self).cursor() == old(self).cursor(),
            },
    {
        let v = self.read_exact(COUNT)?;
        let mut x = [0u8;COUNT];
        let mut i: usize = 0;
        while i < COUNT
            invariant
                i <= COUNT,
                v@.len() == COUNT,
                forall|j: int| 0 <= j < i ==> x@[j] == v@[j],
            decreases COUNT - i,
        {
            x[i] = v[i];
            i += 1;
        }
        assert(x@ =~= v@);
        Ok(x)
    }

    /// Reads bytes up to and including the next zero byte and decodes those
    /// before it as UTF-8.
    fn read_cstr(&mut self) -> (r: Result<String, ElfError>)
        ensures
            final(self).bytes() == old(self).bytes(),
            ({
                let b = old(self).bytes();
                let c = old(self).cursor() as int;
                let end = cstr_end(b, c);
                if end < b.len() {
                    &&& final(self).cursor() == end + 1
                    &&& match r {
                        Ok(s) => valid_utf8(b.subrange(c, end)) && s@ == decode_utf8(
                            b.subrange(c, end),
                        ),
                        Err(e) => e == ElfError::DecodeError && !valid_utf8(b.subrange(c, end)),
                    }
                } else {
                    &&& r == Err::<String, ElfError>(ElfError::TruncatedInput)
                    &&& final(self).cursor() == if c <= b.len() {
                        b.len()
                    } else {
                        c as nat
                    }
                }
            }),
    {
        let ghost b = self.bytes();
        let ghost c = self.cursor() as int;
        let mut result: Vec<u8> = Vec::new();
        loop
            invariant_except_break
                b == old(self).bytes(),
                c == old(self).cursor(),
                self.bytes() == b,
                c <= self.cursor(),
                self.cursor() <= b.len() || self.cursor() == c,
                cstr_end(b, c) == cstr_end(b, self.cursor() as int),
                self.cursor() <= b.len() ==> result@ == b.subrange(c, self.cursor() as int),
            ensures
                b == old(self).bytes(),
                c == old(self).cursor(),
                self.bytes() == b,
                0 <= c <= cstr_end(b, c) < b.len(),
                self.cursor() == cstr_end(b, c) + 1,
                result@ == b.subrange(c, cstr_end(b, c)),
            decreases b.len() - self.cursor(),
        {
            let ghost at = self.cursor() as int;
            let ch: u8 = self.read_u8()?;
            if ch == 0 {
                break ;
            }
            result.push(ch);
            assert(ch == b[at]);
            assert(result@ =~= b.subrange(c, at + 1));
        }
        match String::from_utf8(result) {
            Ok(s) => Ok(s),
            Err(_) => Err(ElfError::DecodeError),
        }
    }

    /// Reads one byte.
    fn read_u8(&mut self) -> (r: Result<u8, ElfError>)
        ensures
            final(self).bytes() == old(self).bytes(),
            match r {
                Ok(v) => old(self).cursor() + 1 <= old(self).bytes().len() && v == u8_at(
                    old(self).bytes(),
                    old(self).cursor() as int,
                ) && final(self).cursor() == old(self).cursor() + 1,
                Err(e) => e == ElfError::TruncatedInput && old(self).cursor()
                    + 1 > old(self).bytes().len() && final(self).cursor() == old(self).cursor(),
            },
    {
        let b = self.read_bytes::<1>()?;
        Ok(b[0])
    }

    /// Reads the number that the next two bytes hold in the given byte order.
    fn read_u16(&mut self, endian: &Endianness) -> (r: Result<u16, ElfError>)
        ensures
            final(self).bytes() == old(self).bytes(),
            match r {
                Ok(v) => old(self).cursor() + 2 <= old(self).bytes().len() && v == u16_at(
                    *endian,
                    old(self).bytes(),
                    old(self).cursor() as int,
                ) && final(self).cursor() == old(self).cursor() + 2,
                Err(e) => e == ElfError::TruncatedInput && old(self).cursor()
                    + 2 > old(self).bytes().len() && final(self).cursor() == old(self).cursor(),
            },
    {
        let b = self.read_bytes::<2>()?;
        proof {
            reveal(u16_at);
        }
        Ok(u16_from_bytes(endian, &b))
    }

    /// Reads the number that the next four bytes hold in the given byte order.
    fn read_u32(&mut self, endian: &Endianness) -> (r: Result<u32, ElfError>)
        ensures
            final(self).bytes() == old(self).bytes(),
            match r {
                Ok(v) => old(self).cursor() + 4 <= old(self).bytes().len() && v == u32_at(
                    *endian,
                    old(self).bytes(),
                    old(self).cursor() as int,
                ) && final(self).cursor() == old(self).cursor() + 4,
                Err(e) => e == ElfError::TruncatedInput && old(self).cursor()
                    + 4 > old(self).bytes().len() && final(self).cursor() == old(self).cursor(),
            },
    {
        let b = self.read_bytes::<4>()?;
        proof {
            reveal(u32_at);
        }
        Ok(u32_from_bytes(endian, &b))
    }

    /// Reads the number that the next eight bytes hold in the given byte order.
    fn read_u64(&mut self, endian: &Endianness) -> (r: Result<u64, ElfError>)
        ensures
            final(self).bytes() == old(self).bytes(),
            match r {
                Ok(v) => old(self).cursor() + 8 <= old(self).bytes().len() && v == u64_at(
                    *endian,
                    old(self).bytes(),
                    old(self).cursor() as int,
                ) && final(self).cursor() == old(self).cursor() + 8,
                Err(e) => e == ElfError::TruncatedInput && old(self).cursor()
                    + 8 > old(self).bytes().len() && final(self).cursor() == old(self).cursor(),
            },
    {
        let b = self.read_bytes::<8>()?;
        proof {
            reveal(u64_at);
        }
        Ok(u64_from_bytes(endian, &b))
    }
}


/// Writing integers, byte blocks and zero-terminated strings at the cursor
/// of a stream. Every method returns the number of bytes written, and
/// writes nothing where it fails.
pub trait WriteExt: ByteStream {
    /// Writes all of `bytes` at the cursor and moves the cursor behind them.
    /// Where the cursor would pass the largest `usize` the write fails and
    /// the stream stays as it was.
    fn write_all(&mut self, bytes: &[u8]) -> (r: Result<usize, ElfError>)
        ensures
            match r {
                Ok(n) => n == bytes@.len() && final(self).bytes() == overlay(
                    old(self).bytes(),
                    old(self).cursor(),
                    bytes@,
                ) && final(self).cursor() == old(self).cursor() + n
                    && final(self).cursor() <= usize::MAX,
                Err(e) => e == ElfError::OffsetOverflow && old(self).cursor() + bytes@.len()
                    > usize::MAX && final(self).bytes() == old(self).bytes()
                        && final(self).cursor() == old(self).cursor(),
            },
    ;

    /// Writes the `COUNT` bytes of `value`.
    fn write_bytes<const COUNT: usize>(&mut self, value: &[u8; COUNT]) -> (r: Result<
        usize,
        ElfError,
    >)
        ensures
            match r {
                Ok(n) => n == COUNT && final(self).bytes() == overlay(
                    old(self).bytes(),
                    old(self).cursor(),
                    value@,
                ) && final(self).cursor() == old(self).cursor() + n
                    && final(self).cursor() <= usize::MAX,
                Err(e) => e == ElfError::OffsetOverflow && old(self).cursor() + COUNT
                    > usize::MAX && final(self).bytes() == old(self).bytes()
                        && final(self).cursor() == old(self).cursor(),
            },
    {
        self.write_all(value.as_slice())
    }

    /// Writes the UTF-8 bytes of `value` and a zero byte behind them.
    fn write_cstr(&mut self, value: &str) -> (r: Result<usize, ElfError>)
        ensures
            match r {
                Ok(n) => n == encode_utf8(value@).len() + 1 && final(self).bytes() == overlay(
                    old(self).bytes(),
                    old(self).cursor(),
                    encode_utf8(value@).push(0u8),
                ) && final(self).cursor() == old(self).cursor() + n
                    && final(self).cursor() <= usize::MAX,
                Err(e) => e == ElfError::OffsetOverflow && old(self).cursor() + encode_utf8(
                    value@,
                ).len() + 1 > usize::MAX && final(self).bytes() == old(self).bytes()
                    && final(self).cursor() == old(self).cursor(),
            },
    {
        let text = value.as_bytes();
        if text.len() == usize::MAX {
            return Err(ElfError::OffsetOverflow);
        }
        let mut raw: Vec<u8> = Vec::new();
        let mut i: usize = 0;
        while i < text.len()
            invariant
                i <= text@.len(),
                raw@ == text@.take(i as int),
            decreases text@.len() - i,
        {
            raw.push(text[i]);
            i += 1;
        }
        raw.push(0u8);
        assert(raw@ =~= encode_utf8(value@).push(0u8));
        self.write_all(raw.as_slice())
    }

    /// Writes one byte.
    fn write_u8(&mut self, value: u8) -> (r: Result<usize, ElfError>)
        ensures
            match r {
                Ok(n) => n == 1 && final(self).bytes() == overlay(
                    old(self).bytes(),
                    old(self).cursor(),
                    seq![value],
                ) && final(self).cursor() == old(self).cursor() + n
                    && final(self).cursor() <= usize::MAX,
                Err(e) => e == ElfError::OffsetOverflow && old(self).cursor() + 1 > usize::MAX
                    && final(self).bytes() == old(self).bytes()
                        && final(self).cursor() == old(self).cursor(),
            },
    {
        let b: [u8; 1] = [value];
        assert(b@ =~= seq![value]);
        self.write_bytes::<1>(&b)
    }

    /// Writes the two bytes of `value` in the given byte order.
    fn write_u16(&mut self, endian: &Endianness, value: u16) -> (r: Result<usize, ElfError>)
        ensures
            match r {
                Ok(n) => n == 2 && final(self).bytes() == overlay(
                    old(self).bytes(),
                    old(self).cursor(),
                    u16_bytes(*endian, value),
                ) && final(self).cursor() == old(self).cursor() + n
                    && final(self).cursor() <= usize::MAX,
                Err(e) => e == ElfError::OffsetOverflow && old(self).cursor() + 2 > usize::MAX
                    && final(self).bytes() == old(self).bytes()
                        && final(self).cursor() == old(self).cursor(),
            },
    {
        let b = u16_to_bytes(endian, value);
        self.write_bytes::<2>(&b)
    }

    /// Writes the four bytes of `value` in the given byte order.
    fn write_u32(&mut self, endian: &Endianness, value: u32) -> (r: Result<usize, ElfError>)
        ensures
            match r {
                Ok(n) => n == 4 && final(self).bytes() == overlay(
                    old(self).bytes(),
                    old(self).cursor(),
                    u32_bytes(*endian, value),
                ) && final(self).cursor() == old(self).cursor() + n
                    && final(self).cursor() <= usize::MAX,
                Err(e) => e == ElfError::OffsetOverflow && old(self).cursor() + 4 > usize::MAX
                    && final(self).bytes() == old(self).bytes()
                        && final(self).cursor() == old(self).cursor(),
            },
    {
        let b = u32_to_bytes(endian, value);
        self.write_bytes::<4>(&b)
    }

    /// Writes the eight bytes of `value` in the given byte order.
    fn write_u64(&mut self, endian: &Endianness, value: u64) -> (r: Result<usize, ElfError>)
        ensures
            match r {
                Ok(n) => n == 8 && final(self).bytes() == overlay(
                    old(self).bytes(),
                    old(self).cursor(),
                    u64_bytes(*endian, value),
                ) && final(self).cursor() == old(self).cursor() + n
                    && final(self).cursor() <= usize::MAX,
                Err(e) => e == ElfError::OffsetOverflow && old(self).cursor() + 8 > usize::MAX
                    && final(self).bytes() == old(self).bytes()
                        && final(self).cursor() == old(self).cursor(),
            },
    {
        let b = u64_to_bytes(endian, value);
        self.write_bytes::<8>(&b)
    }
}

/// Where a stretch of `bytes` holds the bytes of a number, reading the
/// stretch gives the number.
pub proof fn lemma_u16_at_of_bytes(endian: Endianness, bytes: Seq<u8>, at: int, x: u16)
    requires
        0 <= at,
        at + 2 <= bytes.len(),
        bytes.subrange(at, at + 2) == u16_bytes(endian, x),
    ensures
        u16_at(endian, bytes, at) == x,
{
    reveal(u16_at);
    lemma_u16_round_trip(endian, x);
    let part = bytes.subrange(at, at + 2);
    assert(part[0] == bytes[at] && part[1] == bytes[at + 1]);
}

/// Where a stretch of `bytes` holds the bytes of a number, reading the
/// stretch gives the number.
pub proof fn lemma_u32_at_of_bytes(endian: Endianness, bytes: Seq<u8>, at: int, x: u32)
    requires
        0 <= at,
        at + 4 <= bytes.len(),
        bytes.subrange(at, at + 4) == u32_bytes(endian, x),
    ensures
        u32_at(endian, bytes, at) == x,
{
    reveal(u32_at);
    lemma_u32_round_trip(endian, x);
    let part = bytes.subrange(at, at + 4);
    assert(part[0] == bytes[at] && part[1] == bytes[at + 1] && part[2] == bytes[at + 2] && part[3]
        == bytes[at + 3]);
}

/// Where a stretch of `bytes` holds the bytes of a number, reading the
/// stretch gives the number.
pub proof fn lemma_u64_at_of_bytes(endian: Endianness, bytes: Seq<u8>, at: int, x: u64)
    requires
        0 <= at,
        at + 8 <= bytes.len(),
        bytes.subrange(at, at + 8) == u64_bytes(endian, x),
    ensures
        u64_at(endian, bytes, at) == x,
{
    reveal(u64_at);
    lemma_u64_round_trip(endian, x);
    let part = bytes.subrange(at, at + 8);
    assert(part[0] == bytes[at] && part[1] == bytes[at + 1] && part[2] == bytes[at + 2] && part[3]
        == bytes[at + 3] && part[4] == bytes[at + 4] && part[5] == bytes[at + 5] && part[6]
        == bytes[at + 6] && part[7] == bytes[at + 7]);
}


/// The bytes of a number are as many as its width says.
pub proof fn lemma_field_lengths(endian: Endianness)
    ensures
        forall|x: u16| #[trigger] u16_bytes(endian, x).len() == 2,
        forall|x: u32| #[trigger] u32_bytes(endian, x).len() == 4,
        forall|x: u64| #[trigger] u64_bytes(endian, x).len() == 8,
{
    reveal(u16_bytes);
    reveal(u32_bytes);
    reveal(u64_bytes);
}

/// As [`lemma_u16_at_of_bytes`], with the stretch compared byte by byte.
pub proof fn lemma_u16_field(endian: Endianness, bytes: Seq<u8>, at: int, x: u16)
    requires
        0 <= at,
        at + 2 <= bytes.len(),
        bytes.subrange(at, at + 2) =~= u16_bytes(endian, x),
    ensures
        u16_at(endian, bytes, at) == x,
{
    lemma_u16_at_of_bytes(endian, bytes, at, x);
}

/// As [`lemma_u32_at_of_bytes`], with the stretch compared byte by byte.
pub proof fn lemma_u32_field(endian: Endianness, bytes: Seq<u8>, at: int, x: u32)
    requires
        0 <= at,
        at + 4 <= bytes.len(),
        bytes.subrange(at, at + 4) =~= u32_bytes(endian, x),
    ensures
        u32_at(endian, bytes, at) == x,
{
    lemma_u32_at_of_bytes(endian, bytes, at, x);
}

/// As [`lemma_u64_at_of_bytes`], with the stretch compared byte by byte.
pub proof fn lemma_u64_field(endian: Endianness, bytes: Seq<u8>, at: int, x: u64)
    requires
        0 <= at,
        at + 8 <= bytes.len(),
        bytes.subrange(at, at + 8) =~= u64_bytes(endian, x),
    ensures
        u64_at(endian, bytes, at) == x,
{
    lemma_u64_at_of_bytes(endian, bytes, at, x);
}

/// Appends one byte.
pub fn put_u8(raw: &mut Vec<u8>, x: u8)
    ensures
        final(raw)@ == old(raw)@ + seq![x],
{
    raw.push(x);
    assert(raw@ =~= old(raw)@ + seq![x]);
}

/// Appends the two bytes of `x` in the given byte order.
pub fn put_u16(raw: &mut Vec<u8>, endian: &Endianness, x: u16)
    ensures
        final(raw)@ == old(raw)@ + u16_bytes(*endian, x),
{
    let b = u16_to_bytes(endian, x);
    raw.push(b[0]);
    raw.push(b[1]);
    assert(raw@ =~= old(raw)@ + u16_bytes(*endian, x));
}

/// Appends the four bytes of `x` in the given byte order.
pub fn put_u32(raw: &mut Vec<u8>, endian: &Endianness, x: u32)
    ensures
        final(raw)@ == old(raw)@ + u32_bytes(*endian, x),
{
    let b = u32_to_bytes(endian, x);
    raw.push(b[0]);
    raw.push(b[1]);
    raw.push(b[2]);
    raw.push(b[3]);
    assert(raw@ =~= old(raw)@ + u32_bytes(*endian, x));
}

/// Appends the eight bytes of `x` in the given byte order.
pub fn put_u64(raw: &mut Vec<u8>, endian: &Endianness, x: u64)
    ensures
        final(raw)@ == old(raw)@ + u64_bytes(*endian, x),
{
    let b = u64_to_bytes(endian, x);
    raw.push(b[0]);
    raw.push(b[1]);
    raw.push(b[2]);
    raw.push(b[3]);
    raw.push(b[4]);
    raw.push(b[5]);
    raw.push(b[6]);
    raw.push(b[7]);
    assert(raw@ =~= old(raw)@ + u64_bytes(*endian, x));
}


/// Appends `bytes`.
pub fn put_bytes(raw: &mut Vec<u8>, bytes: &[u8])
    ensures
        final(raw)@ == old(raw)@ + bytes@,
{
    let count: usize = bytes.len();
    let mut i: usize = 0;
    while i < count
        invariant
            i <= count,
            count == bytes@.len(),
            raw@ == old(raw)@ + bytes@.take(i as int),
        decreases count - i,
    {
        raw.push(bytes[i]);
        i += 1;
        assert(raw@ =~= old(raw)@ + bytes@.take(i as int));
    }
    assert(bytes@.take(count as int) =~= bytes@);
}


/// Where a record stands at `at` in `bytes` and one of its fields holds the
/// bytes of a number, reading at the field's place gives the number.
pub proof fn lemma_u16_field_at(
    endian: Endianness,
    bytes: Seq<u8>,
    at: int,
    record: Seq<u8>,
    offset: int,
    x: u16,
)
    requires
        0 <= at,
        0 <= offset,
        offset + 2 <= record.len(),
        at + record.len() <= bytes.len(),
        bytes.subrange(at, at + record.len()) == record,
        record.subrange(offset, offset + 2) =~= u16_bytes(endian, x),
    ensures
        u16_at(endian, bytes, at + offset) == x,
{
    let part = bytes.subrange(at + offset, at + offset + 2);
    assert forall|k: int| 0 <= k < 2 implies #[trigger] part[k] == record[offset + k] by {
        assert(bytes.subrange(at, at + record.len())[offset + k] == bytes[at + offset + k]);
    }
    assert(part =~= record.subrange(offset, offset + 2));
    lemma_u16_at_of_bytes(endian, bytes, at + offset, x);
}

/// Where a record stands at `at` in `bytes` and one of its fields holds the
/// bytes of a number, reading at the field's place gives the number.
pub proof fn lemma_u32_field_at(
    endian: Endianness,
    bytes: Seq<u8>,
    at: int,
    record: Seq<u8>,
    offset: int,
    x: u32,
)
    requires
        0 <= at,
        0 <= offset,
        offset + 4 <= record.len(),
        at + record.len() <= bytes.len(),
        bytes.subrange(at, at + record.len()) == record,
        record.subrange(offset, offset + 4) =~= u32_bytes(endian, x),
    ensures
        u32_at(endian, bytes, at + offset) == x,
{
    let part = bytes.subrange(at + offset, at + offset + 4);
    assert forall|k: int| 0 <= k < 4 implies #[trigger] part[k] == record[offset + k] by {
        assert(bytes.subrange(at, at + record.len())[offset + k] == bytes[at + offset + k]);
    }
    assert(part =~= record.subrange(offset, offset + 4));
    lemma_u32_at_of_bytes(endian, bytes, at + offset, x);
}

/// Where a record stands at `at` in `bytes` and one of its fields holds the
/// bytes of a number, reading at the field's place gives the number.
pub proof fn lemma_u64_field_at(
    endian: Endianness,
    bytes: Seq<u8>,
    at: int,
    record: Seq<u8>,
    offset: int,
    x: u64,
)
    requires
        0 <= at,
        0 <= offset,
        offset + 8 <= record.len(),
        at + record.len() <= bytes.len(),
        bytes.subrange(at, at + record.len()) == record,
        record.subrange(offset, offset + 8) =~= u64_bytes(endian, x),
    ensures
        u64_at(endian, bytes, at + offset) == x,
{
    let part = bytes.subrange(at + offset, at + offset + 8);
    assert forall|k: int| 0 <= k < 8 implies #[trigger] part[k] == record[offset + k] by {
        assert(bytes.subrange(at, at + record.len())[offset + k] == bytes[at + offset + k]);
    }
    assert(part =~= record.subrange(offset, offset + 8));
    lemma_u64_at_of_bytes(endian, bytes, at + offset, x);
}

} // verus!
