//! The payload as a stream of bits, most significant bit first.
//!
//! A byte buffer and a buffer of 5-bit values are two groupings of one bit
//! stream: bit `k` of the stream is bit `7 - k % 8` of byte `k / 8` and bit
//! `4 - k % 5` of value `k / 5`. Past the end of a buffer the stream goes on
//! with zero bits, which is the padding of an incomplete final chunk.

use vstd::arithmetic::power2::{lemma2_to64, pow2};
use vstd::prelude::*;

verus! {

/// Bit `p` of `x`, where bit 0 is the least significant: 0 or 1.
pub open spec fn bit(x: int, p: int) -> int {
    (x / (pow2(p as nat) as int)) % 2
}

/// The unit at index `q` of a buffer, and zero outside it.
pub open spec fn unit_at(units: Seq<u8>, q: int) -> int {
    if 0 <= q < units.len() {
        units[q] as int
    } else {
        0
    }
}

/// Bit `k` of the stream that the bytes of `bytes` spell out.
pub open spec fn data_bit(bytes: Seq<u8>, k: int) -> int {
    bit(unit_at(bytes, k / 8), 7 - k % 8)
}

/// Bit `k` of the stream that the 5-bit values of `values` spell out.
pub open spec fn value_bit(values: Seq<u8>, k: int) -> int {
    bit(unit_at(values, k / 5), 4 - k % 5)
}

/// The number that five bits spell out, first bit most significant.
pub open spec fn five_bits(d0: int, d1: int, d2: int, d3: int, d4: int) -> int {
    16 * d0 + 8 * d1 + 4 * d2 + 2 * d3 + d4
}

/// The `j`-th group of five bits of the byte stream, as a number below 32.
pub open spec fn quintet(bytes: Seq<u8>, j: int) -> int {
    five_bits(
        data_bit(bytes, 5 * j),
        data_bit(bytes, 5 * j + 1),
        data_bit(bytes, 5 * j + 2),
        data_bit(bytes, 5 * j + 3),
        data_bit(bytes, 5 * j + 4),
    )
}

/// The number that eight bits spell out, first bit most significant.
pub open spec fn eight_bits(
    d0: int,
    d1: int,
    d2: int,
    d3: int,
    d4: int,
    d5: int,
    d6: int,
    d7: int,
) -> int {
    128 * d0 + 64 * d1 + 32 * d2 + 16 * d3 + 8 * d4 + 4 * d5 + 2 * d6 + d7
}

/// The `i`-th group of eight bits of the value stream, as a number below 256.
pub open spec fn octet(values: Seq<u8>, i: int) -> int {
    eight_bits(
        value_bit(values, 8 * i),
        value_bit(values, 8 * i + 1),
        value_bit(values, 8 * i + 2),
        value_bit(values, 8 * i + 3),
        value_bit(values, 8 * i + 4),
        value_bit(values, 8 * i + 5),
        value_bit(values, 8 * i + 6),
        value_bit(values, 8 * i + 7),
    )
}

/// The five bytes of chunk `c` of `bytes`, zero where the buffer has ended.
pub open spec fn byte_chunk(bytes: Seq<u8>, c: int) -> Seq<u8> {
    Seq::new(5, |k: int| unit_at(bytes, 5 * c + k) as u8)
}

/// The eight values of chunk `c` of `values`, zero where the buffer has ended.
pub open spec fn value_chunk(values: Seq<u8>, c: int) -> Seq<u8> {
    Seq::new(8, |k: int| unit_at(values, 8 * c + k) as u8)
}

/// The bits of a byte, at each of its eight positions, by plain division.
pub proof fn lemma_bits_of_byte(x: int)
    ensures
        bit(x, 0) == x % 2,
        bit(x, 1) == (x / 2) % 2,
        bit(x, 2) == (x / 4) % 2,
        bit(x, 3) == (x / 8) % 2,
        bit(x, 4) == (x / 16) % 2,
        bit(x, 5) == (x / 32) % 2,
        bit(x, 6) == (x / 64) % 2,
        bit(x, 7) == (x / 128) % 2,
{
    lemma2_to64();
    assert(x / 1 == x);
}

/// Five bits can be read back from the number that they spell out.
pub proof fn lemma_bits_of_five(d0: int, d1: int, d2: int, d3: int, d4: int)
    requires
        0 <= d0 <= 1,
        0 <= d1 <= 1,
        0 <= d2 <= 1,
        0 <= d3 <= 1,
        0 <= d4 <= 1,
    ensures
        bit(five_bits(d0, d1, d2, d3, d4), 4) == d0,
        bit(five_bits(d0, d1, d2, d3, d4), 3) == d1,
        bit(five_bits(d0, d1, d2, d3, d4), 2) == d2,
        bit(five_bits(d0, d1, d2, d3, d4), 1) == d3,
        bit(five_bits(d0, d1, d2, d3, d4), 0) == d4,
{
    lemma_bits_of_byte(five_bits(d0, d1, d2, d3, d4));
}

/// A byte is the number that its eight bits spell out.
pub proof fn lemma_byte_is_its_bits(x: u8)
    ensures
        eight_bits(
            bit(x as int, 7),
            bit(x as int, 6),
            bit(x as int, 5),
            bit(x as int, 4),
            bit(x as int, 3),
            bit(x as int, 2),
            bit(x as int, 1),
            bit(x as int, 0),
        ) == x as int,
{
    lemma_bits_of_byte(x as int);
    assert(128 * ((x / 128) % 2) + 64 * ((x / 64) % 2) + 32 * ((x / 32) % 2) + 16 * ((x / 16) % 2)
        + 8 * ((x / 8) % 2) + 4 * ((x / 4) % 2) + 2 * ((x / 2) % 2) + (x % 2) == x)
        by (bit_vector);
}

/// A quintet is a 5-bit value.
pub proof fn lemma_quintet_range(bytes: Seq<u8>, j: int)
    ensures
        0 <= quintet(bytes, j) < 32,
{
}

/// An octet is a byte.
pub proof fn lemma_octet_range(values: Seq<u8>, i: int)
    ensures
        0 <= octet(values, i) < 256,
{
}

/// Chunking is local: quintet `s` of chunk `c` is quintet `8 * c + s` of the
/// whole buffer.
pub proof fn lemma_quintet_in_chunk(bytes: Seq<u8>, c: int, s: int)
    requires
        0 <= c,
        0 <= s < 8,
    ensures
        quintet(byte_chunk(bytes, c), s) == quintet(bytes, 8 * c + s),
{
    let chunk = byte_chunk(bytes, c);
    assert forall|t: int| 0 <= t < 40 implies #[trigger] data_bit(chunk, t) == data_bit(
        bytes,
        40 * c + t,
    ) by {
        assert((40 * c + t) / 8 == 5 * c + t / 8);
        assert((40 * c + t) % 8 == t % 8);
        assert(unit_at(chunk, t / 8) == unit_at(bytes, 5 * c + t / 8));
    }
    assert(data_bit(chunk, 5 * s) == data_bit(bytes, 40 * c + 5 * s));
    assert(data_bit(chunk, 5 * s + 1) == data_bit(bytes, 40 * c + (5 * s + 1)));
    assert(data_bit(chunk, 5 * s + 2) == data_bit(bytes, 40 * c + (5 * s + 2)));
    assert(data_bit(chunk, 5 * s + 3) == data_bit(bytes, 40 * c + (5 * s + 3)));
    assert(data_bit(chunk, 5 * s + 4) == data_bit(bytes, 40 * c + (5 * s + 4)));
}

/// Chunking is local: octet `t` of chunk `c` is octet `5 * c + t` of the
/// whole buffer.
pub proof fn lemma_octet_in_chunk(values: Seq<u8>, c: int, t: int)
    requires
        0 <= c,
        0 <= t < 5,
    ensures
        octet(value_chunk(values, c), t) == octet(values, 5 * c + t),
{
    let chunk = value_chunk(values, c);
    assert forall|k: int| 0 <= k < 40 implies #[trigger] value_bit(chunk, k) == value_bit(
        values,
        40 * c + k,
    ) by {
        assert((40 * c + k) / 5 == 8 * c + k / 5);
        assert((40 * c + k) % 5 == k % 5);
        assert(unit_at(chunk, k / 5) == unit_at(values, 8 * c + k / 5));
    }
    assert(value_bit(chunk, 8 * t) == value_bit(values, 40 * c + 8 * t));
    assert(value_bit(chunk, 8 * t + 1) == value_bit(values, 40 * c + (8 * t + 1)));
    assert(value_bit(chunk, 8 * t + 2) == value_bit(values, 40 * c + (8 * t + 2)));
    assert(value_bit(chunk, 8 * t + 3) == value_bit(values, 40 * c + (8 * t + 3)));
    assert(value_bit(chunk, 8 * t + 4) == value_bit(values, 40 * c + (8 * t + 4)));
    assert(value_bit(chunk, 8 * t + 5) == value_bit(values, 40 * c + (8 * t + 5)));
    assert(value_bit(chunk, 8 * t + 6) == value_bit(values, 40 * c + (8 * t + 6)));
    assert(value_bit(chunk, 8 * t + 7) == value_bit(values, 40 * c + (8 * t + 7)));
}

} // verus!
