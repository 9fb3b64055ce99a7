//! Encoding: bytes to symbols.

use crate::alphabet::{alphabet, symbol_for};
use crate::bits::{
    bit, byte_chunk, five_bits, lemma_bits_of_byte, lemma_quintet_in_chunk, lemma_quintet_range,
    quintet, unit_at,
};
use crate::decoder::decode_spec;
use crate::laws::lemma_round_trip;
use vstd::prelude::*;

verus! {

/// The number of symbols that `n` bytes encode to: one for every five bits,
/// the last of them filled up with zero bits.
pub open spec fn encoded_len(n: int) -> int {
    (8 * n + 4) / 5
}

/// The encoding of `bytes`: symbol `j` is the alphabet's character for the
/// `j`-th group of five bits of the payload.
pub open spec fn encode_spec(bytes: Seq<u8>) -> Seq<char> {
    Seq::new(encoded_len(bytes.len() as int) as nat, |j: int| alphabet()[quintet(bytes, j)])
}

/// The number of symbols that `n` bytes encode to, or `None` if that number
/// does not fit in `usize`.
pub fn encoded_length(n: usize) -> (r: Option<usize>)
    ensures
        r is Some <==> encoded_len(n as int) <= usize::MAX,
        r is Some ==> r.unwrap() == encoded_len(n as int),
{
    let full: usize = n / 5;
    let tail: usize = n % 5;
    let last: usize = (tail * 8 + 4) / 5;
    if full > (usize::MAX - last) / 8 {
        None
    } else {
        Some(full * 8 + last)
    }
}

/// Copies chunk `c` of `data` into a fixed buffer, with zero bytes where the
/// data has ended.
fn load_chunk(data: &[u8], c: usize) -> (chunk: [u8; 5])
    requires
        5 * c < data@.len(),
    ensures
        chunk@ == byte_chunk(data@, c as int),
{
    let n: usize = data.len();
    let start: usize = 5 * c;
    let rest: usize = n - start;
    let mut chunk: [u8; 5] = [0u8; 5];
    let mut k: usize = 0;
    while k < 5
        invariant
            n == data@.len(),
            start == 5 * c,
            start < n,
            rest == n - start,
            k <= 5,
            forall|t: int| 0 <= t < k ==> chunk@[t] as int == unit_at(data@, start + t),
            forall|t: int| k <= t < 5 ==> chunk@[t] == 0,
        decreases 5 - k,
    {
        if k < rest {
            chunk[k] = data[start + k];
        }
        k += 1;
    }
    assert(chunk@ =~= byte_chunk(data@, c as int));
    chunk
}

/// The eight quintets of a five-byte chunk, each spelled out in the bits of
/// the one or two bytes that it lies in.
proof fn lemma_chunk_quintets(chunk: Seq<u8>)
    requires
        chunk.len() == 5,
    ensures
        quintet(chunk, 0) == five_bits(
            bit(chunk[0] as int, 7),
            bit(chunk[0] as int, 6),
            bit(chunk[0] as int, 5),
            bit(chunk[0] as int, 4),
            bit(chunk[0] as int, 3),
        ),
        quintet(chunk, 1) == five_bits(
            bit(chunk[0] as int, 2),
            bit(chunk[0] as int, 1),
            bit(chunk[0] as int, 0),
            bit(chunk[1] as int, 7),
            bit(chunk[1] as int, 6),
        ),
        quintet(chunk, 2) == five_bits(
            bit(chunk[1] as int, 5),
            bit(chunk[1] as int, 4),
            bit(chunk[1] as int, 3),
            bit(chunk[1] as int, 2),
            bit(chunk[1] as int, 1),
        ),
        quintet(chunk, 3) == five_bits(
            bit(chunk[1] as int, 0),
            bit(chunk[2] as int, 7),
            bit(chunk[2] as int, 6),
            bit(chunk[2] as int, 5),
            bit(chunk[2] as int, 4),
        ),
        quintet(chunk, 4) == five_bits(
            bit(chunk[2] as int, 3),
            bit(chunk[2] as int, 2),
            bit(chunk[2] as int, 1),
            bit(chunk[2] as int, 0),
            bit(chunk[3] as int, 7),
        ),
        quintet(chunk, 5) == five_bits(
            bit(chunk[3] as int, 6),
            bit(chunk[3] as int, 5),
            bit(chunk[3] as int, 4),
            bit(chunk[3] as int, 3),
            bit(chunk[3] as int, 2),
        ),
        quintet(chunk, 6) == five_bits(
            bit(chunk[3] as int, 1),
            bit(chunk[3] as int, 0),
            bit(chunk[4] as int, 7),
            bit(chunk[4] as int, 6),
            bit(chunk[4] as int, 5),
        ),
        quintet(chunk, 7) == five_bits(
            bit(chunk[4] as int, 4),
            bit(chunk[4] as int, 3),
            bit(chunk[4] as int, 2),
            bit(chunk[4] as int, 1),
            bit(chunk[4] as int, 0),
        ),
{
}

/// A byte's upper five bits, by shift and mask.
proof fn lemma_pack_high(b: u8)
    ensures
        ((b & 0xF8) >> 3) as int == five_bits(
            bit(b as int, 7),
            bit(b as int, 6),
            bit(b as int, 5),
            bit(b as int, 4),
            bit(b as int, 3),
        ),
        ((b & 0x7C) >> 2) as int == five_bits(
            bit(b as int, 6),
            bit(b as int, 5),
            bit(b as int, 4),
            bit(b as int, 3),
            bit(b as int, 2),
        ),
        ((b & 0x3E) >> 1) as int == five_bits(
            bit(b as int, 5),
            bit(b as int, 4),
            bit(b as int, 3),
            bit(b as int, 2),
            bit(b as int, 1),
        ),
        (b & 0x1F) as int == five_bits(
            bit(b as int, 4),
            bit(b as int, 3),
            bit(b as int, 2),
            bit(b as int, 1),
            bit(b as int, 0),
        ),
{
    lemma_bits_of_byte(b as int);
    assert((b & 0xF8) >> 3 == 16 * ((b / 128) % 2) + 8 * ((b / 64) % 2) + 4 * ((b / 32) % 2) + 2
        * ((b / 16) % 2) + ((b / 8) % 2)) by (bit_vector);
    assert((b & 0x7C) >> 2 == 16 * ((b / 64) % 2) + 8 * ((b / 32) % 2) + 4 * ((b / 16) % 2) + 2
        * ((b / 8) % 2) + ((b / 4) % 2)) by (bit_vector);
    assert((b & 0x3E) >> 1 == 16 * ((b / 32) % 2) + 8 * ((b / 16) % 2) + 4 * ((b / 8) % 2) + 2 * ((
    b / 4) % 2) + ((b / 2) % 2)) by (bit_vector);
    assert(b & 0x1F == 16 * ((b / 16) % 2) + 8 * ((b / 8) % 2) + 4 * ((b / 4) % 2) + 2 * ((b / 2)
        % 2) + (b % 2)) by (bit_vector);
}

/// The five bits that straddle two bytes `a` and `b`, by shift and mask, for
/// each of the four ways in which a quintet crosses a byte boundary.
proof fn lemma_pack_straddle(a: u8, b: u8)
    ensures
        (((a & 0x07) << 2) | ((b & 0xC0) >> 6)) as int == five_bits(
            bit(a as int, 2),
            bit(a as int, 1),
            bit(a as int, 0),
            bit(b as int, 7),
            bit(b as int, 6),
        ),
        (((a & 0x01) << 4) | ((b & 0xF0) >> 4)) as int == five_bits(
            bit(a as int, 0),
            bit(b as int, 7),
            bit(b as int, 6),
            bit(b as int, 5),
            bit(b as int, 4),
        ),
        (((a & 0x0F) << 1) | (b >> 7)) as int == five_bits(
            bit(a as int, 3),
            bit(a as int, 2),
            bit(a as int, 1),
            bit(a as int, 0),
            bit(b as int, 7),
        ),
        (((a & 0x03) << 3) | ((b & 0xE0) >> 5)) as int == five_bits(
            bit(a as int, 1),
            bit(a as int, 0),
            bit(b as int, 7),
            bit(b as int, 6),
            bit(b as int, 5),
        ),
{
    lemma_bits_of_byte(a as int);
    lemma_bits_of_byte(b as int);
    assert(((a & 0x07) << 2) | ((b & 0xC0) >> 6) == 16 * ((a / 4) % 2) + 8 * ((a / 2) % 2) + 4 * (a
        % 2) + 2 * ((b / 128) % 2) + ((b / 64) % 2)) by (bit_vector);
    assert(((a & 0x01) << 4) | ((b & 0xF0) >> 4) == 16 * (a % 2) + 8 * ((b / 128) % 2) + 4 * ((b
        / 64) % 2) + 2 * ((b / 32) % 2) + ((b / 16) % 2)) by (bit_vector);
    assert(((a & 0x0F) << 1) | (b >> 7) == 16 * ((a / 8) % 2) + 8 * ((a / 4) % 2) + 4 * ((a / 2)
        % 2) + 2 * (a % 2) + ((b / 128) % 2)) by (bit_vector);
    assert(((a & 0x03) << 3) | ((b & 0xE0) >> 5) == 16 * ((a / 2) % 2) + 8 * (a % 2) + 4 * ((b
        / 128) % 2) + 2 * ((b / 64) % 2) + ((b / 32) % 2)) by (bit_vector);
}

/// Regroups the 40 bits of five bytes into eight 5-bit values.
fn pack_quintets(chunk: &[u8; 5]) -> (q: [u8; 8])
    ensures
        forall|s: int| 0 <= s < 8 ==> q@[s] as int == quintet(chunk@, s),
{
    let b0: u8 = chunk[0];
    let b1: u8 = chunk[1];
    let b2: u8 = chunk[2];
    let b3: u8 = chunk[3];
    let b4: u8 = chunk[4];
    proof {
        lemma_chunk_quintets(chunk@);
        lemma_pack_high(b0);
        lemma_pack_high(b1);
        lemma_pack_high(b3);
        lemma_pack_high(b4);
        lemma_pack_straddle(b0, b1);
        lemma_pack_straddle(b1, b2);
        lemma_pack_straddle(b2, b3);
        lemma_pack_straddle(b3, b4);
    }
    [
        (b0 & 0xF8) >> 3,
        ((b0 & 0x07) << 2) | ((b1 & 0xC0) >> 6),
        (b1 & 0x3E) >> 1,
        ((b1 & 0x01) << 4) | ((b2 & 0xF0) >> 4),
        ((b2 & 0x0F) << 1) | (b3 >> 7),
        (b3 & 0x7C) >> 2,
        ((b3 & 0x03) << 3) | ((b4 & 0xE0) >> 5),
        b4 & 0x1F,
    ]
}

/// Encodes `data` in Crockford's Base32.
///
/// Every byte buffer has an encoding; the empty one encodes to no symbols.
/// Symbol `j` of the result stands for the `j`-th group of five payload
/// bits, so chunks come out in input order, and the result decodes back to
/// `data`. The only demand is that the encoded length fits in `usize`.
pub fn encode(data: &[u8]) -> (out: Vec<char>)
    requires
        encoded_len(data@.len() as int) <= usize::MAX,
    ensures
        out@ == encode_spec(data@),
        out@.len() == encoded_len(data@.len() as int),
        decode_spec(out@) == Some(data@),
{
    let n: usize = data.len();
    let full: usize = n / 5;
    let tail: usize = n % 5;
    let total: usize = encoded_length(n).unwrap();
    let chunks: usize = if tail == 0 {
        full
    } else {
        full + 1
    };
    let mut out: Vec<char> = Vec::with_capacity(total);
    let mut c: usize = 0;
    while c < chunks
        invariant
            n == data@.len(),
            full == n / 5,
            tail == n % 5,
            total == encoded_len(n as int),
            chunks == (n + 4) / 5,
            c <= chunks,
            out@.len() == if c <= full {
                8 * c
            } else {
                total as int
            },
            forall|j: int| 0 <= j < out@.len() ==> out@[j] == alphabet()[quintet(data@, j)],
        decreases chunks - c,
    {
        let chunk: [u8; 5] = load_chunk(data, c);
        let q: [u8; 8] = pack_quintets(&chunk);
        // Of an incomplete final chunk, only the symbols that carry payload bits are kept.
        let keep: usize = if c < full {
            8
        } else {
            total - 8 * full
        };
        let mut s: usize = 0;
        while s < keep
            invariant
                c < chunks,
                c <= full,
                s <= keep <= 8,
                chunk@ == byte_chunk(data@, c as int),
                forall|t: int| 0 <= t < 8 ==> q@[t] as int == quintet(chunk@, t),
                out@.len() == 8 * c + s,
                forall|j: int| 0 <= j < out@.len() ==> out@[j] == alphabet()[quintet(data@, j)],
            decreases keep - s,
        {
            proof {
                lemma_quintet_in_chunk(data@, c as int, s as int);
                lemma_quintet_range(chunk@, s as int);
            }
            out.push(symbol_for(q[s]));
            s += 1;
        }
        c += 1;
    }
    proof {
        assert(out@ =~= encode_spec(data@));
        lemma_round_trip(data@);
    }
    out
}

} // verus!
