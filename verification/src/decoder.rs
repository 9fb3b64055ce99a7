//! Decoding: symbols to bytes.

use crate::alphabet::{is_symbol, symbol_value, value_of};
use crate::bits::{
    bit, eight_bits, lemma_bits_of_byte, lemma_octet_in_chunk, lemma_octet_range, octet, unit_at,
    value_chunk,
};
use crate::laws::lemma_rejection;
use vstd::prelude::*;

verus! {

/// The number of bytes that `m` symbols decode to: one for every eight whole
/// bits; what is left over is padding.
pub open spec fn decoded_len(m: int) -> int {
    (5 * m) / 8
}

/// The number of bytes that `m` symbols decode to.
pub fn decoded_length(m: usize) -> (r: usize)
    ensures
        r == decoded_len(m as int),
{
    m / 8 * 5 + (m % 8) * 5 / 8
}

/// Every character of `symbols` is a symbol.
pub open spec fn all_valid(symbols: Seq<char>) -> bool {
    forall|i: int| 0 <= i < symbols.len() ==> (#[trigger] symbol_value(symbols[i])) is Some
}

/// The 5-bit values that the characters of `symbols` decode to, with zero in
/// the place of a character that is no symbol.
pub open spec fn values_of(symbols: Seq<char>) -> Seq<u8> {
    Seq::new(
        symbols.len(),
        |i: int|
            match symbol_value(symbols[i]) {
                Some(v) => v,
                None => 0u8,
            },
    )
}

/// The bytes that a buffer of 5-bit values spells out: byte `i` is the
/// `i`-th group of eight bits of the value stream.
pub open spec fn bytes_of_values(values: Seq<u8>) -> Seq<u8> {
    Seq::new(decoded_len(values.len() as int) as nat, |i: int| octet(values, i) as u8)
}

/// The decoding of `symbols`: nothing if any character is no symbol, else
/// the bytes that their values spell out.
pub open spec fn decode_spec(symbols: Seq<char>) -> Option<Seq<u8>> {
    if all_valid(symbols) {
        Some(bytes_of_values(values_of(symbols)))
    } else {
        None
    }
}

/// Resolves chunk `c` of `data` into a fixed buffer of values, with zero
/// where the data has ended. Fails on the first character that is no symbol.
fn load_values(data: &[char], c: usize) -> (r: Option<[u8; 8]>)
    requires
        8 * c < data@.len(),
    ensures
        r is None <==> exists|i: int|
            8 * c <= i < 8 * c + 8 && i < data@.len() && (#[trigger] symbol_value(data@[i])) is None,
        r is Some ==> r.unwrap()@ == value_chunk(values_of(data@), c as int),
        r is Some ==> forall|k: int| 0 <= k < 8 ==> r.unwrap()@[k] < 32,
{
    let m: usize = data.len();
    let start: usize = 8 * c;
    let rest: usize = m - start;
    let mut buf: [u8; 8] = [0u8; 8];
    let mut k: usize = 0;
    while k < 8
        invariant
            start == 8 * c,
            start < data@.len(),
            rest == data@.len() - start,
            k <= 8,
            forall|t: int|
                0 <= t < k && t < rest ==> (#[trigger] symbol_value(data@[start + t])) == Some(
                    buf@[t],
                ),
            forall|t: int| 0 <= t < 8 && !(t < k && t < rest) ==> buf@[t] == 0,
            forall|t: int| 0 <= t < 8 ==> buf@[t] < 32,
        decreases 8 - k,
    {
        if k < rest {
            match value_of(data[start + k]) {
                Some(v) => {
                    buf[k] = v;
                },
                None => {
                    assert(symbol_value(data@[start + k]) is None);
                    return None;
                },
            }
        }
        k += 1;
    }
    proof {
        let values = values_of(data@);
        assert forall|t: int| 0 <= t < 8 implies buf@[t] as int == unit_at(values, 8 * c + t) by {
            if t < rest {
                assert(symbol_value(data@[start + t]) == Some(buf@[t]));
            }
        }
        assert(buf@ =~= value_chunk(values, c as int));
        assert forall|i: int| 8 * c <= i < 8 * c + 8 && i < data@.len() implies (
        #[trigger] symbol_value(data@[i])) is Some by {
            let t = i - start;
            assert(symbol_value(data@[start + t]) == Some(buf@[t]));
        }
    }
    Some(buf)
}

/// The five octets of an eight-value chunk, each spelled out in the bits of
/// the two or three values that it lies in.
proof fn lemma_chunk_octets(chunk: Seq<u8>)
    requires
        chunk.len() == 8,
    ensures
        octet(chunk, 0) == eight_bits(
            bit(chunk[0] as int, 4),
            bit(chunk[0] as int, 3),
            bit(chunk[0] as int, 2),
            bit(chunk[0] as int, 1),
            bit(chunk[0] as int, 0),
            bit(chunk[1] as int, 4),
            bit(chunk[1] as int, 3),
            bit(chunk[1] as int, 2),
        ),
        octet(chunk, 1) == eight_bits(
            bit(chunk[1] as int, 1),
            bit(chunk[1] as int, 0),
            bit(chunk[2] as int, 4),
            bit(chunk[2] as int, 3),
            bit(chunk[2] as int, 2),
            bit(chunk[2] as int, 1),
            bit(chunk[2] as int, 0),
            bit(chunk[3] as int, 4),
        ),
        octet(chunk, 2) == eight_bits(
            bit(chunk[3] as int, 3),
            bit(chunk[3] as int, 2),
            bit(chunk[3] as int, 1),
            bit(chunk[3] as int, 0),
            bit(chunk[4] as int, 4),
            bit(chunk[4] as int, 3),
            bit(chunk[4] as int, 2),
            bit(chunk[4] as int, 1),
        ),
        octet(chunk, 3) == eight_bits(
            bit(chunk[4] as int, 0),
            bit(chunk[5] as int, 4),
            bit(chunk[5] as int, 3),
            bit(chunk[5] as int, 2),
            bit(chunk[5] as int, 1),
            bit(chunk[5] as int, 0),
            bit(chunk[6] as int, 4),
            bit(chunk[6] as int, 3),
        ),
        octet(chunk, 4) == eight_bits(
            bit(chunk[6] as int, 2),
            bit(chunk[6] as int, 1),
            bit(chunk[6] as int, 0),
            bit(chunk[7] as int, 4),
            bit(chunk[7] as int, 3),
            bit(chunk[7] as int, 2),
            bit(chunk[7] as int, 1),
            bit(chunk[7] as int, 0),
        ),
{
}

/// The octets that lie in two values `a` and `b`, by shift and mask.
proof fn lemma_unpack_two(a: u8, b: u8)
    requires
        a < 32,
        b < 32,
    ensures
        ((a << 3) | (b >> 2)) as int == eight_bits(
            bit(a as int, 4),
            bit(a as int, 3),
            bit(a as int, 2),
            bit(a as int, 1),
            bit(a as int, 0),
            bit(b as int, 4),
            bit(b as int, 3),
            bit(b as int, 2),
        ),
        ((a << 4) | (b >> 1)) as int == eight_bits(
            bit(a as int, 3),
            bit(a as int, 2),
            bit(a as int, 1),
            bit(a as int, 0),
            bit(b as int, 4),
            bit(b as int, 3),
            bit(b as int, 2),
            bit(b as int, 1),
        ),
        ((a << 5) | b) as int == eight_bits(
            bit(a as int, 2),
            bit(a as int, 1),
            bit(a as int, 0),
            bit(b as int, 4),
            bit(b as int, 3),
            bit(b as int, 2),
            bit(b as int, 1),
            bit(b as int, 0),
        ),
{
    lemma_bits_of_byte(a as int);
    lemma_bits_of_byte(b as int);
    assert((a << 3) | (b >> 2) == 128 * ((a / 16) % 2) + 64 * ((a / 8) % 2) + 32 * ((a / 4) % 2)
        + 16 * ((a / 2) % 2) + 8 * (a % 2) + 4 * ((b / 16) % 2) + 2 * ((b / 8) % 2) + ((b / 4)
        % 2)) by (bit_vector)
        requires
            a < 32,
            b < 32,
    ;
    assert((a << 4) | (b >> 1) == 128 * ((a / 8) % 2) + 64 * ((a / 4) % 2) + 32 * ((a / 2) % 2)
        + 16 * (a % 2) + 8 * ((b / 16) % 2) + 4 * ((b / 8) % 2) + 2 * ((b / 4) % 2) + ((b / 2)
        % 2)) by (bit_vector)
        requires
            a < 32,
            b < 32,
    ;
    assert((a << 5) | b == 128 * ((a / 4) % 2) + 64 * ((a / 2) % 2) + 32 * (a % 2) + 16 * ((b
        / 16) % 2) + 8 * ((b / 8) % 2) + 4 * ((b / 4) % 2) + 2 * ((b / 2) % 2) + (b % 2))
        by (bit_vector)
        requires
            a < 32,
            b < 32,
    ;
}

/// The octets that lie in three values `a`, `b` and `c`, by shift and mask.
proof fn lemma_unpack_three(a: u8, b: u8, c: u8)
    requires
        a < 32,
        b < 32,
        c < 32,
    ensures
        ((a << 6) | (b << 1) | (c >> 4)) as int == eight_bits(
            bit(a as int, 1),
            bit(a as int, 0),
            bit(b as int, 4),
            bit(b as int, 3),
            bit(b as int, 2),
            bit(b as int, 1),
            bit(b as int, 0),
            bit(c as int, 4),
        ),
        ((a << 7) | (b << 2) | (c >> 3)) as int == eight_bits(
            bit(a as int, 0),
            bit(b as int, 4),
            bit(b as int, 3),
            bit(b as int, 2),
            bit(b as int, 1),
            bit(b as int, 0),
            bit(c as int, 4),
            bit(c as int, 3),
        ),
{
    lemma_bits_of_byte(a as int);
    lemma_bits_of_byte(b as int);
    lemma_bits_of_byte(c as int);
    assert((a << 6) | (b << 1) | (c >> 4) == 128 * ((a / 2) % 2) + 64 * (a % 2) + 32 * ((b / 16)
        % 2) + 16 * ((b / 8) % 2) + 8 * ((b / 4) % 2) + 4 * ((b / 2) % 2) + 2 * (b % 2) + ((c
        / 16) % 2)) by (bit_vector)
        requires
            a < 32,
            b < 32,
            c < 32,
    ;
    assert((a << 7) | (b << 2) | (c >> 3) == 128 * (a % 2) + 64 * ((b / 16) % 2) + 32 * ((b / 8)
        % 2) + 16 * ((b / 4) % 2) + 8 * ((b / 2) % 2) + 4 * (b % 2) + 2 * ((c / 16) % 2) + ((c
        / 8) % 2)) by (bit_vector)
        requires
            a < 32,
            b < 32,
            c < 32,
    ;
}

/// Regroups the 40 bits of eight 5-bit values into five bytes.
fn unpack_octets(values: &[u8; 8]) -> (o: [u8; 5])
    requires
        forall|k: int| 0 <= k < 8 ==> values@[k] < 32,
    ensures
        forall|t: int| 0 <= t < 5 ==> o@[t] as int == octet(values@, t),
{
    let v0: u8 = values[0];
    let v1: u8 = values[1];
    let v2: u8 = values[2];
    let v3: u8 = values[3];
    let v4: u8 = values[4];
    let v5: u8 = values[5];
    let v6: u8 = values[6];
    let v7: u8 = values[7];
    proof {
        lemma_chunk_octets(values@);
        lemma_unpack_two(v0, v1);
        lemma_unpack_three(v1, v2, v3);
        lemma_unpack_two(v3, v4);
        lemma_unpack_three(v4, v5, v6);
        lemma_unpack_two(v6, v7);
    }
    [
        (v0 << 3) | (v1 >> 2),
        (v1 << 6) | (v2 << 1) | (v3 >> 4),
        (v3 << 4) | (v4 >> 1),
        (v4 << 7) | (v5 << 2) | (v6 >> 3),
        (v6 << 5) | v7,
    ]
}

/// Decodes `data` from Crockford's Base32.
///
/// Letters are read in either case, `I` and `L` as `1`, `O` as `0`. The
/// result is `None` exactly when some character of `data` is no symbol;
/// nothing is skipped and no partial result is given.
pub fn decode(data: &[char]) -> (out: Option<Vec<u8>>)
    ensures
        out is None <==> exists|i: int|
            0 <= i < data@.len() && (#[trigger] symbol_value(data@[i])) is None,
        out is None <==> exists|i: int| 0 <= i < data@.len() && !is_symbol(#[trigger] data@[i]),
        out is Some ==> decode_spec(data@) == Some(out.unwrap()@),
        out is None ==> decode_spec(data@) is None,
        out is Some ==> out.unwrap()@.len() == decoded_len(data@.len() as int),
{
    let m: usize = data.len();
    let chunks: usize = if m % 8 == 0 {
        m / 8
    } else {
        m / 8 + 1
    };
    let mut out: Vec<u8> = Vec::with_capacity(chunks * 5);
    let mut c: usize = 0;
    while c < chunks
        invariant
            m == data@.len(),
            chunks == (m + 7) / 8,
            c <= chunks,
            forall|i: int| 0 <= i < 8 * c && i < m ==> (#[trigger] symbol_value(data@[i])) is Some,
            out@.len() == 5 * c,
            forall|j: int| 0 <= j < 5 * c ==> out@[j] as int == octet(values_of(data@), j),
        decreases chunks - c,
    {
        let values: [u8; 8] = match load_values(data, c) {
            Some(values) => values,
            None => {
                proof {
                    lemma_rejection(data@);
                }
                return None;
            },
        };
        let o: [u8; 5] = unpack_octets(&values);
        let mut t: usize = 0;
        while t < 5
            invariant
                c < chunks,
                t <= 5,
                values@ == value_chunk(values_of(data@), c as int),
                forall|k: int| 0 <= k < 5 ==> o@[k] as int == octet(values@, k),
                out@.len() == 5 * c + t,
                forall|j: int| 0 <= j < 5 * c + t ==> out@[j] as int == octet(values_of(data@), j),
            decreases 5 - t,
        {
            proof {
                lemma_octet_in_chunk(values_of(data@), c as int, t as int);
            }
            out.push(o[t]);
            t += 1;
        }
        c += 1;
    }
    out.truncate(decoded_length(m));
    proof {
        assert(all_valid(data@));
        lemma_rejection(data@);
        assert forall|j: int| 0 <= j < out@.len() implies out@[j] == octet(
            values_of(data@),
            j,
        ) as u8 by {
            lemma_octet_range(values_of(data@), j);
        }
        assert(out@ =~= bytes_of_values(values_of(data@)));
    }
    Some(out)
}

} // verus!
