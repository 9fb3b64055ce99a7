//! The laws that relate encoding and decoding.

use crate::alphabet::{
    fold_case, is_symbol, lemma_case_folding, lemma_valid_symbols, lemma_value_of_symbol,
    lower_case, symbol_value,
};
use crate::bits::{
    bit, data_bit, lemma_bits_of_five, lemma_byte_is_its_bits, lemma_quintet_range, octet,
    quintet, value_bit,
};
use crate::decoder::{all_valid, bytes_of_values, decode_spec, decoded_len, values_of};
use crate::encoder::{encode_spec, encoded_len};
use vstd::prelude::*;

verus! {

/// `symbols` with every ASCII letter in upper case.
pub open spec fn to_upper(symbols: Seq<char>) -> Seq<char> {
    Seq::new(symbols.len(), |i: int| fold_case(symbols[i]))
}

/// `symbols` with every ASCII letter in lower case.
pub open spec fn to_lower(symbols: Seq<char>) -> Seq<char> {
    Seq::new(symbols.len(), |i: int| lower_case(symbols[i]))
}

/// Length: an encoding has one symbol for every five bits of the payload,
/// rounded up, and that many symbols decode to as many bytes as were encoded.
pub proof fn lemma_encoded_length(bytes: Seq<u8>)
    ensures
        encode_spec(bytes).len() == encoded_len(bytes.len() as int),
        5 * (encode_spec(bytes).len() - 1) < 8 * bytes.len() <= 5 * encode_spec(bytes).len(),
        decoded_len(encode_spec(bytes).len() as int) == bytes.len(),
{
}

/// Every encoding is made of alphabet symbols, and symbol `j` decodes to the
/// `j`-th quintet of the payload.
pub proof fn lemma_encoding_is_valid(bytes: Seq<u8>)
    ensures
        encode_spec(bytes).len() == encoded_len(bytes.len() as int),
        all_valid(encode_spec(bytes)),
        forall|j: int|
            0 <= j < encode_spec(bytes).len() ==> (#[trigger] values_of(encode_spec(bytes))[j])
                == quintet(bytes, j),
{
    let e = encode_spec(bytes);
    assert forall|j: int| 0 <= j < e.len() implies (#[trigger] symbol_value(e[j])) == Some(
        quintet(bytes, j) as u8,
    ) by {
        lemma_quintet_range(bytes, j);
        lemma_value_of_symbol(quintet(bytes, j));
    }
    assert forall|j: int| 0 <= j < e.len() implies (#[trigger] values_of(e)[j]) == quintet(
        bytes,
        j,
    ) by {
        lemma_quintet_range(bytes, j);
        assert(symbol_value(e[j]) == Some(quintet(bytes, j) as u8));
    }
}

/// Encoding keeps the bit stream: within the encoded length, bit `k` of the
/// values is bit `k` of the bytes.
proof fn lemma_encoding_keeps_bits(bytes: Seq<u8>, k: int)
    requires
        0 <= k < 5 * encoded_len(bytes.len() as int),
    ensures
        value_bit(values_of(encode_spec(bytes)), k) == data_bit(bytes, k),
{
    lemma_encoding_is_valid(bytes);
    let values = values_of(encode_spec(bytes));
    let j = k / 5;
    assert(0 <= j < values.len());
    assert(values[j] == quintet(bytes, j));
    let d0 = data_bit(bytes, 5 * j);
    let d1 = data_bit(bytes, 5 * j + 1);
    let d2 = data_bit(bytes, 5 * j + 2);
    let d3 = data_bit(bytes, 5 * j + 3);
    let d4 = data_bit(bytes, 5 * j + 4);
    lemma_bits_of_five(d0, d1, d2, d3, d4);
    assert(k == 5 * j + k % 5);
}

/// The eight stream bits of byte `i` are the bits of that byte.
proof fn lemma_bits_in_byte(bytes: Seq<u8>, i: int)
    requires
        0 <= i < bytes.len(),
    ensures
        data_bit(bytes, 8 * i) == bit(bytes[i] as int, 7),
        data_bit(bytes, 8 * i + 1) == bit(bytes[i] as int, 6),
        data_bit(bytes, 8 * i + 2) == bit(bytes[i] as int, 5),
        data_bit(bytes, 8 * i + 3) == bit(bytes[i] as int, 4),
        data_bit(bytes, 8 * i + 4) == bit(bytes[i] as int, 3),
        data_bit(bytes, 8 * i + 5) == bit(bytes[i] as int, 2),
        data_bit(bytes, 8 * i + 6) == bit(bytes[i] as int, 1),
        data_bit(bytes, 8 * i + 7) == bit(bytes[i] as int, 0),
{
}

/// Octet `i` of an encoding's values is byte `i` of the payload.
proof fn lemma_octet_of_encoding(bytes: Seq<u8>, i: int)
    requires
        0 <= i < bytes.len(),
    ensures
        octet(values_of(encode_spec(bytes)), i) == bytes[i] as int,
{
    let values = values_of(encode_spec(bytes));
    assert(value_bit(values, 8 * i) == bit(bytes[i] as int, 7)) by {
        lemma_encoding_keeps_bits(bytes, 8 * i);
        lemma_bits_in_byte(bytes, i);
    }
    assert(value_bit(values, 8 * i + 1) == bit(bytes[i] as int, 6)) by {
        lemma_encoding_keeps_bits(bytes, 8 * i + 1);
        lemma_bits_in_byte(bytes, i);
    }
    assert(value_bit(values, 8 * i + 2) == bit(bytes[i] as int, 5)) by {
        lemma_encoding_keeps_bits(bytes, 8 * i + 2);
        lemma_bits_in_byte(bytes, i);
    }
    assert(value_bit(values, 8 * i + 3) == bit(bytes[i] as int, 4)) by {
        lemma_encoding_keeps_bits(bytes, 8 * i + 3);
        lemma_bits_in_byte(bytes, i);
    }
    assert(value_bit(values, 8 * i + 4) == bit(bytes[i] as int, 3)) by {
        lemma_encoding_keeps_bits(bytes, 8 * i + 4);
        lemma_bits_in_byte(bytes, i);
    }
    assert(value_bit(values, 8 * i + 5) == bit(bytes[i] as int, 2)) by {
        lemma_encoding_keeps_bits(bytes, 8 * i + 5);
        lemma_bits_in_byte(bytes, i);
    }
    assert(value_bit(values, 8 * i + 6) == bit(bytes[i] as int, 1)) by {
        lemma_encoding_keeps_bits(bytes, 8 * i + 6);
        lemma_bits_in_byte(bytes, i);
    }
    assert(value_bit(values, 8 * i + 7) == bit(bytes[i] as int, 0)) by {
        lemma_encoding_keeps_bits(bytes, 8 * i + 7);
        lemma_bits_in_byte(bytes, i);
    }
    lemma_byte_is_its_bits(bytes[i]);
}

/// Round trip: decoding an encoding gives back the bytes that were encoded.
pub proof fn lemma_round_trip(bytes: Seq<u8>)
    ensures
        decode_spec(encode_spec(bytes)) == Some(bytes),
{
    let n = bytes.len() as int;
    let values = values_of(encode_spec(bytes));
    lemma_encoding_is_valid(bytes);
    assert(decoded_len(values.len() as int) == n);
    assert forall|i: int| 0 <= i < n implies octet(values, i) as u8 == bytes[i] by {
        lemma_octet_of_encoding(bytes, i);
    }
    assert(bytes_of_values(values) =~= bytes);
}

/// Case insensitivity: a symbol buffer decodes the same as written, in upper
/// case and in lower case.
pub proof fn lemma_case_insensitive(symbols: Seq<char>)
    ensures
        decode_spec(to_upper(symbols)) == decode_spec(symbols),
        decode_spec(to_lower(symbols)) == decode_spec(symbols),
{
    let up = to_upper(symbols);
    let low = to_lower(symbols);
    assert forall|i: int| 0 <= i < symbols.len() implies symbol_value(up[i]) == symbol_value(
        symbols[i],
    ) && symbol_value(low[i]) == symbol_value(symbols[i]) by {
        lemma_case_folding(symbols[i]);
    }
    assert(values_of(up) =~= values_of(symbols));
    assert(values_of(low) =~= values_of(symbols));
    if all_valid(symbols) {
        assert forall|i: int| 0 <= i < up.len() implies (#[trigger] symbol_value(up[i])) is Some by {
            assert(symbol_value(symbols[i]) is Some);
        }
        assert forall|i: int| 0 <= i < low.len() implies (#[trigger] symbol_value(
            low[i],
        )) is Some by {
            assert(symbol_value(symbols[i]) is Some);
        }
    } else {
        let i = choose|i: int| 0 <= i < symbols.len() && !((#[trigger] symbol_value(
            symbols[i],
        )) is Some);
        assert(symbol_value(up[i]) is None);
        assert(symbol_value(low[i]) is None);
    }
}

/// Alias equivalence: replacing a look-alike by the digit that it resembles
/// does not change what a buffer decodes to.
pub proof fn lemma_alias_equivalence(symbols: Seq<char>, i: int, digit: char)
    requires
        0 <= i < symbols.len(),
        symbol_value(symbols[i]) == symbol_value(digit),
    ensures
        decode_spec(symbols.update(i, digit)) == decode_spec(symbols),
{
    let other = symbols.update(i, digit);
    assert forall|j: int| 0 <= j < symbols.len() implies symbol_value(other[j]) == symbol_value(
        symbols[j],
    ) by {}
    assert(values_of(other) =~= values_of(symbols));
    if all_valid(symbols) {
        assert forall|j: int| 0 <= j < other.len() implies (#[trigger] symbol_value(
            other[j],
        )) is Some by {
            assert(symbol_value(symbols[j]) is Some);
        }
    } else {
        let j = choose|j: int| 0 <= j < symbols.len() && !((#[trigger] symbol_value(
            symbols[j],
        )) is Some);
        assert(symbol_value(other[j]) is None);
    }
}

/// Rejection: a buffer that holds anything but a digit or an ASCII letter
/// other than `U` and `u` does not decode, and every other buffer does.
pub proof fn lemma_rejection(symbols: Seq<char>)
    ensures
        decode_spec(symbols) is None <==> exists|i: int|
            0 <= i < symbols.len() && !is_symbol(#[trigger] symbols[i]),
{
    assert forall|i: int| 0 <= i < symbols.len() implies (symbol_value(symbols[i]) is Some
        <==> is_symbol(symbols[i])) by {
        lemma_valid_symbols(symbols[i]);
    }
    if decode_spec(symbols) is None {
        let i = choose|i: int| 0 <= i < symbols.len() && !((#[trigger] symbol_value(
            symbols[i],
        )) is Some);
        assert(!is_symbol(symbols[i]));
    } else {
        assert(all_valid(symbols));
        assert forall|i: int| 0 <= i < symbols.len() implies is_symbol(#[trigger] symbols[i]) by {
            assert(symbol_value(symbols[i]) is Some);
        }
    }
}

} // verus!
