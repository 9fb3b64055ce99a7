//! The 32-symbol alphabet and its tolerant inverse.

use vstd::prelude::*;

verus! {

/// The encoding table: the symbol at index `v` stands for the 5-bit value `v`.
pub const SYMBOLS: [char; 32] = [
    '0', '1', '2', '3', '4', '5', '6', '7', '8', '9', 'A', 'B', 'C', 'D', 'E', 'F',
    'G', 'H', 'J', 'K', 'M', 'N', 'P', 'Q', 'R', 'S', 'T', 'V', 'W', 'X', 'Y', 'Z',
];

/// The table entry of a character that is no symbol. It lies outside the
/// 5-bit range, so it cannot be mistaken for a value.
pub const NO_VALUE: u8 = 0xFF;

/// The decoding table, indexed by the distance of an upper-case character
/// from `'0'`. It covers `'0'..='Z'`; the aliases `I`, `L` and `O` hold the
/// values of `1`, `1` and `0`, and every other slot outside the alphabet
/// holds `NO_VALUE`.
pub const INVERSE: [u8; 43] = [
    0, 1, 2, 3, 4, 5, 6, 7, 8, 9,
    NO_VALUE, NO_VALUE, NO_VALUE, NO_VALUE, NO_VALUE, NO_VALUE, NO_VALUE,
    10, 11, 12, 13, 14, 15, 16, 17,
    1, 18, 19, 1, 20, 21, 0,
    22, 23, 24, 25, 26, NO_VALUE,
    27, 28, 29, 30, 31,
];

/// The alphabet as a sequence: 32 distinct characters in value order.
pub open spec fn alphabet() -> Seq<char> {
    SYMBOLS@
}

/// The upper-case form of an ASCII letter; every other character is itself.
pub open spec fn fold_case(c: char) -> char {
    if 'a' <= c <= 'z' {
        ((c as u32) - 32) as char
    } else {
        c
    }
}

/// The lower-case form of an ASCII letter; every other character is itself.
pub open spec fn lower_case(c: char) -> char {
    if 'A' <= c <= 'Z' {
        ((c as u32) + 32) as char
    } else {
        c
    }
}

/// The character that `c` is read as: folded to upper case, with the
/// look-alikes `I` and `L` read as `1` and `O` read as `0`.
pub open spec fn canonical(c: char) -> char {
    let u = fold_case(c);
    if u == 'I' || u == 'L' {
        '1'
    } else if u == 'O' {
        '0'
    } else {
        u
    }
}

/// The index of `k` in the alphabet, if it is one of the 32 symbols.
pub open spec fn position(k: char) -> Option<u8> {
    if alphabet().contains(k) {
        Some(alphabet().index_of(k) as u8)
    } else {
        None
    }
}

/// The 5-bit value that `c` decodes to, or `None` if `c` is no valid symbol.
pub open spec fn symbol_value(c: char) -> Option<u8> {
    position(canonical(c))
}

/// The characters that decode: the digits and the ASCII letters other than
/// `U` and `u`.
pub open spec fn is_symbol(c: char) -> bool {
    ||| '0' <= c <= '9'
    ||| ('A' <= c <= 'Z' && c != 'U')
    ||| ('a' <= c <= 'z' && c != 'u')
}

/// No character occurs twice in the alphabet.
pub proof fn lemma_alphabet_distinct()
    ensures
        alphabet().len() == 32,
        forall|i: int, j: int| 0 <= i < j < 32 ==> alphabet()[i] != alphabet()[j],
{
    assert forall|i: int, j: int| 0 <= i < j < 32 implies alphabet()[i] != alphabet()[j] by {
        lemma_alphabet_increasing(i, j);
    }
}

/// The alphabet is in strictly increasing character order.
proof fn lemma_alphabet_increasing(i: int, j: int)
    requires
        0 <= i < j < 32,
    ensures
        alphabet()[i] < alphabet()[j],
    decreases j - i,
{
    if i + 1 < j {
        lemma_alphabet_increasing(i + 1, j);
    }
    assert(alphabet()[i] < alphabet()[i + 1]);
}

/// Each alphabet symbol decodes to its own index: the inverse table inverts
/// the encoding table.
pub proof fn lemma_value_of_symbol(v: int)
    requires
        0 <= v < 32,
    ensures
        canonical(alphabet()[v]) == alphabet()[v],
        position(alphabet()[v]) == Some(v as u8),
        symbol_value(alphabet()[v]) == Some(v as u8),
{
    lemma_alphabet_distinct();
    let k = alphabet()[v];
    assert(alphabet().contains(k));
    let w = alphabet().index_of(k);
    assert(0 <= w < 32 && alphabet()[w] == k);
    assert(w == v);
}

/// The symbol that stands for the 5-bit value `v`.
pub fn symbol_for(v: u8) -> (c: char)
    requires
        v < 32,
    ensures
        c == alphabet()[v as int],
        symbol_value(c) == Some(v),
{
    proof {
        lemma_value_of_symbol(v as int);
    }
    SYMBOLS[v as usize]
}

/// The value that `c` decodes to, read from the inverse table after case
/// folding; `None` for a character that is no symbol.
pub fn value_of(c: char) -> (r: Option<u8>)
    ensures
        r == symbol_value(c),
        r is Some <==> is_symbol(c),
        r is Some ==> r.unwrap() < 32,
{
    let code: u32 = c as u32;
    let upper: u32 = if 'a' <= c && c <= 'z' {
        code - 32
    } else {
        code
    };
    if upper < '0' as u32 || upper > 'Z' as u32 {
        proof {
            lemma_outside_table(c);
        }
        return None;
    }
    let slot: usize = (upper - '0' as u32) as usize;
    let entry: u8 = INVERSE[slot];
    proof {
        lemma_table_entry(c, slot as int);
    }
    if entry == NO_VALUE {
        None
    } else {
        Some(entry)
    }
}

/// The characters that decode are the digits and the ASCII letters other
/// than `U` and `u`; each decodes to a 5-bit value.
pub proof fn lemma_valid_symbols(c: char)
    ensures
        symbol_value(c) is Some <==> is_symbol(c),
        symbol_value(c) is Some ==> symbol_value(c).unwrap() < 32,
{
    let u = fold_case(c);
    if u < '0' || u > 'Z' {
        lemma_outside_table(c);
    } else {
        lemma_table_entry(c, u as int - '0' as int);
    }
}

/// The look-alikes decode as the digits that they resemble, in either case.
pub proof fn lemma_aliases()
    ensures
        symbol_value('I') == symbol_value('1'),
        symbol_value('i') == symbol_value('1'),
        symbol_value('L') == symbol_value('1'),
        symbol_value('l') == symbol_value('1'),
        symbol_value('O') == symbol_value('0'),
        symbol_value('o') == symbol_value('0'),
        symbol_value('1') == Some(1u8),
        symbol_value('0') == Some(0u8),
{
    lemma_value_of_symbol(0);
    lemma_value_of_symbol(1);
}

/// A letter decodes the same in upper and in lower case.
pub proof fn lemma_case_folding(c: char)
    ensures
        symbol_value(fold_case(c)) == symbol_value(c),
        symbol_value(lower_case(c)) == symbol_value(c),
{
}

/// A character that folds to something outside `'0'..='Z'` is no symbol.
proof fn lemma_outside_table(c: char)
    requires
        fold_case(c) < '0' || fold_case(c) > 'Z',
    ensures
        symbol_value(c) is None,
        !is_symbol(c),
{
    let k = canonical(c);
    assert(k == fold_case(c));
    if alphabet().contains(k) {
        let w = alphabet().index_of(k);
        assert(0 <= w < 32 && alphabet()[w] == k);
        assert('0' <= alphabet()[w] <= 'Z');
    }
}

/// The inverse table holds, in the slot of each character that it covers,
/// the value that the character decodes to, and `NO_VALUE` for one that is
/// no symbol.
proof fn lemma_table_entry(c: char, slot: int)
    requires
        0 <= slot < 43,
        fold_case(c) as int == '0' as int + slot,
    ensures
        INVERSE[slot] == NO_VALUE ==> symbol_value(c) is None,
        INVERSE[slot] != NO_VALUE ==> INVERSE[slot] < 32 && symbol_value(c) == Some(INVERSE[slot]),
        INVERSE[slot] != NO_VALUE <==> is_symbol(c),
{
    let k = canonical(c);
    let v = INVERSE[slot];
    if v == NO_VALUE {
        assert(k == fold_case(c));
        if alphabet().contains(k) {
            let w = alphabet().index_of(k);
            assert(0 <= w < 32 && alphabet()[w] == k);
        }
    } else {
        assert(v < 32);
        assert(alphabet()[v as int] == k);
        lemma_value_of_symbol(v as int);
    }
}

} // verus!
