use crockford_base32::{decode, encode};
use quickcheck::{Arbitrary, Gen, QuickCheck};

/// One symbol of the alphabet, drawn at random.
#[derive(Clone, Debug)]
struct B32 {
    c: char,
}

impl Arbitrary for B32 {
    fn arbitrary(g: &mut Gen) -> B32 {
        let alphabet: Vec<char> = "0123456789ABCDEFGHJKMNPQRSTVWXYZ".chars().collect();
        B32 { c: *g.choose(&alphabet).unwrap() }
    }
}

fn is_invertible(data: Vec<u8>) -> bool {
    decode(&encode(&data)).unwrap() == data
}

fn ignores_lower_case(data: Vec<B32>) -> bool {
    let data: Vec<char> = data.iter().map(|e| e.c).collect();
    let lower: Vec<char> = data.iter().map(|c| c.to_ascii_lowercase()).collect();
    decode(&data) == decode(&lower)
}

fn has_encoded_length(data: Vec<u8>) -> bool {
    encode(&data).len() == (data.len() * 8 + 4) / 5
}

#[test]
fn invertible() {
    QuickCheck::new().quickcheck(is_invertible as fn(Vec<u8>) -> bool);
}

#[test]
fn lower_case() {
    QuickCheck::new().quickcheck(ignores_lower_case as fn(Vec<B32>) -> bool);
}

#[test]
fn length_law() {
    QuickCheck::new().quickcheck(has_encoded_length as fn(Vec<u8>) -> bool);
}
