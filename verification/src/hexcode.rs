//! Lower-case hexadecimal text, as the `hex` crate writes and reads it.

use vstd::prelude::*;

verus! {

/// Why a piece of text is not the hexadecimal form of a byte string.
#[derive(Clone, Copy, Debug, PartialEq, Eq)]
pub enum DecodeError {
    /// The character `c` at position `index` is no hexadecimal digit.
    InvalidHexCharacter { c: char, index: usize },
    /// The text has an odd number of digits.
    OddLength,
}

/// The error of the `hex` crate. Nothing is read from it.
#[verifier::external_type_specification]
#[verifier::external_body]
pub struct ExFromHexError(hex::FromHexError);

/// The ASCII code of the lower-case digit for `n`, where `0 <= n < 16`.
pub open spec fn hex_digit(n: int) -> u8 {
    if n < 10 {
        (48 + n) as u8
    } else {
        (87 + n) as u8
    }
}

/// The hexadecimal form of `data` as ASCII codes: two digits for each byte,
/// the high half first.
pub open spec fn hex_bytes(data: Seq<u8>) -> Seq<u8> {
    Seq::new(
        2 * data.len(),
        |i: int|
            if i % 2 == 0 {
                hex_digit(data[i / 2] as int / 16)
            } else {
                hex_digit(data[i / 2] as int % 16)
            },
    )
}

/// The text whose characters have the given codes.
pub open spec fn ascii_text(codes: Seq<u8>) -> Seq<char> {
    Seq::new(codes.len(), |i: int| codes[i] as char)
}

/// The codes of the characters of `text`; meant for ASCII text.
pub open spec fn ascii_codes(text: Seq<char>) -> Seq<u8> {
    Seq::new(text.len(), |i: int| text[i] as u8)
}

/// The hexadecimal form of `data` as text.
pub open spec fn hex_chars(data: Seq<u8>) -> Seq<char> {
    ascii_text(hex_bytes(data))
}

/// Whether `b` is the code of a hexadecimal digit of either case.
pub open spec fn is_hex_code(b: u8) -> bool {
    (48 <= b <= 57) || (97 <= b <= 102) || (65 <= b <= 70)
}

/// The value of the hexadecimal digit with code `b`.
pub open spec fn hex_code_value(b: u8) -> int {
    if 48 <= b <= 57 {
        b - 48
    } else if 97 <= b <= 102 {
        b - 87
    } else {
        b - 55
    }
}

/// Whether every code in `codes` is a hexadecimal digit.
pub open spec fn all_hex_codes(codes: Seq<u8>) -> bool {
    forall|i: int| 0 <= i < codes.len() ==> is_hex_code(#[trigger] codes[i])
}

/// The bytes that the digits `codes` spell, two digits to a byte.
pub open spec fn unhex_bytes(codes: Seq<u8>) -> Seq<u8> {
    Seq::new(
        codes.len() / 2,
        |i: int| (16 * hex_code_value(codes[2 * i]) + hex_code_value(codes[2 * i + 1])) as u8,
    )
}

/// Calls `hex::decode`. The text is taken just when its length is even and
/// every code in it is a hexadecimal digit, of either case; the bytes that
/// the digits spell then come back.
#[verifier::external_body]
pub(crate) fn hex_decode(codes: &[u8]) -> (r: Result<Vec<u8>, hex::FromHexError>)
    ensures
        match r {
            Ok(bytes) => codes@.len() % 2 == 0 && all_hex_codes(codes@) && bytes@ == unhex_bytes(
                codes@,
            ),
            Err(_) => !(codes@.len() % 2 == 0 && all_hex_codes(codes@)),
        },
{
    hex::decode(codes)
}

/// Calls `hex::encode`: the lower-case hexadecimal text of `data`.
#[verifier::external_body]
pub(crate) fn hex_encode(data: &[u8]) -> (r: String)
    ensures
        r@ == hex_chars(data@),
{
    hex::encode(data)
}

/// Calls `hex::encode_to_slice`. A buffer of twice the length of `data` is
/// filled with the lower-case digits of `data`; a buffer of any other length
/// is refused and left as it was. The call doubles the length of `data`, so
/// data whose doubled length does not fit is left out.
#[verifier::external_body]
pub(crate) fn hex_encode_to_slice(data: &[u8], output: &mut Vec<u8>) -> (r: Result<
    (),
    hex::FromHexError,
>)
    requires
        2 * data@.len() <= usize::MAX,
    ensures
        match r {
            Ok(_) => old(output)@.len() == 2 * data@.len() && final(output)@ == hex_bytes(data@),
            Err(_) => old(output)@.len() != 2 * data@.len() && final(output)@ == old(output)@,
        },
{
    hex::encode_to_slice(data, output.as_mut_slice())
}

/// The codes of the sixteen lower-case hexadecimal digits, in order.
pub const HEX_CHARS_LOWER: [u8; 16] = [
    48, 49, 50, 51, 52, 53, 54, 55, 56, 57, 97, 98, 99, 100, 101, 102,
];

/// The two digits of `byte`, read from `table`: the one for its high half,
/// then the one for its low half.
pub fn byte2hex(byte: u8, table: &[u8; 16]) -> (r: (u8, u8))
    ensures
        r.0 == table@[byte as int / 16],
        r.1 == table@[byte as int % 16],
{
    let high_index: u8 = (byte & 0xf0) >> 4;
    let low_index: u8 = byte & 0x0f;
    assert(high_index == byte / 16 && low_index == byte % 16) by (bit_vector)
        requires
            high_index == (byte & 0xf0) >> 4,
            low_index == byte & 0x0f,
    ;
    let high = table[high_index as usize];
    let low = table[low_index as usize];
    (high, low)
}

/// The places in an output of length `len` that the digits of each input
/// byte go to: `(0, 1)`, `(2, 3)` and so on, as long as both fit.
pub fn generate_iter(len: usize) -> (r: Vec<(usize, usize)>)
    ensures
        r@.len() == len / 2,
        forall|k: int| 0 <= k < r@.len() ==> #[trigger] r@[k] == (
            (2 * k) as usize,
            (2 * k + 1) as usize,
        ),
{
    let mut pairs: Vec<(usize, usize)> = Vec::new();
    let mut k: usize = 0;
    while k < len / 2
        invariant
            k <= len / 2,
            pairs@.len() == k,
            forall|m: int| 0 <= m < k ==> #[trigger] pairs@[m] == (
                (2 * m) as usize,
                (2 * m + 1) as usize,
            ),
        decreases len / 2 - k,
    {
        pairs.push((2 * k, 2 * k + 1));
        k = k + 1;
    }
    pairs
}

/// The lower-case hexadecimal digits of `pool`, two for each byte.
pub fn encode_pool(pool: &[u8]) -> (r: Vec<u8>)
    requires
        2 * pool@.len() <= usize::MAX,
    ensures
        r@ == hex_bytes(pool@),
{
    let places = generate_iter(pool.len() * 2);
    let mut encoded: Vec<u8> = vec![0u8; pool.len() * 2];
    let mut k: usize = 0;
    while k < pool.len()
        invariant
            k <= pool@.len(),
            2 * pool@.len() <= usize::MAX,
            places@.len() == pool@.len(),
            forall|m: int| 0 <= m < places@.len() ==> #[trigger] places@[m] == (
                (2 * m) as usize,
                (2 * m + 1) as usize,
            ),
            encoded@.len() == 2 * pool@.len(),
            forall|i: int| 0 <= i < 2 * k ==> encoded@[i] == hex_bytes(pool@)[i],
        decreases pool@.len() - k,
    {
        let (high, low) = byte2hex(pool[k], &HEX_CHARS_LOWER);
        let (i, j) = places[k];
        encoded.set(i, high);
        encoded.set(j, low);
        k = k + 1;
    }
    assert(encoded@ =~= hex_bytes(pool@));
    encoded
}

} // verus!
