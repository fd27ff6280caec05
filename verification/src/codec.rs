//! Readable hex: a letter for each decimal digit, so that a hash prefix can be
//! read aloud. The letters `a` to `f` stand for themselves.

use crate::hexcode::{
    all_hex_codes, ascii_codes, hex_decode, is_hex_code, unhex_bytes, DecodeError,
};
use vstd::prelude::*;
use vstd::string::StrSliceExecFns;
use vstd::utf8::{encode_utf8, is_ascii_chars, is_ascii_chars_encode_utf8};

verus! {

/// The letter that stands for a decimal digit; any other character stands for
/// itself.
pub open spec fn readable_char(c: char) -> char {
    if c == '0' {
        'o'
    } else if c == '1' {
        'l'
    } else if c == '2' {
        'z'
    } else if c == '3' {
        'm'
    } else if c == '4' {
        'y'
    } else if c == '5' {
        's'
    } else if c == '6' {
        'h'
    } else if c == '7' {
        't'
    } else if c == '8' {
        'x'
    } else if c == '9' {
        'g'
    } else {
        c
    }
}

/// The decimal digit that a letter stands for; any other character stands for
/// itself.
pub open spec fn plain_char(c: char) -> char {
    if c == 'o' {
        '0'
    } else if c == 'l' {
        '1'
    } else if c == 'z' {
        '2'
    } else if c == 'm' {
        '3'
    } else if c == 'y' {
        '4'
    } else if c == 's' {
        '5'
    } else if c == 'h' {
        '6'
    } else if c == 't' {
        '7'
    } else if c == 'x' {
        '8'
    } else if c == 'g' {
        '9'
    } else {
        c
    }
}

/// Whether `c` is one of the ten letters that stand for a digit.
pub open spec fn is_digit_letter(c: char) -> bool {
    c == 'o' || c == 'l' || c == 'z' || c == 'm' || c == 'y' || c == 's' || c == 'h' || c == 't'
        || c == 'x' || c == 'g'
}

/// Whether `c` is a lower-case hexadecimal digit.
pub open spec fn is_hex_char(c: char) -> bool {
    ('0' <= c && c <= '9') || ('a' <= c && c <= 'f')
}

/// Whether `s` is written in lower-case hexadecimal digits alone.
pub open spec fn is_hex_text(s: Seq<char>) -> bool {
    forall|i: int| 0 <= i < s.len() ==> is_hex_char(#[trigger] s[i])
}

/// `s` with a letter in place of each decimal digit.
pub open spec fn to_readable(s: Seq<char>) -> Seq<char> {
    Seq::new(s.len(), |i: int| readable_char(s[i]))
}

/// `s` with a decimal digit in place of each letter that stands for one.
pub open spec fn from_readable(s: Seq<char>) -> Seq<char> {
    Seq::new(s.len(), |i: int| plain_char(s[i]))
}

/// The place of the first character of `s` that is no lower-case hexadecimal
/// digit.
pub open spec fn first_bad_char(s: Seq<char>) -> int {
    choose|i: int| 0 <= i < s.len() && !is_hex_char(s[i]) && is_hex_text(s.take(i))
}

/// What decoding the readable text `s` gives: its digits are put back, and
/// the result is read as hexadecimal, two digits to a byte. An odd length is
/// refused first, then the first character that is no digit.
pub open spec fn decoded(s: Seq<char>) -> Result<Seq<u8>, DecodeError> {
    let plain = from_readable(s);
    if plain.len() % 2 == 1 {
        Err(DecodeError::OddLength)
    } else if !is_hex_text(plain) {
        Err(
            DecodeError::InvalidHexCharacter {
                c: plain[first_bad_char(plain)],
                index: first_bad_char(plain) as usize,
            },
        )
    } else {
        Ok(unhex_bytes(ascii_codes(plain)))
    }
}

/// Putting the digits back undoes making hexadecimal text readable.
pub proof fn lemma_readable_round_trip(s: Seq<char>)
    requires
        is_hex_text(s),
    ensures
        from_readable(to_readable(s)) == s,
{
    assert forall|i: int| 0 <= i < s.len() implies plain_char(readable_char(s[i])) == s[i] by {
        assert(is_hex_char(s[i]));
    }
    assert(from_readable(to_readable(s)) =~= s);
}

/// Putting the digits back undoes making a text readable, as long as the
/// text holds none of the ten letters that stand for a digit.
pub proof fn lemma_readable_round_trip_without_letters(s: Seq<char>)
    requires
        forall|i: int| 0 <= i < s.len() ==> !is_digit_letter(#[trigger] s[i]),
    ensures
        from_readable(to_readable(s)) == s,
{
    assert forall|i: int| 0 <= i < s.len() implies plain_char(readable_char(s[i])) == s[i] by {
        assert(!is_digit_letter(s[i]));
    }
    assert(from_readable(to_readable(s)) =~= s);
}

/// Making a text readable undoes putting the digits back, as long as the
/// text holds no decimal digit.
pub proof fn lemma_plain_round_trip_without_digits(s: Seq<char>)
    requires
        forall|i: int| 0 <= i < s.len() ==> !('0' <= #[trigger] s[i] && s[i] <= '9'),
    ensures
        to_readable(from_readable(s)) == s,
{
    assert forall|i: int| 0 <= i < s.len() implies readable_char(plain_char(s[i])) == s[i] by {
        assert(!('0' <= s[i] && s[i] <= '9'));
    }
    assert(to_readable(from_readable(s)) =~= s);
}

/// Lower-case hexadecimal text is ASCII: its bytes are the codes of its
/// characters, each the code of a digit.
pub proof fn lemma_hex_text_codes(s: Seq<char>)
    requires
        is_hex_text(s),
    ensures
        is_ascii_chars(s),
        encode_utf8(s) == ascii_codes(s),
        all_hex_codes(ascii_codes(s)),
{
    assert forall|i: int| 0 <= i < s.len() implies '\0' <= #[trigger] s[i] <= '\u{7f}' by {
        assert(is_hex_char(s[i]));
    }
    is_ascii_chars_encode_utf8(s);
    assert(encode_utf8(s) =~= ascii_codes(s));
    assert forall|i: int| 0 <= i < s.len() implies is_hex_code(#[trigger] ascii_codes(s)[i]) by {
        assert(is_hex_char(s[i]));
    }
}

/// Calls `String::push`: `c` is added at the end of `s`.
#[verifier::external_body]
pub(crate) fn push_char(s: &mut String, c: char)
    ensures
        final(s)@ == old(s)@.push(c),
{
    s.push(c)
}

/// The letter for a digit, or the character itself.
pub fn to_readable_char(c: char) -> (r: char)
    ensures
        r == readable_char(c),
{
    match c {
        '0' => 'o',
        '1' => 'l',
        '2' => 'z',
        '3' => 'm',
        '4' => 'y',
        '5' => 's',
        '6' => 'h',
        '7' => 't',
        '8' => 'x',
        '9' => 'g',
        _ => c,
    }
}

/// The digit for a letter, or the character itself.
pub fn from_readable_char(c: char) -> (r: char)
    ensures
        r == plain_char(c),
{
    match c {
        'o' => '0',
        'l' => '1',
        'z' => '2',
        'm' => '3',
        'y' => '4',
        's' => '5',
        'h' => '6',
        't' => '7',
        'x' => '8',
        'g' => '9',
        _ => c,
    }
}

/// Writes each decimal digit of `word` as its letter.
pub fn to_readable_hex(word: &str) -> (r: String)
    ensures
        r@ == to_readable(word@),
{
    let mut out = String::new();
    for c in it: word.chars()
        invariant
            it.seq() == word@,
            out@ == to_readable(word@.take(it.index() as int)),
    {
        push_char(&mut out, to_readable_char(c));
    }
    out
}

/// Writes each letter of `word` that stands for a digit as that digit.
pub fn from_readable_hex(word: &str) -> (r: String)
    ensures
        r@ == from_readable(word@),
{
    let mut out = String::new();
    for c in it: word.chars()
        invariant
            it.seq() == word@,
            out@ == from_readable(word@.take(it.index() as int)),
    {
        push_char(&mut out, from_readable_char(c));
    }
    out
}

/// Whether `c` is a lower-case hexadecimal digit.
pub fn is_hex_digit(c: char) -> (r: bool)
    ensures
        r == is_hex_char(c),
{
    (c >= '0' && c <= '9') || (c >= 'a' && c <= 'f')
}

/// Decodes a readable label into the bytes it spells.
pub fn decode_hex(label: &str) -> (r: Result<Vec<u8>, DecodeError>)
    ensures
        match r {
            Ok(bytes) => decoded(label@) == Ok::<Seq<u8>, DecodeError>(bytes@),
            Err(e) => decoded(label@) == Err::<Seq<u8>, DecodeError>(e),
        },
{
    let plain = from_readable_hex(label);
    let length: usize = plain.as_str().unicode_len();
    let mut count: usize = 0;
    let mut bad: Option<(char, usize)> = None;
    for c in it: plain.as_str().chars()
        invariant
            it.seq() == plain@,
            length == plain@.len(),
            count == it.index(),
            match bad {
                None => is_hex_text(plain@.take(count as int)),
                Some((b, at)) => at < count && b == plain@[at as int] && !is_hex_char(b)
                    && is_hex_text(plain@.take(at as int)),
            },
    {
        if bad.is_none() && !is_hex_digit(c) {
            bad = Some((c, count));
        }
        count = count + 1;
    }
    assert(plain@.take(count as int) =~= plain@);
    if count % 2 == 1 {
        return Err(DecodeError::OddLength);
    }
    match bad {
        Some((c, index)) => Err(DecodeError::InvalidHexCharacter { c, index }),
        None => {
            let codes = plain.as_str().as_bytes();
            proof {
                lemma_hex_text_codes(plain@);
            }
            // Lower-case digits in even number are always taken.
            match hex_decode(codes) {
                Ok(bytes) => Ok(bytes),
                Err(_) => Err(DecodeError::OddLength),
            }
        },
    }
}

} // verus!
