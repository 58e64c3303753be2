//! Lower-case hexadecimal text for byte strings: two digits per byte, the
//! high half first.

use vstd::prelude::*;
use vstd::string::is_ascii_spec_bytes;

verus! {

/// The digit that stands for `value`, a number below sixteen.
pub open spec fn hex_digit(value: int) -> char {
    if value < 10 {
        (value + 48) as char
    } else {
        (value + 87) as char
    }
}

/// The number that the digit `c` stands for, if `c` is a digit: `0` to `9`,
/// or `a` to `f` in lower case.
pub open spec fn hex_value(c: char) -> Option<int> {
    if '0' <= c <= '9' {
        Some(c as int - 48)
    } else if 'a' <= c <= 'f' {
        Some(c as int - 87)
    } else {
        None
    }
}

/// The text for `bytes`.
pub open spec fn hex_encode(bytes: Seq<u8>) -> Seq<char> {
    Seq::new(
        2 * bytes.len(),
        |i: int|
            if i % 2 == 0 {
                hex_digit(bytes[i / 2] as int / 16)
            } else {
                hex_digit(bytes[i / 2] as int % 16)
            },
    )
}

/// Whether `text` is the text of some byte string: digits only, and an even
/// number of them.
pub open spec fn is_hex(text: Seq<char>) -> bool {
    &&& text.len() % 2 == 0
    &&& forall|i: int| 0 <= i < text.len() ==> hex_value(#[trigger] text[i]) is Some
}

/// The byte string that `text` stands for, where `text` is hexadecimal.
pub open spec fn hex_decode(text: Seq<char>) -> Seq<u8> {
    Seq::new(
        text.len() / 2,
        |i: int| (hex_value(text[2 * i]).unwrap() * 16 + hex_value(text[2 * i + 1]).unwrap()) as u8,
    )
}

/// Decoding undoes encoding.
pub proof fn lemma_hex_round_trip(bytes: Seq<u8>)
    ensures
        is_hex(hex_encode(bytes)),
        hex_decode(hex_encode(bytes)) == bytes,
{
    let text = hex_encode(bytes);
    assert forall|i: int| 0 <= i < text.len() implies hex_value(#[trigger] text[i]) is Some by {
        let b = bytes[i / 2] as int;
        assert(0 <= b / 16 < 16 && 0 <= b % 16 < 16);
    }
    assert forall|i: int| 0 <= i < bytes.len() implies hex_decode(text)[i] == bytes[i] by {
        let b = bytes[i] as int;
        assert(0 <= b / 16 < 16 && 0 <= b % 16 < 16);
        assert(text[2 * i] == hex_digit(b / 16));
        assert(text[2 * i + 1] == hex_digit(b % 16));
        assert(hex_value(hex_digit(b / 16)) == Some(b / 16));
        assert(hex_value(hex_digit(b % 16)) == Some(b % 16));
    }
    assert(hex_decode(text) =~= bytes);
}

/// Encoding undoes decoding: a hexadecimal text is the one text of its bytes.
pub proof fn lemma_hex_canonical(text: Seq<char>)
    requires
        is_hex(text),
    ensures
        hex_encode(hex_decode(text)) == text,
{
    let bytes = hex_decode(text);
    assert forall|i: int| 0 <= i < text.len() implies hex_encode(bytes)[i] == text[i] by {
        let k = i / 2;
        let hi = hex_value(text[2 * k]).unwrap();
        let lo = hex_value(text[2 * k + 1]).unwrap();
        assert(hex_value(text[2 * k]) is Some);
        assert(hex_value(text[2 * k + 1]) is Some);
        assert(0 <= hi < 16 && 0 <= lo < 16);
        assert(bytes[k] as int == hi * 16 + lo);
        assert((hi * 16 + lo) / 16 == hi && (hi * 16 + lo) % 16 == lo);
        assert(hex_digit(hi) == text[2 * k]);
        assert(hex_digit(lo) == text[2 * k + 1]);
    }
    assert(hex_encode(bytes) =~= text);
}

/// Calls `String::push` of the standard library, which appends one character
/// to the end of the string. The contract claims exactly that.
#[verifier::external_body]
fn push_char(text: &mut String, c: char)
    ensures
        final(text)@ == old(text)@.push(c),
{
    text.push(c);
}

/// The digit for `value`.
fn digit_of(value: u8) -> (c: char)
    requires
        value < 16,
    ensures
        c == hex_digit(value as int),
{
    if value < 10 {
        (value + 48) as char
    } else {
        (value + 87) as char
    }
}

/// The value of the digit whose character code is `code`, if it is a digit.
fn value_of(code: u8) -> (value: Option<u8>)
    ensures
        match value {
            Some(v) => hex_value(code as char) == Some(v as int),
            None => hex_value(code as char) is None,
        },
{
    if 48 <= code && code <= 57 {
        Some(code - 48)
    } else if 97 <= code && code <= 102 {
        Some(code - 87)
    } else {
        None
    }
}

/// Writes `bytes` as hexadecimal text.
pub fn to_hex(bytes: &[u8]) -> (text: String)
    ensures
        text@ == hex_encode(bytes@),
{
    let mut text = String::new();
    let mut i: usize = 0;
    while i < bytes.len()
        invariant
            i <= bytes.len(),
            text@ == hex_encode(bytes@.subrange(0, i as int)),
        decreases bytes.len() - i,
    {
        let byte = bytes[i];
        let ghost before = text@;
        push_char(&mut text, digit_of(byte / 16));
        push_char(&mut text, digit_of(byte % 16));
        assert(text@ =~= hex_encode(bytes@.subrange(0, i + 1))) by {
            let grown = hex_encode(bytes@.subrange(0, i + 1));
            assert(grown.len() == before.len() + 2);
            assert forall|k: int| 0 <= k < before.len() implies grown[k] == before[k] by {
                assert(bytes@.subrange(0, i + 1)[k / 2] == bytes@.subrange(0, i as int)[k / 2]);
            }
        }
        i += 1;
    }
    assert(bytes@.subrange(0, bytes.len() as int) == bytes@);
    text
}

/// Reads hexadecimal text back into bytes; text that is no hexadecimal text
/// gives `None`.
pub fn from_hex(text: &str) -> (bytes: Option<Vec<u8>>)
    ensures
        match bytes {
            Some(b) => is_hex(text@) && b@ == hex_decode(text@),
            None => !is_hex(text@),
        },
{
    if !text.is_ascii() {
        proof {
            let i = choose|i: int|
                0 <= i < text@.len() && !('\0' <= #[trigger] text@[i] <= '\u{7f}');
            assert(hex_value(text@[i]) is None);
        }
        return None;
    }
    let codes = text.as_bytes();
    proof {
        is_ascii_spec_bytes(text);
    }
    let n = codes.len();
    if n % 2 != 0 {
        return None;
    }
    let mut bytes: Vec<u8> = Vec::new();
    let mut i: usize = 0;
    while i < n / 2
        invariant
            n == codes.len(),
            n == text@.len(),
            n % 2 == 0,
            i <= n / 2,
            forall|k: int| 0 <= k < n ==> codes@[k] == text@[k] as u8,
            forall|k: int| 0 <= k < n ==> '\0' <= #[trigger] text@[k] <= '\u{7f}',
            bytes.len() == i,
            forall|k: int| 0 <= k < 2 * i ==> hex_value(#[trigger] text@[k]) is Some,
            forall|k: int| 0 <= k < i ==> #[trigger] bytes@[k] == hex_decode(text@)[k],
        decreases n / 2 - i,
    {
        let ghost high = text@[2 * i];
        let ghost low = text@[2 * i + 1];
        assert(codes@[2 * i] as char == high);
        assert(codes@[2 * i + 1] as char == low);
        match (value_of(codes[2 * i]), value_of(codes[2 * i + 1])) {
            (Some(hi), Some(lo)) => {
                bytes.push(hi * 16 + lo);
            },
            _ => {
                assert(hex_value(high) is None || hex_value(low) is None);
                return None;
            },
        }
        i += 1;
    }
    assert(bytes@ =~= hex_decode(text@));
    Some(bytes)
}

} // verus!
