//! Hexadecimal text: two digits per byte, high nibble first.

use vstd::prelude::*;

verus! {

/// The value of a hexadecimal digit of either case, `None` for any other
/// character.
pub open spec fn digit_value(c: char) -> Option<u8> {
    let n = c as u32;
    if 48 <= n <= 57 {
        Some((n - 48) as u8)
    } else if 97 <= n <= 102 {
        Some((n - 87) as u8)
    } else if 65 <= n <= 70 {
        Some((n - 55) as u8)
    } else {
        None
    }
}

/// The lower-case digit that stands for a nibble.
pub open spec fn digit_char(nibble: u8) -> char
    recommends
        nibble < 16,
{
    if nibble < 10 {
        ((48 + nibble) as u8) as char
    } else {
        ((87 + nibble) as u8) as char
    }
}

/// Whether `text` is an even number of hexadecimal digits.
pub open spec fn is_hex(text: Seq<char>) -> bool {
    &&& text.len() % 2 == 0
    &&& forall|i: int| 0 <= i < text.len() ==> (#[trigger] digit_value(text[i])) is Some
}

/// The bytes that hexadecimal text stands for.
pub open spec fn decoded(text: Seq<char>) -> Seq<u8>
    recommends
        is_hex(text),
{
    Seq::new(
        text.len() / 2,
        |k: int| (16 * digit_value(text[2 * k]).unwrap() + digit_value(text[2 * k + 1]).unwrap()) as u8,
    )
}

/// The lower-case hexadecimal text of `bytes`.
pub open spec fn encoded(bytes: Seq<u8>) -> Seq<char> {
    Seq::new(
        2 * bytes.len(),
        |i: int| if i % 2 == 0 { digit_char(bytes[i / 2] / 16) } else { digit_char(bytes[i / 2] % 16) },
    )
}

/// Decodes hexadecimal text with `hex::decode`.
///
/// Trusted: the call succeeds exactly on an even number of hexadecimal
/// digits of either case, and each pair of digits gives one byte, the first
/// digit being the high nibble. The call reads the text byte by byte; since
/// every digit is one byte long and no byte of a longer character is a
/// digit, it makes no difference that the contract counts characters.
#[verifier::external_body]
pub(crate) fn decode(text: &str) -> (r: Result<Vec<u8>, hex::FromHexError>)
    ensures
        r is Ok <==> is_hex(text@),
        r matches Ok(bytes) ==> bytes@ == decoded(text@),
{
    hex::decode(text)
}

/// Encodes bytes with `hex::encode`.
///
/// Trusted: the text holds two lower-case digits per byte, high nibble first.
#[verifier::external_body]
pub(crate) fn encode(bytes: &[u8]) -> (text: String)
    ensures
        text@ == encoded(bytes@),
{
    hex::encode(bytes)
}

/// The error of `hex::decode`, carried through unread.
#[verifier::external_type_specification]
#[verifier::external_body]
pub struct ExFromHexError(hex::FromHexError);

/// Every nibble's digit reads back as that nibble.
pub proof fn lemma_digit_round_trip(nibble: u8)
    requires
        nibble < 16,
    ensures
        digit_value(digit_char(nibble)) == Some(nibble),
{
}

/// Encoding and then decoding gives the bytes back: the text of any bytes is
/// hexadecimal, twice as long as the bytes, and decodes to them.
pub proof fn lemma_round_trip(bytes: Seq<u8>)
    ensures
        is_hex(encoded(bytes)),
        encoded(bytes).len() == 2 * bytes.len(),
        decoded(encoded(bytes)) == bytes,
{
    let text = encoded(bytes);
    assert forall|i: int| 0 <= i < text.len() implies (#[trigger] digit_value(text[i])) is Some by {
        lemma_digit_round_trip(bytes[i / 2] / 16);
        lemma_digit_round_trip(bytes[i / 2] % 16);
    }
    assert forall|k: int| 0 <= k < bytes.len() implies decoded(text)[k] == bytes[k] by {
        lemma_digit_round_trip(bytes[k] / 16);
        lemma_digit_round_trip(bytes[k] % 16);
        assert(text[2 * k] == digit_char(bytes[k] / 16));
        assert(text[2 * k + 1] == digit_char(bytes[k] % 16));
    }
    assert(decoded(text) =~= bytes);
}

} // verus!
