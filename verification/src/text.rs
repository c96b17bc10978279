//! Text: file names read as text, and the few questions about strings
//! that the crate asks.
//!
//! A file name is a run of bytes that need not be UTF-8. A tag's name must
//! be text, so it is read strictly; a movie's display name is only shown, so
//! it is read leniently.

use vstd::prelude::*;
use vstd::utf8::{encode_utf8, valid_utf8};

verus! {

/// The text that a lenient reading makes of `bytes`: valid UTF-8 is kept as
/// it is, and every ill-formed run is replaced by U+FFFD.
pub uninterp spec fn lossy_text(bytes: Seq<u8>) -> Seq<char>;

/// Reads bytes as text with `String::from_utf8`.
///
/// Trusted: the call succeeds exactly on valid UTF-8, and the text it gives
/// is encoded by the very bytes it was given.
#[verifier::external_body]
pub(crate) fn strict(bytes: &[u8]) -> (text: Option<String>)
    ensures
        text is Some <==> valid_utf8(bytes@),
        text matches Some(t) ==> encode_utf8(t@) == bytes@,
{
    String::from_utf8(bytes.to_vec()).ok()
}

/// Reads bytes as text with `String::from_utf8_lossy`.
///
/// Trusted: the result depends on the bytes alone, and valid UTF-8 comes
/// back as the text that it encodes.
#[verifier::external_body]
pub(crate) fn lossy(bytes: &[u8]) -> (text: String)
    ensures
        text@ == lossy_text(bytes@),
        valid_utf8(bytes@) ==> encode_utf8(text@) == bytes@,
{
    String::from_utf8_lossy(bytes).into_owned()
}

/// The texts that a list of strings holds.
pub open spec fn texts_of(names: Seq<String>) -> Seq<Seq<char>> {
    names.map_values(|name: String| name@)
}

/// Asks `str::starts_with` whether `text` begins with the character `c`.
///
/// Trusted: the answer is yes exactly if the text is not empty and its
/// first character is `c`.
#[verifier::external_body]
pub(crate) fn starts_with(text: &str, c: char) -> (yes: bool)
    ensures
        yes == (text@.len() > 0 && text@[0] == c),
{
    text.starts_with(c)
}

/// Asks `str::ends_with` whether `text` ends with the character `c`.
///
/// Trusted: the answer is yes exactly if the text is not empty and its
/// last character is `c`.
#[verifier::external_body]
pub(crate) fn ends_with(text: &str, c: char) -> (yes: bool)
    ensures
        yes == (text@.len() > 0 && text@.last() == c),
{
    text.ends_with(c)
}

/// Takes the last character off `text` with `String::pop`.
///
/// Trusted: an empty text stays empty and gives nothing; any other text
/// loses its last character, which is returned.
#[verifier::external_body]
pub(crate) fn pop(text: &mut String) -> (last: Option<char>)
    ensures
        old(text)@.len() == 0 ==> last is None && final(text)@ == old(text)@,
        old(text)@.len() > 0 ==> last == Some(old(text)@.last()) && final(text)@ == old(
            text,
        )@.drop_last(),
{
    text.pop()
}

} // verus!
