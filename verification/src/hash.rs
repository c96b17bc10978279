//! Movie identifiers: the SHA-1 digest of a directory's name.

use crate::error::Error;
use crate::hextext;
use crate::path;
use sha1::Digest;
use vstd::prelude::*;
use vstd::std_specs::cmp::PartialEqSpecImpl;

verus! {

/// The SHA-1 digest of `data`: twenty bytes that depend on `data` alone.
pub uninterp spec fn sha1(data: Seq<u8>) -> Seq<u8>;

/// Computes a digest with `sha1::Sha1::digest`.
///
/// Trusted: the bytes returned are the SHA-1 digest of `data`.
#[verifier::external_body]
fn sha1_digest(data: &[u8]) -> (digest: [u8; 20])
    ensures
        digest@ == sha1(data@),
{
    sha1::Sha1::digest(data).into()
}

/// The identifier of a movie: twenty bytes, compared and ordered bytewise.
///
/// It is derived from the name of the movie's directory only, so a movie
/// keeps its identifier when the collection is moved, and two directories
/// with the same name under different parents share one.
#[derive(Debug, Clone, Copy, Eq, Hash, PartialOrd, Ord)]
pub struct PathnameHash([u8; 20]);

impl View for PathnameHash {
    type V = Seq<u8>;

    closed spec fn view(&self) -> Seq<u8> {
        self.0@
    }
}

impl PartialEq for PathnameHash {
    fn eq(&self, other: &Self) -> (equal: bool) {
        let mut i: usize = 0;
        while i < 20
            invariant
                i <= 20,
                forall|k: int| 0 <= k < i ==> self.0@[k] == other.0@[k],
            decreases 20 - i,
        {
            if self.0[i] != other.0[i] {
                return false;
            }
            i += 1;
        }
        assert(self.0@ =~= other.0@);
        true
    }
}

impl PartialEqSpecImpl for PathnameHash {
    open spec fn obeys_eq_spec() -> bool {
        true
    }

    open spec fn eq_spec(&self, other: &Self) -> bool {
        self@ == other@
    }
}

/// The identifier that a path gets: the digest of its final component, and
/// none where the path has no final component.
pub open spec fn path_hash_of(path: Seq<u8>) -> Option<Seq<u8>> {
    match path::file_name_of(path) {
        Some(name) => Some(sha1(name)),
        None => None,
    }
}

/// What hexadecimal text says as an identifier: the twenty bytes that forty
/// hexadecimal digits stand for, and nothing for any other text.
pub open spec fn parsed(text: Seq<char>) -> Option<Seq<u8>> {
    if hextext::is_hex(text) && text.len() == 40 {
        Some(hextext::decoded(text))
    } else {
        None
    }
}

/// What is said of a path without a final component.
pub open spec fn no_file_name() -> Seq<char> {
    "invalid file name"@
}

/// What is said of bytes that are not twenty.
pub open spec fn wrong_length() -> Seq<char> {
    "invalid hash length"@
}

/// What is said of text that is no identifier: that it is no hexadecimal
/// text, or else that it does not stand for twenty bytes.
pub open spec fn not_parsed(text: Seq<char>) -> Seq<char> {
    if hextext::is_hex(text) {
        wrong_length()
    } else {
        "invalid hexadecimal text"@
    }
}

impl PathnameHash {
    /// An identifier always holds twenty bytes.
    pub proof fn lemma_len(self)
        ensures
            self@.len() == 20,
    {
    }

    /// Two identifiers with the same bytes are the same identifier.
    pub proof fn lemma_same_bytes(self, other: PathnameHash)
        requires
            self@ == other@,
        ensures
            self == other,
    {
        assert forall|i: int| 0 <= i < 20 implies self.0[i] == other.0[i] by {
            assert(self.0@[i] == other.0@[i]);
        }
        assert(self.0 =~= other.0);
    }

    /// The identifier's bytes.
    pub fn as_slice(&self) -> (bytes: &[u8])
        ensures
            bytes@ == self@,
    {
        &self.0
    }

    /// Takes an identifier from exactly twenty bytes; any other length is
    /// invalid input.
    pub fn try_from(value: &[u8]) -> (r: Result<PathnameHash, Error>)
        ensures
            value@.len() == 20 ==> (r matches Ok(hash) && hash@ == value@),
            value@.len() != 20 ==> (r matches Err(Error::InvalidInput(text)) && text@
                == wrong_length()),
    {
        if value.len() != 20 {
            return Err(Error::InvalidInput("invalid hash length".to_owned()));
        }
        let mut hash: [u8; 20] = [0u8; 20];
        let mut i: usize = 0;
        while i < 20
            invariant
                i <= 20,
                value@.len() == 20,
                forall|k: int| 0 <= k < i ==> hash@[k] == value@[k],
            decreases 20 - i,
        {
            hash[i] = value[i];
            i += 1;
        }
        assert(hash@ =~= value@);
        Ok(PathnameHash(hash))
    }

    /// Reads an identifier from forty hexadecimal digits of either case;
    /// any other text is invalid input.
    pub fn from_str(s: &str) -> (r: Result<PathnameHash, Error>)
        ensures
            match parsed(s@) {
                Some(bytes) => r matches Ok(hash) && hash@ == bytes,
                None => r matches Err(Error::InvalidInput(text)) && text@ == not_parsed(s@),
            },
    {
        match hextext::decode(s) {
            Ok(bytes) => PathnameHash::try_from(bytes.as_slice()),
            Err(_) => Err(Error::InvalidInput("invalid hexadecimal text".to_owned())),
        }
    }

    /// The identifier as forty lower-case hexadecimal digits.
    pub fn to_hex(&self) -> (text: String)
        ensures
            text@ == hextext::encoded(self@),
    {
        hextext::encode(self.as_slice())
    }
}

/// Derives the identifier of the entry that `path` leads to: the SHA-1
/// digest of the path's final component. A path without a final component
/// is invalid input.
pub fn path_hash(path: &[u8]) -> (r: Result<PathnameHash, Error>)
    ensures
        match path_hash_of(path@) {
            Some(digest) => r matches Ok(hash) && hash@ == digest,
            None => r matches Err(Error::InvalidInput(text)) && text@ == no_file_name(),
        },
{
    match path::file_name(path) {
        Some(name) => Ok(PathnameHash(sha1_digest(name.as_slice()))),
        None => Err(Error::InvalidInput("invalid file name".to_owned())),
    }
}

/// An identifier depends on the final component of the path alone.
pub proof fn lemma_path_hash_by_final_component(first: Seq<u8>, second: Seq<u8>)
    requires
        path::file_name_of(first) == path::file_name_of(second),
    ensures
        path_hash_of(first) == path_hash_of(second),
{
}

/// An entry gets the digest of its name whatever directory it lies in, so
/// entries of one name in two directories share their identifier.
pub proof fn lemma_path_hash_ignores_parents(first: Seq<u8>, second: Seq<u8>, name: Seq<u8>)
    requires
        path::is_entry_name(name),
    ensures
        path_hash_of(path::joined(first, name)) == Some(sha1(name)),
        path_hash_of(path::joined(first, name)) == path_hash_of(path::joined(second, name)),
{
    path::lemma_file_name_of_joined(first, name);
    path::lemma_file_name_of_joined(second, name);
}

/// Writing twenty bytes as hexadecimal text and reading the text back
/// gives the same bytes: every identifier survives the round trip.
pub proof fn lemma_hex_round_trip(bytes: Seq<u8>)
    requires
        bytes.len() == 20,
    ensures
        hextext::encoded(bytes).len() == 40,
        parsed(hextext::encoded(bytes)) == Some(bytes),
{
    hextext::lemma_round_trip(bytes);
}

/// Text of any length but forty, and text with a character that is no
/// hexadecimal digit, is not an identifier.
pub proof fn lemma_parsed_rejects(text: Seq<char>)
    requires
        text.len() != 40 || exists|i: int| 0 <= i < text.len() && hextext::digit_value(text[i]) is None,
    ensures
        parsed(text) is None,
{
}

} // verus!
