//! Text in a document: the ASCII names of dictionary keys, and byte strings
//! that have to be valid UTF-8.

use vstd::prelude::*;
use vstd::utf8::{decode_utf8, is_ascii_chars, is_ascii_chars_encode_utf8, valid_utf8};

verus! {

/// The bytes of a text whose characters are all ASCII, one byte for each
/// character.
pub open spec fn ascii_bytes(text: Seq<char>) -> Seq<u8> {
    Seq::new(text.len(), |i: int| text[i] as u8)
}

/// The bytes of a name whose characters are all ASCII.
pub(crate) fn name_bytes(name: &str) -> (bytes: &[u8])
    requires
        is_ascii_chars(name@),
    ensures
        bytes@ == ascii_bytes(name@),
{
    proof {
        is_ascii_chars_encode_utf8(name@);
    }
    let bytes = name.as_bytes();
    assert(bytes@ =~= ascii_bytes(name@));
    bytes
}

/// Decodes `bytes` as UTF-8 by `String::from_utf8` of the standard library.
///
/// The contract is taken on trust, it is not proved: the call gives back a
/// text exactly when the bytes are a valid UTF-8 encoding, and the text then
/// holds the characters that the bytes encode.
#[verifier::external_body]
pub(crate) fn string_from_utf8(bytes: Vec<u8>) -> (text: Option<String>)
    ensures
        text is Some <==> valid_utf8(bytes@),
        text matches Some(s) ==> s@ == decode_utf8(bytes@),
{
    match String::from_utf8(bytes) {
        Ok(text) => Some(text),
        Err(_) => None,
    }
}

} // verus!
