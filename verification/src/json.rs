//! The calls into `serde_json`. What it writes and reads is not stated
//! here, only named: the engine never relies on the text itself, it reads
//! every payload back before the payload goes into the log.

use vstd::prelude::*;

verus! {

/// The error type of `serde_json`, carried through unread.
#[verifier::external_type_specification]
#[verifier::external_body]
pub struct ExJsonError(serde_json::Error);

/// The JSON text that `serde_json` writes for the pair of a key and an
/// optional value, or `None` where it refuses to write one.
pub uninterp spec fn json_text(key: Seq<char>, value: Option<Seq<char>>) -> Option<Seq<u8>>;

/// The pair of a key and an optional value that `serde_json` reads from a
/// text, or `None` where it rejects the text.
pub uninterp spec fn json_fields(text: Seq<u8>) -> Option<(Seq<char>, Option<Seq<char>>)>;

/// The characters of an optional string.
pub open spec fn chars_of(value: Option<&String>) -> Option<Seq<char>> {
    match value {
        Some(s) => Some(s@),
        None => None,
    }
}

/// The characters of an optional owned string.
pub open spec fn owned_chars_of(value: Option<String>) -> Option<Seq<char>> {
    match value {
        Some(s) => Some(s@),
        None => None,
    }
}

/// Calls `serde_json::to_vec` on the pair `(key, value)`. Nothing is proved
/// of it: the contract only gives the outcome the name [`json_text`], that
/// is, it claims that the text written, or the refusal to write one, is a
/// fixed function of the key and the value.
#[verifier::external_body]
pub(crate) fn to_json(key: &String, value: Option<&String>) -> (r: Result<
    Vec<u8>,
    serde_json::Error,
>)
    ensures
        match r {
            Ok(text) => json_text(key@, chars_of(value)) == Some(text@),
            Err(_) => json_text(key@, chars_of(value)) is None,
        },
{
    serde_json::to_vec(&(key, value))
}

/// Calls `serde_json::from_slice` to read a pair of a string and an optional
/// string. Nothing is proved of it: the contract only gives the outcome the
/// name [`json_fields`], that is, it claims that the pair read, or the
/// rejection, is a fixed function of the text.
#[verifier::external_body]
pub(crate) fn from_json(text: &[u8]) -> (r: Result<(String, Option<String>), serde_json::Error>)
    ensures
        match r {
            Ok((key, value)) => json_fields(text@) == Some((key@, owned_chars_of(value))),
            Err(_) => json_fields(text@) is None,
        },
{
    serde_json::from_slice::<(String, Option<String>)>(text)
}

} // verus!
