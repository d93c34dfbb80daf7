//! Text from bytes.

use vstd::prelude::*;
use vstd::utf8::*;
use crate::value::ParseError;

verus! {

/// Calls `String::from_utf8` and keeps the string where there is one.
///
/// Believed, not proved: the call succeeds exactly on the byte sequences
/// that are valid UTF-8, and the string it then returns is made of the very
/// bytes it was given.
#[verifier::external_body]
fn string_from_utf8(bytes: Vec<u8>) -> (r: Option<String>)
    ensures
        r is Some <==> valid_utf8(bytes@),
        r is Some ==> encode_utf8(r.unwrap()@) == bytes@,
{
    String::from_utf8(bytes).ok()
}

/// The text that `bytes` hold in UTF-8, or `FromUtf8Error` where they hold
/// none.
pub fn text_from_bytes(bytes: Vec<u8>) -> (r: Result<String, ParseError>)
    ensures
        match r {
            Ok(text) => valid_utf8(bytes@) && text@ == decode_utf8(bytes@),
            Err(e) => !valid_utf8(bytes@) && e == ParseError::FromUtf8Error,
        },
{
    match string_from_utf8(bytes) {
        Some(text) => {
            proof {
                encode_utf8_decode_utf8(text@);
            }
            Ok(text)
        },
        None => Err(ParseError::FromUtf8Error),
    }
}

} // verus!
