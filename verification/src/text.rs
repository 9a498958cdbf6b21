//! Text payloads: keys and values travel as UTF-8.

use vstd::prelude::*;
use vstd::slice::slice_to_vec;
use vstd::utf8::*;

verus! {

/// Calls `String::from_utf8`, keeping the string and dropping the error.
///
/// Not proved, taken from the standard library's documentation: the call
/// succeeds exactly on well-formed UTF-8, and the string it returns has the
/// given bytes as its encoding.
#[verifier::external_body]
fn string_from_utf8(bytes: Vec<u8>) -> (text: Option<String>)
    ensures
        text is Some <==> valid_utf8(bytes@),
        text is Some ==> encode_utf8(text->0@) == bytes@,
{
    String::from_utf8(bytes).ok()
}

/// Reads `bytes` as text: `Some` exactly when they are well-formed UTF-8,
/// and then the text that they encode.
pub(crate) fn text_of(bytes: &[u8]) -> (text: Option<String>)
    ensures
        text is Some <==> valid_utf8(bytes@),
        text is Some ==> text->0@ == decode_utf8(bytes@),
        text is Some ==> encode_utf8(text->0@) == bytes@,
{
    let text = string_from_utf8(slice_to_vec(bytes));
    proof {
        if text is Some {
            encode_utf8_decode_utf8(text->0@);
        }
    }
    text
}

/// The UTF-8 bytes of `text`.
pub(crate) fn bytes_of(text: &String) -> (bytes: &[u8])
    ensures
        bytes@ == encode_utf8(text@),
        valid_utf8(bytes@),
        decode_utf8(bytes@) == text@,
{
    proof {
        encode_utf8_valid_utf8(text@);
        encode_utf8_decode_utf8(text@);
    }
    text.as_str().as_bytes()
}

} // verus!
