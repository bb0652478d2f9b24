//! The step from decoded bytes to text.

use vstd::prelude::*;
use vstd::utf8::*;

verus! {

/// The error of `String::from_utf8`, which the verifier carries through
/// without looking inside.
#[verifier::external_type_specification]
#[verifier::external_body]
pub struct ExFromUtf8Error(std::string::FromUtf8Error);

/// `String::from_utf8` of the standard library, taken on trust: it succeeds
/// exactly on valid UTF-8, and the string it then returns is made of the
/// bytes it was given.
pub assume_specification[ String::from_utf8 ](vec: Vec<u8>) -> (r: Result<
    String,
    std::string::FromUtf8Error,
>)
    ensures
        r is Ok <==> valid_utf8(vec@),
        r is Ok ==> encode_utf8(r->Ok_0@) == vec@,
;

/// What a byte sequence reads as: its characters where it is valid UTF-8,
/// and the empty text where it is not.
pub open spec fn text_of(bytes: Seq<u8>) -> Seq<char> {
    if valid_utf8(bytes) {
        decode_utf8(bytes)
    } else {
        Seq::empty()
    }
}

/// Reads `bytes` as UTF-8 text, and gives the empty string where they are
/// not valid.
pub fn text_or_empty(bytes: Vec<u8>) -> (text: String)
    ensures
        text@ == text_of(bytes@),
{
    match String::from_utf8(bytes) {
        Ok(text) => {
            proof {
                encode_utf8_decode_utf8(text@);
            }
            text
        },
        Err(_) => String::new(),
    }
}

/// Text that is valid UTF-8 reads back as the bytes it was read from.
pub proof fn lemma_text_of_valid(bytes: Seq<u8>)
    requires
        valid_utf8(bytes),
    ensures
        encode_utf8(text_of(bytes)) == bytes,
{
    decode_utf8_encode_utf8(bytes);
}

} // verus!
