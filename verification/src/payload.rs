//! Conversion between the text a user types and the bytes carried as a
//! message payload.
use vstd::prelude::*;
use vstd::utf8::*;

verus! {

/// The text that `String::from_utf8_lossy` makes of `bytes`: invalid
/// sequences become U+FFFD.
pub uninterp spec fn utf8_lossy_text(bytes: Seq<u8>) -> Seq<char>;

/// Calls `String::from_utf8_lossy` and takes the result as an owned `String`.
/// Trusted: the text is a function of the bytes (named `utf8_lossy_text`);
/// for valid UTF-8 it is exactly the decoded text, and otherwise each invalid
/// sequence is replaced by U+FFFD, so the text holds at least one, as the
/// documentation of `from_utf8_lossy` says. Where exactly the replacement
/// characters stand is left to the name.
#[verifier::external_body]
fn string_from_utf8_lossy(bytes: &[u8]) -> (text: String)
    ensures
        text@ == utf8_lossy_text(bytes@),
        valid_utf8(bytes@) ==> text@ == decode_utf8(bytes@),
        !valid_utf8(bytes@) ==> text@.contains('\u{FFFD}'),
{
    String::from_utf8_lossy(bytes).into_owned()
}

/// Turns payload bytes into printable text, replacing invalid UTF-8 by
/// U+FFFD.
pub fn decode_payload(data: &[u8]) -> (text: String)
    ensures
        text@ == utf8_lossy_text(data@),
        valid_utf8(data@) ==> text@ == decode_utf8(data@),
        !valid_utf8(data@) ==> text@.contains('\u{FFFD}'),
{
    string_from_utf8_lossy(data)
}

/// Turns a line of text into payload bytes: its UTF-8 encoding.
pub fn encode_payload(msg: &str) -> (data: Vec<u8>)
    ensures
        data@ == encode_utf8(msg@),
{
    vstd::slice::slice_to_vec(msg.as_bytes())
}

/// Decoding the payload made from a text gives the text back.
pub proof fn lemma_decode_inverts_encode(msg: Seq<char>)
    ensures
        valid_utf8(encode_utf8(msg)),
        decode_utf8(encode_utf8(msg)) == msg,
{
    encode_utf8_valid_utf8(msg);
    encode_utf8_decode_utf8(msg);
}

} // verus!
