use base64::Engine;
use crate::cipher::utf8_text;
use crate::error::ProtocolError;
use vstd::prelude::*;
use vstd::string::StringSliceAdditionalSpecFns;
use vstd::utf8::{decode_utf8, encode_utf8, encode_utf8_decode_utf8, encode_utf8_valid_utf8, valid_utf8};

verus! {

/// Standard padded base64 text of `b`.
pub uninterp spec fn base64_of(b: Seq<u8>) -> Seq<char>;

/// The bytes that standard padded base64 text spells, if it is well formed.
pub uninterp spec fn base64_decoded(s: Seq<char>) -> Option<Seq<u8>>;

/// What unwrapping base64 text yields: the UTF-8 text it carries, or
/// `MalformedInput`.
pub open spec fn unframing(s: Seq<char>) -> Result<Seq<char>, ProtocolError> {
    match base64_decoded(s) {
        Some(b) => if valid_utf8(b) {
            Ok(decode_utf8(b))
        } else {
            Err(ProtocolError::MalformedInput)
        },
        None => Err(ProtocolError::MalformedInput),
    }
}

/// Relies on base64's `general_purpose::STANDARD` engine `encode`: padded
/// standard-alphabet text, which the same engine's `decode` turns back into
/// the bytes.
#[verifier::external_body]
fn base64_encode(b: &[u8]) -> (r: String)
    ensures
        r@ == base64_of(b@),
        base64_decoded(r@) == Some(b@),
{
    base64::engine::general_purpose::STANDARD.encode(b)
}

/// Relies on base64's `general_purpose::STANDARD` engine `decode`: the bytes
/// of well-formed padded standard-alphabet text, and an error otherwise.
#[verifier::external_body]
fn base64_decode(s: &str) -> (r: Option<Vec<u8>>)
    ensures
        match r {
            Some(b) => base64_decoded(s@) == Some(b@),
            None => base64_decoded(s@) is None,
        },
{
    base64::engine::general_purpose::STANDARD.decode(s).ok()
}

/// Wraps a message's JSON text in base64 for transport; unwrapping it gives
/// the text back.
pub fn frame_base64(json: &str) -> (r: String)
    ensures
        r@ == base64_of(encode_utf8(json@)),
        unframing(r@) == Ok::<Seq<char>, ProtocolError>(json@),
{
    let r = base64_encode(json.as_bytes());
    proof {
        encode_utf8_valid_utf8(json@);
        encode_utf8_decode_utf8(json@);
    }
    r
}

/// Unwraps base64 text into the UTF-8 text it carries; anything else is
/// `MalformedInput`.
pub fn unframe_base64(text: &str) -> (r: Result<String, ProtocolError>)
    ensures
        match r {
            Ok(s) => unframing(text@) == Ok::<Seq<char>, ProtocolError>(s@),
            Err(e) => unframing(text@) == Err::<Seq<char>, ProtocolError>(e),
        },
{
    match base64_decode(text) {
        Some(bytes) => match utf8_text(bytes) {
            Some(s) => Ok(s),
            None => Err(ProtocolError::MalformedInput),
        },
        None => Err(ProtocolError::MalformedInput),
    }
}

} // verus!
