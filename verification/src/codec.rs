//! The text and compression layers that wrap a level on the wire and that name
//! a bit array as a key. The work is done by the `base64` and `flate2` crates;
//! the contracts in this file are believed, not proved.

use std::io::Read;
use vstd::prelude::*;
use vstd::string::StringSliceAdditionalSpecFns;

verus! {

/// The error of `base64::decode`.
#[verifier::external_type_specification]
#[verifier::external_body]
pub struct ExDecodeError(base64::DecodeError);

/// The error of a reader of `std::io`.
#[verifier::external_type_specification]
#[verifier::external_body]
pub struct ExIoError(std::io::Error);

/// The text that `base64::encode` gives for `bytes`: standard alphabet, padded.
pub uninterp spec fn base64_text(bytes: Seq<u8>) -> Seq<char>;

/// The bytes that `base64::decode` gives for `text`, or `None` where it
/// rejects the text.
pub uninterp spec fn base64_bytes(text: Seq<char>) -> Option<Seq<u8>>;

/// The bytes that a raw DEFLATE stream `data` expands to, or `None` where
/// `flate2` reports the stream as corrupt or incomplete.
pub uninterp spec fn inflated(data: Seq<u8>) -> Option<Seq<u8>>;

/// What `str::trim` leaves of `text`.
pub uninterp spec fn trimmed(text: Seq<char>) -> Seq<char>;

/// Calls `base64::encode`. Claims that the text is a function of the bytes
/// alone, and that `base64::decode` turns that text back into the same bytes:
/// the two functions use one alphabet and one padding rule.
/// The length bound keeps the size of the text within `usize`.
#[verifier::external_body]
pub(crate) fn encode_base64(bytes: &Vec<u8>) -> (text: String)
    requires
        bytes@.len() <= usize::MAX / 2,
    ensures
        text@ == base64_text(bytes@),
        base64_bytes(text@) == Some(bytes@),
{
    base64::encode(bytes)
}

/// Calls `base64::decode`. Claims that the outcome is a function of the text
/// alone. The bound on the length in bytes, as `str::len` reports it, keeps
/// the crate's count of input chunks within `usize`.
#[verifier::external_body]
pub(crate) fn decode_base64(text: &str) -> (result: Result<Vec<u8>, base64::DecodeError>)
    requires
        text.spec_bytes().len() as usize + 8 <= usize::MAX,
    ensures
        match result {
            Ok(bytes) => base64_bytes(text@) == Some(bytes@),
            Err(_) => base64_bytes(text@) is None,
        },
{
    base64::decode(text)
}

/// Reads a `flate2::read::DeflateDecoder` over `data` to its end. Claims that
/// the outcome is a function of the data alone.
#[verifier::external_body]
pub(crate) fn inflate(data: &Vec<u8>) -> (result: Result<Vec<u8>, std::io::Error>)
    ensures
        match result {
            Ok(bytes) => inflated(data@) == Some(bytes@),
            Err(_) => inflated(data@) is None,
        },
{
    let mut out: Vec<u8> = Vec::new();
    let mut decoder = flate2::read::DeflateDecoder::new(&data[..]);
    match decoder.read_to_end(&mut out) {
        Ok(_) => Ok(out),
        Err(error) => Err(error),
    }
}

/// Calls `str::trim`, which returns a part of its argument. Claims that the
/// part is a function of the text alone and that `str::len` reports no more
/// bytes for it than for the text.
#[verifier::external_body]
pub(crate) fn trim(text: &str) -> (part: &str)
    ensures
        part@ == trimmed(text@),
        part.spec_bytes().len() as usize <= text.spec_bytes().len() as usize,
{
    text.trim()
}

} // verus!
