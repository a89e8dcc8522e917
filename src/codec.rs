//! Byte and text encodings used on the wire: URL-safe base64 without padding
//! for cookie payloads, and UTF-8 for cookie plaintexts.

use base64::prelude::{Engine, BASE64_URL_SAFE_NO_PAD};
use vstd::prelude::*;

verus! {

/// What `BASE64_URL_SAFE_NO_PAD.encode` gives for the bytes `b`.
pub uninterp spec fn b64url_encoded(b: Seq<u8>) -> Seq<char>;

/// What `BASE64_URL_SAFE_NO_PAD.decode` gives for the text `s`: the bytes, or
/// `None` where `s` is not valid unpadded URL-safe base64.
pub uninterp spec fn b64url_decoded(s: Seq<char>) -> Option<Seq<u8>>;

/// What `String::from_utf8` gives for the bytes `b`: the text, or `None`
/// where `b` is not valid UTF-8.
pub uninterp spec fn utf8_decoded(b: Seq<u8>) -> Option<Seq<char>>;

/// Relies on `base64::Engine::encode` with `BASE64_URL_SAFE_NO_PAD`: the
/// encoding of `b`, which the same engine decodes back to `b`.
#[verifier::external_body]
pub(crate) fn b64url_encode(b: &Vec<u8>) -> (r: String)
    ensures
        r@ == b64url_encoded(b@),
        b64url_decoded(r@) == Some(b@),
{
    BASE64_URL_SAFE_NO_PAD.encode(b)
}

/// Relies on `base64::Engine::decode` with `BASE64_URL_SAFE_NO_PAD`: the
/// decoded bytes, or `None` where decoding fails.
#[verifier::external_body]
pub(crate) fn b64url_decode(s: &str) -> (r: Option<Vec<u8>>)
    ensures
        match r {
            Some(v) => b64url_decoded(s@) == Some(v@),
            None => b64url_decoded(s@).is_none(),
        },
{
    BASE64_URL_SAFE_NO_PAD.decode(s).ok()
}

/// Relies on `String::from_utf8`: the text that `b` encodes, or `None` where
/// `b` is not valid UTF-8.
#[verifier::external_body]
pub(crate) fn utf8_decode(b: Vec<u8>) -> (r: Option<String>)
    ensures
        match r {
            Some(s) => utf8_decoded(b@) == Some(s@),
            None => utf8_decoded(b@).is_none(),
        },
{
    String::from_utf8(b).ok()
}

/// Relies on `String::into_bytes`: the UTF-8 encoding of `s`, which
/// `String::from_utf8` turns back into `s`.
#[verifier::external_body]
pub(crate) fn utf8_encode(s: String) -> (r: Vec<u8>)
    ensures
        utf8_decoded(r@) == Some(s@),
{
    s.into_bytes()
}

} // verus!
