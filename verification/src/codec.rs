//! Text forms: a share as a base64 token, a secret as UTF-8.

use vstd::prelude::*;
use vstd::utf8::{decode_utf8, valid_utf8};
use crate::error::Error;
use crate::share::{frame_holds_share, Share};

verus! {

/// The standard base64 text, with padding, of a byte sequence.
pub uninterp spec fn base64_encoded(bytes: Seq<u8>) -> Seq<char>;

/// The bytes that a standard base64 text stands for, or `None` where the text
/// is no such encoding.
pub uninterp spec fn base64_decoded(text: Seq<char>) -> Option<Seq<u8>>;

/// `base64::Engine::encode` of `base64::engine::general_purpose::STANDARD`.
/// Trusted: the text it returns is a function of the bytes alone, and decoding
/// that text with the same engine gives the bytes back. The length of the text
/// cannot overflow, since no slice is longer than `isize::MAX`.
#[verifier::external_body]
fn base64_encode(bytes: &[u8]) -> (r: String)
    ensures
        r@ == base64_encoded(bytes@),
        base64_decoded(r@) == Some(bytes@),
{
    base64::Engine::encode(&base64::engine::general_purpose::STANDARD, bytes)
}

/// `base64::Engine::decode` of `base64::engine::general_purpose::STANDARD`.
/// Trusted: what it returns is a function of the text alone; its error, a
/// `base64::DecodeError`, becomes `None`.
#[verifier::external_body]
fn base64_decode(text: &str) -> (r: Option<Vec<u8>>)
    ensures
        match r {
            Some(bytes) => base64_decoded(text@) == Some(bytes@),
            None => base64_decoded(text@) is None,
        },
{
    base64::Engine::decode(&base64::engine::general_purpose::STANDARD, text).ok()
}

/// `String::from_utf8` of std. Trusted: it succeeds exactly on valid UTF-8,
/// and the text then holds the characters that the bytes encode.
#[verifier::external_body]
fn string_from_utf8(bytes: Vec<u8>) -> (r: Option<String>)
    ensures
        r is Some <==> valid_utf8(bytes@),
        r matches Some(text) ==> text@ == decode_utf8(bytes@),
{
    String::from_utf8(bytes).ok()
}

/// The frame that a token holds; empty where the token is no base64 text.
pub open spec fn token_frame(token: Seq<char>) -> Seq<u8> {
    match base64_decoded(token) {
        Some(bytes) => bytes,
        None => Seq::empty(),
    }
}

/// A token holds a share when it is base64 text of a frame that holds one:
/// at least two bytes, the first not zero.
pub open spec fn token_holds_share(token: Seq<char>) -> bool {
    base64_decoded(token) is Some && frame_holds_share(token_frame(token))
}

/// A token is canonical when encoding what it decodes to gives it back.
pub open spec fn token_is_canonical(token: Seq<char>) -> bool {
    base64_decoded(token) is Some && base64_encoded(token_frame(token)) == token
}

/// The frames of a sequence of tokens, in the same order.
pub open spec fn token_frames(tokens: Seq<Seq<char>>) -> Seq<Seq<u8>> {
    Seq::new(tokens.len(), |i: int| token_frame(tokens[i]))
}

/// The texts of a sequence of strings, in the same order.
pub open spec fn texts(strings: Seq<String>) -> Seq<Seq<char>> {
    Seq::new(strings.len(), |i: int| strings[i]@)
}

/// What `secret_from_bytes` returns on given bytes.
pub open spec fn text_of_bytes(bytes: Seq<u8>) -> Result<Seq<char>, Error> {
    if valid_utf8(bytes) {
        Ok(decode_utf8(bytes))
    } else {
        Err(Error::NonUtf8Secret)
    }
}

/// The token of a share: its frame in base64. The token is canonical and
/// holds the share's frame.
pub fn encode_share(share: &Share) -> (r: String)
    ensures
        r@ == base64_encoded(share@),
        base64_decoded(r@) == Some(share@),
        token_frame(r@) == share@,
        token_is_canonical(r@),
{
    let frame = share.to_bytes();
    base64_encode(frame.as_slice())
}

/// Reads a share from its token. Fails with `MalformedShare` exactly when the
/// token is no base64 text, decodes to fewer than two bytes, or decodes to a
/// frame whose x-coordinate is zero.
pub fn decode_share(token: &str) -> (r: Result<Share, Error>)
    ensures
        match r {
            Ok(share) => token_holds_share(token@) && share@ == token_frame(token@),
            Err(e) => !token_holds_share(token@) && e == Error::MalformedShare,
        },
{
    match base64_decode(token) {
        Some(bytes) => Share::from_bytes(bytes.as_slice()),
        None => Err(Error::MalformedShare),
    }
}

/// Reads recovered bytes as text. Fails with `NonUtf8Secret` exactly when the
/// bytes are no valid UTF-8.
pub fn secret_from_bytes(bytes: Vec<u8>) -> (r: Result<String, Error>)
    ensures
        match r {
            Ok(text) => text_of_bytes(bytes@) == Ok::<Seq<char>, Error>(text@),
            Err(e) => text_of_bytes(bytes@) == Err::<Seq<char>, Error>(e),
        },
{
    match string_from_utf8(bytes) {
        Some(text) => Ok(text),
        None => Err(Error::NonUtf8Secret),
    }
}

} // verus!
