//! Script text decoding.
//!
//! Script files arrive as bytes in either UTF-8 or GBK. Decoding tries
//! strict UTF-8 first, then UTF-8 behind a byte-order mark, then GBK,
//! and falls back to a lossy UTF-8 reading.

use vstd::prelude::*;
use vstd::utf8::{decode_utf8, valid_utf8};

verus! {

/// What `encoding_rs`'s GBK decoding returns on given bytes: the decoded
/// text and whether malformed sequences were replaced.
pub uninterp spec fn gbk_decoding(bytes: Seq<u8>) -> (Seq<char>, bool);

/// Relies on `encoding_rs::GBK::decode`: a function of the bytes alone,
/// returning the decoded text and whether malformed sequences were met.
#[verifier::external_body]
fn gbk_decode(bytes: &[u8]) -> (r: (String, bool))
    ensures
        r.0@ == gbk_decoding(bytes@).0,
        r.1 == gbk_decoding(bytes@).1,
{
    let (decoded, _, had_errors) = encoding_rs::GBK.decode(bytes);
    (decoded.into_owned(), had_errors)
}

/// What `encoding_rs`'s UTF-8 decoding returns on given bytes: the text,
/// with malformed sequences replaced.
pub uninterp spec fn utf8_lossy_decoding(bytes: Seq<u8>) -> Seq<char>;

/// Relies on `encoding_rs::UTF_8::decode`: a function of the bytes
/// alone; on valid UTF-8 without a byte-order mark it is the strict
/// decoding.
#[verifier::external_body]
fn utf8_lossy_decode(bytes: &[u8]) -> (r: String)
    ensures
        r@ == utf8_lossy_decoding(bytes@),
{
    let (decoded, _, _) = encoding_rs::UTF_8.decode(bytes);
    decoded.into_owned()
}

/// Relies on `std::str::from_utf8`: it succeeds exactly on valid UTF-8
/// and returns its decoding.
#[verifier::external_body]
fn try_utf8(bytes: &[u8]) -> (r: Option<String>)
    ensures
        r is Some <==> valid_utf8(bytes@),
        r matches Some(s) ==> s@ == decode_utf8(bytes@),
{
    match std::str::from_utf8(bytes) {
        Ok(s) => Some(s.to_string()),
        Err(_) => None,
    }
}

/// The UTF-8 byte-order mark.
pub open spec fn utf8_bom() -> Seq<u8> {
    seq![0xefu8, 0xbbu8, 0xbfu8]
}

/// What decoding yields on given bytes: strict UTF-8 when valid; else,
/// behind a byte-order mark, the strict UTF-8 of the rest when valid;
/// else GBK when it decodes cleanly; else the lossy UTF-8 reading.
pub open spec fn spec_decoded_content(bytes: Seq<u8>) -> Seq<char> {
    if valid_utf8(bytes) {
        decode_utf8(bytes)
    } else if bytes.len() >= 3 && bytes.subrange(0, 3) == utf8_bom() && valid_utf8(
        bytes.skip(3),
    ) {
        decode_utf8(bytes.skip(3))
    } else if !gbk_decoding(bytes).1 {
        gbk_decoding(bytes).0
    } else {
        utf8_lossy_decoding(bytes)
    }
}

/// The script loader's text decoding.
#[derive(Debug)]
pub struct ScriptLoader;

impl ScriptLoader {
    /// Decodes script bytes: strict UTF-8 first, then UTF-8 behind a
    /// byte-order mark, then GBK, then lossy UTF-8.
    pub fn decode_content(bytes: &[u8]) -> (r: String)
        ensures
            r@ == spec_decoded_content(bytes@),
    {
        match try_utf8(bytes) {
            Some(s) => {
                return s;
            }
            None => {}
        }
        if bytes.len() >= 3 && bytes[0] == 0xef && bytes[1] == 0xbb && bytes[2] == 0xbf {
            proof {
                assert(bytes@.subrange(0, 3) =~= utf8_bom());
            }
            let (_, rest) = bytes.split_at(3);
            proof {
                assert(rest@ == bytes@.skip(3));
            }
            match try_utf8(rest) {
                Some(s) => {
                    return s;
                }
                None => {}
            }
            let (decoded, had_errors) = gbk_decode(bytes);
            if !had_errors {
                return decoded;
            }
            return utf8_lossy_decode(bytes);
        }
        proof {
            if bytes@.len() >= 3 && bytes@.subrange(0, 3) == utf8_bom() {
                assert(bytes@.subrange(0, 3)[0] == 0xefu8);
                assert(bytes@.subrange(0, 3)[1] == 0xbbu8);
                assert(bytes@.subrange(0, 3)[2] == 0xbfu8);
            }
        }
        let (decoded, had_errors) = gbk_decode(bytes);
        if !had_errors {
            return decoded;
        }
        utf8_lossy_decode(bytes)
    }
}

} // verus!
