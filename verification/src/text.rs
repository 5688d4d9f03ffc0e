//! Text files in UTF-8 (with or without a byte-order mark) or GBK.

use vstd::prelude::*;
use vstd::utf8::{decode_utf8, encode_utf8, valid_utf8};

use crate::edb::bytes::push_all;
use crate::error::Error;
use crate::gbk::{gbk_decode, gbk_decoded, gbk_encode, gbk_encoded};

verus! {

/// How a text file was, or is to be, encoded.
#[derive(Debug, Clone, Copy, PartialEq, Eq, Structural)]
pub enum TextEncoding {
    Utf8,
    Utf8Bom,
    Gbk,
}

/// The UTF-8 byte-order mark.
pub open spec fn bom() -> Seq<u8> {
    seq![0xefu8, 0xbbu8, 0xbfu8]
}

/// Calls `std::str::from_utf8`: `Some` exactly when the bytes are valid
/// UTF-8, holding the characters they encode.
#[verifier::external_body]
pub(crate) fn utf8_decode(bytes: &[u8]) -> (r: Option<String>)
    ensures
        r is Some <==> valid_utf8(bytes@),
        r matches Some(s) ==> s@ == decode_utf8(bytes@),
{
    match std::str::from_utf8(bytes) {
        Ok(s) => Some(s.to_owned()),
        Err(_) => None,
    }
}

/// What `decode_text` gives for `b`: UTF-8 after a byte-order mark, else
/// UTF-8, else GBK without malformed sequences.
pub open spec fn spec_decode_text(b: Seq<u8>) -> Result<(Seq<char>, TextEncoding), Error> {
    if b.len() >= 3 && b.subrange(0, 3) == bom() {
        let rest = b.subrange(3, b.len() as int);
        if valid_utf8(rest) {
            Ok((decode_utf8(rest), TextEncoding::Utf8Bom))
        } else {
            Err(Error::InvalidText)
        }
    } else if valid_utf8(b) {
        Ok((decode_utf8(b), TextEncoding::Utf8))
    } else if gbk_decoded(b).1 {
        Err(Error::InvalidText)
    } else {
        Ok((gbk_decoded(b).0, TextEncoding::Gbk))
    }
}

/// A decoding result with the text as characters.
pub open spec fn decoded_view(r: Result<(String, TextEncoding), Error>) -> Result<(Seq<char>, TextEncoding), Error> {
    match r {
        Ok((s, e)) => Ok((s@, e)),
        Err(e) => Err(e),
    }
}

/// Decodes a text file: UTF-8 after a byte-order mark, else UTF-8, else GBK.
pub fn decode_text(bytes: &[u8]) -> (r: Result<(String, TextEncoding), Error>)
    requires
        bytes@.len() <= usize::MAX / 4,
    ensures
        decoded_view(r) == spec_decode_text(bytes@),
{
    if bytes.len() >= 3 && bytes[0] == 0xef && bytes[1] == 0xbb && bytes[2] == 0xbf {
        assert(bytes@.subrange(0, 3) =~= bom());
        let rest = slice_from(bytes, 3);
        return match utf8_decode(rest) {
            Some(text) => Ok((text, TextEncoding::Utf8Bom)),
            None => Err(Error::InvalidText),
        };
    }
    proof {
        if bytes@.len() >= 3 && bytes@.subrange(0, 3) == bom() {
            assert(bytes@.subrange(0, 3)[0] == bytes@[0]);
            assert(bytes@.subrange(0, 3)[1] == bytes@[1]);
            assert(bytes@.subrange(0, 3)[2] == bytes@[2]);
        }
    }
    if let Some(text) = utf8_decode(bytes) {
        return Ok((text, TextEncoding::Utf8));
    }
    let (text, had_errors) = gbk_decode(bytes);
    if had_errors {
        Err(Error::InvalidText)
    } else {
        Ok((text, TextEncoding::Gbk))
    }
}

/// What `encode_text` gives for `text`.
pub open spec fn spec_encode_text(text: Seq<char>, encoding: TextEncoding) -> Result<Seq<u8>, Error> {
    match encoding {
        TextEncoding::Utf8 => Ok(encode_utf8(text)),
        TextEncoding::Utf8Bom => Ok(bom() + encode_utf8(text)),
        TextEncoding::Gbk => if gbk_encoded(text).1 {
            Err(Error::UnrepresentableText(TextEncoding::Gbk))
        } else {
            Ok(gbk_encoded(text).0)
        },
    }
}

/// Encodes text for a file: UTF-8, UTF-8 after a byte-order mark, or GBK.
pub fn encode_text(text: &str, encoding: TextEncoding) -> (r: Result<Vec<u8>, Error>)
    requires
        encoding is Gbk ==> encode_utf8(text@).len() <= usize::MAX / 8,
    ensures
        match r {
            Ok(v) => spec_encode_text(text@, encoding) == Ok::<Seq<u8>, Error>(v@),
            Err(e) => spec_encode_text(text@, encoding) == Err::<Seq<u8>, Error>(e),
        },
{
    match encoding {
        TextEncoding::Utf8 => {
            let mut out: Vec<u8> = Vec::new();
            push_all(&mut out, text.as_bytes());
            assert(out@ =~= encode_utf8(text@));
            Ok(out)
        },
        TextEncoding::Utf8Bom => {
            let mut out: Vec<u8> = Vec::new();
            out.push(0xef);
            out.push(0xbb);
            out.push(0xbf);
            push_all(&mut out, text.as_bytes());
            assert(out@ =~= bom() + encode_utf8(text@));
            Ok(out)
        },
        TextEncoding::Gbk => {
            let (encoded, had_errors) = gbk_encode(text);
            if had_errors {
                Err(Error::UnrepresentableText(encoding))
            } else {
                Ok(encoded)
            }
        },
    }
}

/// `bytes[start..]`.
fn slice_from(bytes: &[u8], start: usize) -> (r: &[u8])
    requires
        start <= bytes@.len(),
    ensures
        r@ == bytes@.subrange(start as int, bytes@.len() as int),
{
    &bytes[start..bytes.len()]
}

} // verus!
