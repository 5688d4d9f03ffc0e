//! GBK text, through the `encoding_rs` crate.

use vstd::prelude::*;

use encoding_rs::GBK;

verus! {

/// What `encoding_rs::GBK.decode` gives for `bytes`: the text (after BOM
/// sniffing, with malformed sequences replaced by U+FFFD) and whether any
/// sequence was malformed.
pub uninterp spec fn gbk_decoded(bytes: Seq<u8>) -> (Seq<char>, bool);

/// What `encoding_rs::GBK.encode` gives for `text`: the bytes (with
/// unmappable characters written as HTML numeric character references) and
/// whether any character was unmappable.
pub uninterp spec fn gbk_encoded(text: Seq<char>) -> (Seq<u8>, bool);

/// Bytes that are all ASCII.
pub open spec fn all_ascii_bytes(b: Seq<u8>) -> bool {
    forall|i: int| 0 <= i < b.len() ==> #[trigger] b[i] < 0x80
}

/// Text that is all ASCII.
pub open spec fn all_ascii_chars(t: Seq<char>) -> bool {
    forall|i: int| 0 <= i < t.len() ==> (#[trigger] t[i] as u32) < 0x80
}

/// Calls `encoding_rs::Encoding::decode` on `GBK`. The contract ties the
/// text and the error flag to `bytes` by the name `gbk_decoded`; the GBK
/// tables themselves are not stated, only that all-ASCII input (which has
/// no byte-order mark) comes back as the same characters without errors,
/// as the crate's ASCII fast path gives it. The crate sizes its buffer with
/// `checked_mul(3, ..)` and panics on overflow, hence the bound.
#[verifier::external_body]
pub(crate) fn gbk_decode(bytes: &[u8]) -> (r: (String, bool))
    requires
        bytes@.len() <= usize::MAX / 4,
    ensures
        (r.0@, r.1) == gbk_decoded(bytes@),
        all_ascii_bytes(bytes@) ==> r.0@ == bytes@.map_values(|b: u8| b as char) && !r.1,
{
    let (text, _, had_errors) = GBK.decode(bytes);
    (text.into_owned(), had_errors)
}

/// Calls `encoding_rs::Encoding::encode` on `GBK`. The contract ties the
/// bytes and the error flag to `text` by the name `gbk_encoded`; the GBK
/// tables themselves are not stated, only that all-ASCII text comes back as
/// the same bytes without errors, as the crate's ASCII fast path gives it.
/// The crate sizes its buffer with
/// checked arithmetic and `next_power_of_two` and panics on overflow, hence
/// the bound on the UTF-8 length of `text`.
#[verifier::external_body]
pub(crate) fn gbk_encode(text: &str) -> (r: (Vec<u8>, bool))
    requires
        vstd::utf8::encode_utf8(text@).len() <= usize::MAX / 8,
    ensures
        (r.0@, r.1) == gbk_encoded(text@),
        all_ascii_chars(text@) ==> r.0@ == text@.map_values(|c: char| c as u8) && !r.1,
{
    let (bytes, _, had_errors) = GBK.encode(text);
    (bytes.into_owned(), had_errors)
}

} // verus!
