//! Bytes as text.
//!
//! Names on a Btrfs volume are bytes and need not be UTF-8. Where one has to
//! be shown, the two functions here turn it into text the way the standard
//! library does.

use vstd::prelude::*;

verus! {

/// `b` read as UTF-8, with a replacement character for what is not.
pub uninterp spec fn lossy(b: Seq<u8>) -> Seq<char>;

/// `String::from_utf8_lossy`. Claimed: the answer is a function of the bytes,
/// and bytes that are valid UTF-8 come through as the text they encode.
#[verifier::external_body]
pub(crate) fn lossy_text(b: &[u8]) -> (out: String)
    ensures
        out@ == lossy(b@),
        vstd::utf8::valid_utf8(b@) ==> out@ == vstd::utf8::decode_utf8(b@),
{
    String::from_utf8_lossy(b).into_owned()
}

/// `s` between quotation marks, with what cannot be printed escaped.
pub uninterp spec fn quoted(s: Seq<char>) -> Seq<char>;

/// The `Debug` form of a string. Claimed: the answer is a function of the
/// string's characters.
#[verifier::external_body]
pub(crate) fn quoted_text(s: &str) -> (out: String)
    ensures
        out@ == quoted(s@),
{
    format!("{s:?}")
}

} // verus!
