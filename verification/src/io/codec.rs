use vstd::prelude::*;
use crate::setting::TextEncoding;

verus! {

/// The bytes of `text` in encoding `enc` (what `encoding_rs::Encoding::encode`
/// gives; characters the encoding lacks become numeric character references).
pub uninterp spec fn encoded(enc: TextEncoding, text: Seq<char>) -> Seq<u8>;

/// The text of `bytes` in encoding `enc` (what `encoding_rs::Encoding::decode`
/// gives, a byte-order mark taking precedence; malformed sequences become
/// U+FFFD).
pub uninterp spec fn decoded(enc: TextEncoding, bytes: Seq<u8>) -> Seq<char>;

/// `encoding_rs::Encoding::encode`: the bytes of `text` in `enc`.
#[verifier::external_body]
pub(crate) fn encode_text(enc: TextEncoding, text: &str) -> (b: Vec<u8>)
    ensures
        b@ == encoded(enc, text@),
{
    enc.to_encoding_rs().encode(text).0.into_owned()
}

/// `encoding_rs::Encoding::decode`: the text of `bytes` in `enc`.
#[verifier::external_body]
pub(crate) fn decode_text(enc: TextEncoding, bytes: &[u8]) -> (s: String)
    ensures
        s@ == decoded(enc, bytes@),
{
    enc.to_encoding_rs().decode(bytes).0.into_owned()
}

} // verus!
