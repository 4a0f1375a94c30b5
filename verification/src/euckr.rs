//! Entry names on disk are EUC-KR encoded. The codec itself comes from the
//! `encoding_rs` crate; its results are named here and the rest of the
//! library reasons over those names.

use vstd::prelude::*;

verus! {

/// The characters that EUC-KR decoding yields for `bytes`.
pub uninterp spec fn euc_kr_str(bytes: Seq<u8>) -> Seq<char>;

/// The bytes that EUC-KR encoding yields for `s`.
pub uninterp spec fn euc_kr_bytes(s: Seq<char>) -> Seq<u8>;

/// Relies on `encoding_rs::EUC_KR.decode_without_bom_handling`: the decoded
/// text is a function of the input bytes alone, and EUC-KR is
/// ASCII-compatible, so an input of bytes below 0x80 decodes to exactly
/// those characters.
#[verifier::external_body]
pub fn decode_name(bytes: &Vec<u8>) -> (r: String)
    ensures
        r@ == euc_kr_str(bytes@),
        (forall|i: int| 0 <= i < bytes@.len() ==> bytes@[i] < 0x80) ==> r@ == bytes@.map_values(
            |b: u8| b as char,
        ),
{
    let (cow, _had_errors) = encoding_rs::EUC_KR.decode_without_bom_handling(bytes.as_slice());
    cow.into_owned()
}

/// Relies on `encoding_rs::EUC_KR.encode`: the encoded bytes are a function
/// of the input text alone, and EUC-KR is ASCII-compatible, so text made of
/// characters below 0x80 encodes to exactly those bytes.
#[verifier::external_body]
pub fn encode_name(name: &str) -> (r: Vec<u8>)
    ensures
        r@ == euc_kr_bytes(name@),
        (forall|i: int| 0 <= i < name@.len() ==> (name@[i] as u32) < 0x80) ==> r@
            == name@.map_values(|c: char| c as u8),
{
    let (cow, _encoding, _had_errors) = encoding_rs::EUC_KR.encode(name);
    cow.into_owned()
}

} // verus!
