//! The fixed 256-byte preamble of an archive: signature, version,
//! encryption flag and the key-check bytes.

use vstd::prelude::*;

use crate::codec::{
    append_zeros, append_bytes, push_u32_le, read_bytes, read_u32_le, u32_le, u32_of_le,
};
use crate::Error;

verus! {

/// The 30 signature bytes: the ASCII text `JoyMax File Manager!` and a line
/// feed, NUL-padded.
pub open spec fn pk2_signature() -> Seq<u8> {
    seq![
        0x4Au8, 0x6Fu8, 0x79u8, 0x4Du8, 0x61u8, 0x78u8, 0x20u8, 0x46u8, 0x69u8, 0x6Cu8, 0x65u8,
        0x20u8, 0x4Du8, 0x61u8, 0x6Eu8, 0x61u8, 0x67u8, 0x65u8, 0x72u8, 0x21u8, 0x0Au8, 0u8,
        0u8, 0u8, 0u8, 0u8, 0u8, 0u8, 0u8, 0u8,
    ]
}

/// The signature bytes as a vector.
pub fn signature_vec() -> (r: Vec<u8>)
    ensures
        r@ == pk2_signature(),
{
    let r: Vec<u8> = vec![
        0x4Au8, 0x6Fu8, 0x79u8, 0x4Du8, 0x61u8, 0x78u8, 0x20u8, 0x46u8, 0x69u8, 0x6Cu8, 0x65u8,
        0x20u8, 0x4Du8, 0x61u8, 0x6Eu8, 0x61u8, 0x67u8, 0x65u8, 0x72u8, 0x21u8, 0x0Au8, 0u8,
        0u8, 0u8, 0u8, 0u8, 0u8, 0u8, 0u8, 0u8,
    ];
    assert(r@ =~= pk2_signature());
    r
}

/// The archive header. The encryption flag is kept as its raw byte so that
/// its validation can follow the signature and version checks in order.
pub struct PackHeader {
    pub signature: Vec<u8>,
    pub version: u32,
    pub flag: u8,
    pub verify: Vec<u8>,
}

/// Validity of a header: field sizes as on disk.
pub open spec fn header_wf(h: &PackHeader) -> bool {
    h.signature@.len() == 30 && h.verify@.len() == 16
}

/// The 256 bytes of a header on disk: signature, version, three pad bytes,
/// the encryption flag, two pad bytes, the key-verify field, and reserved
/// padding.
pub open spec fn header_bytes(h: &PackHeader) -> Seq<u8>
    recommends
        header_wf(h),
{
    h.signature@ + u32_le(h.version) + seq![0u8, 0u8, 0u8] + seq![h.flag] + seq![0u8, 0u8]
        + h.verify@ + Seq::new(200, |i: int| 0u8)
}

impl PackHeader {
    /// Appends the 256-byte encoding of this header to `out`.
    pub fn to_writer(&self, out: &mut Vec<u8>)
        requires
            header_wf(self),
        ensures
            final(out)@ == old(out)@ + header_bytes(self),
            final(out)@.len() == old(out)@.len() + 256,
    {
        let ghost base = out@;
        append_bytes(out, &self.signature);
        push_u32_le(out, self.version);
        out.push(0u8);
        out.push(0u8);
        out.push(0u8);
        out.push(self.flag);
        out.push(0u8);
        out.push(0u8);
        append_bytes(out, &self.verify);
        append_zeros(out, 200);
        assert(out@ =~= base + header_bytes(self));
    }

    /// Decodes a header from the head of an archive image. An image shorter
    /// than a header is a corrupted archive; the flag byte is handed back
    /// raw, for the caller to validate in order.
    pub fn from_reader(data: &Vec<u8>) -> (r: Result<PackHeader, Error>)
        ensures
            data@.len() >= 256 ==> (r matches Ok(h) && header_wf(&h) && h.signature@
                == data@.subrange(0, 30) && h.version == u32_of_le(data@.subrange(30, 34))
                && h.flag == data@[37] && h.verify@ == data@.subrange(40, 56)),
            data@.len() < 256 ==> r == Err::<PackHeader, Error>(Error::CorruptedFile),
    {
        if data.len() < 256 {
            return Err(Error::CorruptedFile);
        }
        let signature = read_bytes(data, 0, 30);
        let version = read_u32_le(data, 30);
        let flag = data[37];
        let verify = read_bytes(data, 40, 16);
        Ok(PackHeader { signature, version, flag, verify })
    }
}

} // verus!
