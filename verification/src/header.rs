use vstd::prelude::*;

use crate::error::QoiError;

verus! {

/// The fixed 14-byte QOI header: the 4-byte magic "qoif" (implicit; checked
/// on parse, emitted on serialize), big-endian width and height, a channel
/// count and a colorspace byte. The last two are informational only and are
/// not validated against the pixel data.
#[derive(Clone, Copy, PartialEq, Eq, Structural, Debug)]
pub struct Header {
    pub width: u32,
    pub height: u32,
    /// 3 for RGB, 4 for RGBA.
    pub channels: u8,
    /// 0 for sRGB with linear alpha, 1 for all channels linear.
    pub colorspace: u8,
}

/// The magic bytes "qoif".
pub open spec fn spec_magic() -> Seq<u8> {
    seq![0x71u8, 0x6fu8, 0x69u8, 0x66u8]
}

/// The big-endian bytes of a 32-bit value, most significant first.
pub open spec fn spec_be_bytes(x: u32) -> Seq<u8> {
    seq![(x >> 24) as u8, (x >> 16) as u8, (x >> 8) as u8, x as u8]
}

/// The 32-bit value read big-endian from four bytes.
pub open spec fn spec_be_u32(b0: u8, b1: u8, b2: u8, b3: u8) -> u32 {
    ((b0 as u32) << 24) | ((b1 as u32) << 16) | ((b2 as u32) << 8) | (b3 as u32)
}

/// The exact 14-byte serialization of a header.
pub open spec fn spec_header_bytes(h: Header) -> Seq<u8> {
    spec_magic() + spec_be_bytes(h.width) + spec_be_bytes(h.height) + seq![h.channels, h.colorspace]
}

/// Reads a header from the front of `bytes`. Fails with `TruncatedInput`
/// when a field boundary falls past the end, with `BadMagic` when the first
/// four bytes are not "qoif". Consumes exactly 14 bytes on success.
pub open spec fn spec_parse_header(bytes: Seq<u8>) -> Result<Header, QoiError> {
    if bytes.len() < 4 {
        Err(QoiError::TruncatedInput)
    } else if !(bytes[0] == 0x71 && bytes[1] == 0x6f && bytes[2] == 0x69 && bytes[3] == 0x66) {
        Err(QoiError::BadMagic)
    } else if bytes.len() < 14 {
        Err(QoiError::TruncatedInput)
    } else {
        Ok(
            Header {
                width: spec_be_u32(bytes[4], bytes[5], bytes[6], bytes[7]),
                height: spec_be_u32(bytes[8], bytes[9], bytes[10], bytes[11]),
                channels: bytes[12],
                colorspace: bytes[13],
            },
        )
    }
}

impl Header {
    /// Serializes this header as its exact 14 bytes.
    pub fn to_bytes(&self) -> (v: Vec<u8>)
        ensures
            v@ == spec_header_bytes(*self),
    {
        let mut v: Vec<u8> = Vec::new();
        v.push(0x71);
        v.push(0x6f);
        v.push(0x69);
        v.push(0x66);
        v.push((self.width >> 24) as u8);
        v.push((self.width >> 16) as u8);
        v.push((self.width >> 8) as u8);
        v.push(self.width as u8);
        v.push((self.height >> 24) as u8);
        v.push((self.height >> 16) as u8);
        v.push((self.height >> 8) as u8);
        v.push(self.height as u8);
        v.push(self.channels);
        v.push(self.colorspace);
        proof {
            assert(v@ =~= spec_header_bytes(*self));
        }
        v
    }

    /// Parses the 14-byte header from the front of `bytes`.
    pub fn parse(bytes: &[u8]) -> (r: Result<Header, QoiError>)
        ensures
            r == spec_parse_header(bytes@),
    {
        if bytes.len() < 4 {
            return Err(QoiError::TruncatedInput);
        }
        if !(bytes[0] == 0x71 && bytes[1] == 0x6f && bytes[2] == 0x69 && bytes[3] == 0x66) {
            return Err(QoiError::BadMagic);
        }
        if bytes.len() < 14 {
            return Err(QoiError::TruncatedInput);
        }
        let width = ((bytes[4] as u32) << 24) | ((bytes[5] as u32) << 16) | ((bytes[6] as u32) << 8)
            | (bytes[7] as u32);
        let height = ((bytes[8] as u32) << 24) | ((bytes[9] as u32) << 16) | ((bytes[10] as u32)
            << 8) | (bytes[11] as u32);
        Ok(Header { width, height, channels: bytes[12], colorspace: bytes[13] })
    }
}

/// Reassembling a 32-bit value from its big-endian bytes gives it back.
pub proof fn lemma_be_round_trip(x: u32)
    ensures
        spec_be_u32((x >> 24) as u8, (x >> 16) as u8, (x >> 8) as u8, x as u8) == x,
{
    assert(((((x >> 24) as u8) as u32) << 24) | ((((x >> 16) as u8) as u32) << 16) | ((((x
        >> 8) as u8) as u32) << 8) | ((x as u8) as u32) == x) by (bit_vector);
}

/// Header round trip: parsing a serialized header, with anything after its
/// 14 bytes, gives back exactly the same header.
pub proof fn lemma_header_round_trip(h: Header, rest: Seq<u8>)
    ensures
        spec_parse_header(spec_header_bytes(h) + rest) == Ok::<Header, QoiError>(h),
        (spec_header_bytes(h) + rest).skip(14) =~= rest,
{
    let all = spec_header_bytes(h) + rest;
    assert(all[0] == 0x71 && all[1] == 0x6f && all[2] == 0x69 && all[3] == 0x66);
    assert(all[4] == (h.width >> 24) as u8 && all[5] == (h.width >> 16) as u8 && all[6] == (h.width
        >> 8) as u8 && all[7] == h.width as u8);
    assert(all[8] == (h.height >> 24) as u8 && all[9] == (h.height >> 16) as u8 && all[10] == (
    h.height >> 8) as u8 && all[11] == h.height as u8);
    assert(all[12] == h.channels && all[13] == h.colorspace);
    lemma_be_round_trip(h.width);
    lemma_be_round_trip(h.height);
}

} // verus!
