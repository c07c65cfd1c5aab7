use vstd::prelude::*;

use crate::error::QoiError;

verus! {

/// One tagged unit of the QOI byte stream: a literal color, a delta from the
/// previous pixel, a cache hit, or a run of identical pixels.
#[derive(Clone, Copy, PartialEq, Eq, Structural, Debug)]
pub enum Chunk {
    /// 4 bytes: tag 0b11111110, then literal red, green, blue.
    Rgb(u8, u8, u8),
    /// 5 bytes: tag 0b11111111, then literal red, green, blue, alpha.
    Rgba(u8, u8, u8, u8),
    /// 1 byte: tag 0b00, then a 6-bit slot (0..63) into the color cache.
    Index(u8),
    /// 1 byte: tag 0b01, then three 2-bit per-channel deltas, each biased
    /// by +2 (true range -2..1).
    Diff(u8, u8, u8),
    /// 2 bytes: tag 0b10, then a 6-bit green delta biased by +32, then a
    /// 4-bit red and blue delta relative to the green delta, biased by +8.
    Luma(u8, u8, u8),
    /// 1 byte: tag 0b11, then the run length minus one (0..61). Values 62
    /// and 63 are reserved: they would collide with the Rgb and Rgba tags.
    Run(u8),
}

/// The bit-packed fields a chunk may carry without spilling into its tag.
pub open spec fn chunk_wf(ch: Chunk) -> bool {
    match ch {
        Chunk::Rgb(_, _, _) => true,
        Chunk::Rgba(_, _, _, _) => true,
        Chunk::Index(i) => i < 64,
        Chunk::Diff(dr, dg, db) => dr < 4 && dg < 4 && db < 4,
        Chunk::Luma(dg, dr_dg, db_dg) => dg < 64 && dr_dg < 16 && db_dg < 16,
        Chunk::Run(count) => count < 62,
    }
}

/// The exact serialization of one chunk, per the QOI bit-packing table.
pub open spec fn spec_chunk_bytes(ch: Chunk) -> Seq<u8> {
    match ch {
        Chunk::Rgb(r, g, b) => seq![0xfeu8, r, g, b],
        Chunk::Rgba(r, g, b, a) => seq![0xffu8, r, g, b, a],
        Chunk::Index(index) => seq![index],
        Chunk::Diff(dr, dg, db) => seq![0x40 | (dr << 4) | (dg << 2) | db],
        Chunk::Luma(dg, dr_dg, db_dg) => seq![0x80 | dg, (dr_dg << 4) | db_dg],
        Chunk::Run(count) => seq![0xc0 | count],
    }
}

/// Reads one chunk from the front of `bytes`, returning it and how many
/// bytes it occupies; `None` when the required bytes are missing. The two
/// exact-match tags take priority over the two-bit prefix tags.
pub open spec fn spec_parse_chunk(bytes: Seq<u8>) -> Option<(Chunk, int)> {
    if bytes.len() < 1 {
        None
    } else {
        let b0 = bytes[0];
        if b0 == 0xfe {
            if bytes.len() >= 4 {
                Some((Chunk::Rgb(bytes[1], bytes[2], bytes[3]), 4))
            } else {
                None
            }
        } else if b0 == 0xff {
            if bytes.len() >= 5 {
                Some((Chunk::Rgba(bytes[1], bytes[2], bytes[3], bytes[4]), 5))
            } else {
                None
            }
        } else if b0 & 0xc0 == 0x00 {
            Some((Chunk::Index(b0 & 0x3f), 1))
        } else if b0 & 0xc0 == 0x40 {
            Some((Chunk::Diff((b0 & 0x30) >> 4, (b0 & 0x0c) >> 2, b0 & 0x03), 1))
        } else if b0 & 0xc0 == 0x80 {
            if bytes.len() >= 2 {
                Some((Chunk::Luma(b0 & 0x3f, (bytes[1] & 0xf0) >> 4, bytes[1] & 0x0f), 2))
            } else {
                None
            }
        } else {
            Some((Chunk::Run(b0 & 0x3f), 1))
        }
    }
}

impl Chunk {
    /// Serializes this chunk; the exact inverse of parsing. Diff and Luma
    /// fields are assumed already bias-encoded by the caller.
    pub fn to_bytes(&self) -> (v: Vec<u8>)
        ensures
            v@ == spec_chunk_bytes(*self),
    {
        match self {
            Chunk::Rgb(r, g, b) => {
                let mut v: Vec<u8> = Vec::new();
                v.push(0xfe);
                v.push(*r);
                v.push(*g);
                v.push(*b);
                proof {
                    assert(v@ =~= spec_chunk_bytes(*self));
                }
                v
            },
            Chunk::Rgba(r, g, b, a) => {
                let mut v: Vec<u8> = Vec::new();
                v.push(0xff);
                v.push(*r);
                v.push(*g);
                v.push(*b);
                v.push(*a);
                proof {
                    assert(v@ =~= spec_chunk_bytes(*self));
                }
                v
            },
            Chunk::Index(index) => {
                let mut v: Vec<u8> = Vec::new();
                v.push(*index);
                proof {
                    assert(v@ =~= spec_chunk_bytes(*self));
                }
                v
            },
            Chunk::Diff(dr, dg, db) => {
                let mut v: Vec<u8> = Vec::new();
                v.push(0x40 | (*dr << 4) | (*dg << 2) | *db);
                proof {
                    assert(v@ =~= spec_chunk_bytes(*self));
                }
                v
            },
            Chunk::Luma(dg, dr_dg, db_dg) => {
                let mut v: Vec<u8> = Vec::new();
                v.push(0x80 | *dg);
                v.push((*dr_dg << 4) | *db_dg);
                proof {
                    assert(v@ =~= spec_chunk_bytes(*self));
                }
                v
            },
            Chunk::Run(count) => {
                let mut v: Vec<u8> = Vec::new();
                v.push(0xc0 | *count);
                proof {
                    assert(v@ =~= spec_chunk_bytes(*self));
                }
                v
            },
        }
    }

    /// Parses one chunk from `bytes` starting at `i`; returns the chunk and
    /// the index just past it.
    pub fn parse(bytes: &[u8], i: usize) -> (r: Result<(Chunk, usize), QoiError>)
        requires
            i <= bytes@.len(),
        ensures
            match r {
                Ok((ch, j)) => i < j <= bytes@.len() && spec_parse_chunk(bytes@.skip(i as int))
                    == Some((ch, j - i)),
                Err(e) => e == QoiError::TruncatedInput && spec_parse_chunk(
                    bytes@.skip(i as int),
                ) is None,
            },
    {
        let ghost tail = bytes@.skip(i as int);
        if i >= bytes.len() {
            return Err(QoiError::TruncatedInput);
        }
        let first = bytes[i];
        proof {
            assert(tail[0] == bytes@[i as int]);
        }
        if first == 0xfe {
            if bytes.len() - i < 4 {
                return Err(QoiError::TruncatedInput);
            }
            proof {
                assert(tail[1] == bytes@[i + 1]);
                assert(tail[2] == bytes@[i + 2]);
                assert(tail[3] == bytes@[i + 3]);
            }
            return Ok((Chunk::Rgb(bytes[i + 1], bytes[i + 2], bytes[i + 3]), i + 4));
        }
        if first == 0xff {
            if bytes.len() - i < 5 {
                return Err(QoiError::TruncatedInput);
            }
            proof {
                assert(tail[1] == bytes@[i + 1]);
                assert(tail[2] == bytes@[i + 2]);
                assert(tail[3] == bytes@[i + 3]);
                assert(tail[4] == bytes@[i + 4]);
            }
            return Ok((
                Chunk::Rgba(bytes[i + 1], bytes[i + 2], bytes[i + 3], bytes[i + 4]),
                i + 5,
            ));
        }
        if first & 0xc0 == 0x00 {
            return Ok((Chunk::Index(first & 0x3f), i + 1));
        }
        if first & 0xc0 == 0x40 {
            return Ok((Chunk::Diff((first & 0x30) >> 4, (first & 0x0c) >> 2, first & 0x03), i + 1));
        }
        if first & 0xc0 == 0x80 {
            if bytes.len() - i < 2 {
                return Err(QoiError::TruncatedInput);
            }
            proof {
                assert(tail[1] == bytes@[i + 1]);
            }
            return Ok((
                Chunk::Luma(first & 0x3f, (bytes[i + 1] & 0xf0) >> 4, bytes[i + 1] & 0x0f),
                i + 2,
            ));
        }
        if first & 0xc0 == 0xc0 {
            return Ok((Chunk::Run(first & 0x3f), i + 1));
        }
        proof {
            assert(false) by (bit_vector)
                requires
                    first & 0xc0 != 0x00 && first & 0xc0 != 0x40 && first & 0xc0 != 0x80 && first
                        & 0xc0 != 0xc0,
            ;
        }
        Err(QoiError::InvalidTag)
    }
}

/// Serializing a well-formed chunk and parsing it back, with anything after
/// it, gives the same chunk and consumes exactly its bytes.
pub proof fn lemma_chunk_round_trip(ch: Chunk, rest: Seq<u8>)
    requires
        chunk_wf(ch),
    ensures
        spec_parse_chunk(spec_chunk_bytes(ch) + rest) == Some((
            ch,
            spec_chunk_bytes(ch).len() as int,
        )),
        (spec_chunk_bytes(ch) + rest).skip(spec_chunk_bytes(ch).len() as int) =~= rest,
{
    let bs = spec_chunk_bytes(ch);
    let all = bs + rest;
    match ch {
        Chunk::Rgb(r, g, b) => {
            assert(all[0] == 0xfe && all[1] == r && all[2] == g && all[3] == b);
        },
        Chunk::Rgba(r, g, b, a) => {
            assert(all[0] == 0xff && all[1] == r && all[2] == g && all[3] == b && all[4] == a);
        },
        Chunk::Index(index) => {
            assert(all[0] == index);
            assert(index != 0xfe && index != 0xff && index & 0xc0 == 0x00 && index & 0x3f == index)
                by (bit_vector)
                requires
                    index < 64,
            ;
        },
        Chunk::Diff(dr, dg, db) => {
            let b0 = 0x40 | (dr << 4) | (dg << 2) | db;
            assert(all[0] == b0);
            assert(b0 != 0xfe && b0 != 0xff && b0 & 0xc0 != 0x00 && b0 & 0xc0 == 0x40 && (b0
                & 0x30) >> 4 == dr && (b0 & 0x0c) >> 2 == dg && b0 & 0x03 == db) by (bit_vector)
                requires
                    b0 == 0x40 | (dr << 4) | (dg << 2) | db,
                    dr < 4,
                    dg < 4,
                    db < 4,
            ;
        },
        Chunk::Luma(dg, dr_dg, db_dg) => {
            let b0 = 0x80 | dg;
            let b1 = (dr_dg << 4) | db_dg;
            assert(all[0] == b0 && all[1] == b1);
            assert(b0 != 0xfe && b0 != 0xff && b0 & 0xc0 != 0x00 && b0 & 0xc0 != 0x40 && b0 & 0xc0
                == 0x80 && b0 & 0x3f == dg && (b1 & 0xf0) >> 4 == dr_dg && b1 & 0x0f == db_dg)
                by (bit_vector)
                requires
                    b0 == 0x80 | dg,
                    b1 == (dr_dg << 4) | db_dg,
                    dg < 64,
                    dr_dg < 16,
                    db_dg < 16,
            ;
        },
        Chunk::Run(count) => {
            let b0 = 0xc0 | count;
            assert(all[0] == b0);
            assert(b0 != 0xfe && b0 != 0xff && b0 & 0xc0 != 0x00 && b0 & 0xc0 != 0x40 && b0 & 0xc0
                != 0x80 && b0 & 0x3f == count) by (bit_vector)
                requires
                    b0 == 0xc0 | count,
                    count < 62,
            ;
        },
    }
}

} // verus!
