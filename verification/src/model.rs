use vstd::prelude::*;

use crate::chunk::{spec_parse_chunk, chunk_wf, Chunk};
use crate::color::{index_position, spec_index_position, Color};

verus! {

/// The pixels one chunk expands to, given the previous pixel and the 64-slot
/// color cache. Every chunk yields exactly one pixel except Run, which
/// yields count + 1 copies of the previous pixel. Channel arithmetic wraps
/// modulo 256 on purpose: deltas are stored wrapped.
pub open spec fn spec_apply(ch: Chunk, prev: Color, cache: Seq<Color>) -> Seq<Color>
    recommends
        chunk_wf(ch),
        cache.len() == 64,
{
    match ch {
        Chunk::Rgb(r, g, b) => seq![Color { r, g, b, a: prev.a }],
        Chunk::Rgba(r, g, b, a) => seq![Color { r, g, b, a }],
        Chunk::Index(index) => seq![cache[index as int]],
        Chunk::Diff(dr, dg, db) => seq![
            Color {
                r: prev.r.wrapping_add(dr).wrapping_sub(2),
                g: prev.g.wrapping_add(dg).wrapping_sub(2),
                b: prev.b.wrapping_add(db).wrapping_sub(2),
                a: prev.a,
            },
        ],
        Chunk::Luma(dg, dr_dg, db_dg) => seq![
            Color {
                r: prev.r.wrapping_add(dr_dg).wrapping_add(dg).wrapping_sub(40),
                g: prev.g.wrapping_add(dg).wrapping_sub(32),
                b: prev.b.wrapping_add(db_dg).wrapping_add(dg).wrapping_sub(40),
                a: prev.a,
            },
        ],
        Chunk::Run(count) => Seq::new(count as nat + 1, |i: int| prev),
    }
}

/// The previous pixel after a chunk: the last pixel it produced.
pub open spec fn spec_next_prev(ch: Chunk, prev: Color, cache: Seq<Color>) -> Color {
    spec_apply(ch, prev, cache).last()
}

/// Whether a chunk writes the cache: every chunk but Index does. An Index
/// pixel is by definition already in its slot; a Run rewrite of the previous
/// pixel is kept because the encoder's first run flush mirrors it.
pub open spec fn spec_should_update(ch: Chunk) -> bool {
    !(ch is Index)
}

/// The cache after a chunk: unchanged for Index, else the last produced
/// pixel overwrites its hash slot.
pub open spec fn spec_next_cache(ch: Chunk, prev: Color, cache: Seq<Color>) -> Seq<Color> {
    if ch is Index {
        cache
    } else {
        let p = spec_next_prev(ch, prev, cache);
        cache.update(spec_index_position(p), p)
    }
}

/// Every chunk the byte grammar yields has in-range fields and takes at
/// least one byte.
pub proof fn lemma_parse_chunk_wf(bytes: Seq<u8>)
    ensures
        spec_parse_chunk(bytes) matches Some((ch, n)) ==> chunk_wf(ch) && 1 <= n <= bytes.len(),
{
    if bytes.len() >= 1 {
        let b0 = bytes[0];
        assert(b0 & 0x3f < 64 && (b0 & 0x30) >> 4 < 4 && (b0 & 0x0c) >> 2 < 4 && b0 & 0x03 < 4)
            by (bit_vector);
        if bytes.len() >= 2 {
            let b1 = bytes[1];
            assert((b1 & 0xf0) >> 4 < 16 && b1 & 0x0f < 16) by (bit_vector);
        }
        assert((b0 & 0xc0 != 0x00 && b0 & 0xc0 != 0x40 && b0 & 0xc0 != 0x80 && b0 != 0xfe && b0
            != 0xff) ==> b0 & 0x3f < 62) by (bit_vector);
    }
}

impl Chunk {
    /// Whether this chunk is Index(0), one of the eight chunks the end
    /// marker's bytes decode to.
    pub fn is_0(&self) -> (r: bool)
        ensures
            r == (*self == Chunk::Index(0u8)),
    {
        *self == Chunk::Index(0)
    }

    /// Whether this chunk is Index(1), the last chunk the end marker's
    /// bytes decode to.
    pub fn is_1(&self) -> (r: bool)
        ensures
            r == (*self == Chunk::Index(1u8)),
    {
        *self == Chunk::Index(1)
    }

    /// Whether decoding this chunk writes the produced pixel into the cache.
    pub fn should_update_array(&self) -> (r: bool)
        ensures
            r == spec_should_update(*self),
    {
        !matches!(self, Chunk::Index(_))
    }

    /// Expands this chunk into the pixels it stands for.
    pub fn to_color(&self, previous: &Color, array: &Vec<Color>) -> (v: Vec<Color>)
        requires
            chunk_wf(*self),
            array@.len() == 64,
        ensures
            v@ == spec_apply(*self, *previous, array@),
            v@.len() >= 1,
    {
        let mut v: Vec<Color> = Vec::new();
        match self {
            Chunk::Rgb(r, g, b) => {
                v.push(Color { r: *r, g: *g, b: *b, a: previous.a });
            },
            Chunk::Rgba(r, g, b, a) => {
                v.push(Color { r: *r, g: *g, b: *b, a: *a });
            },
            Chunk::Index(index) => {
                v.push(array[*index as usize]);
            },
            Chunk::Diff(dr, dg, db) => {
                v.push(
                    Color {
                        r: previous.r.wrapping_add(*dr).wrapping_sub(2),
                        g: previous.g.wrapping_add(*dg).wrapping_sub(2),
                        b: previous.b.wrapping_add(*db).wrapping_sub(2),
                        a: previous.a,
                    },
                );
            },
            Chunk::Luma(dg, dr_dg, db_dg) => {
                v.push(
                    Color {
                        r: previous.r.wrapping_add(*dr_dg).wrapping_add(*dg).wrapping_sub(40),
                        g: previous.g.wrapping_add(*dg).wrapping_sub(32),
                        b: previous.b.wrapping_add(*db_dg).wrapping_add(*dg).wrapping_sub(40),
                        a: previous.a,
                    },
                );
            },
            Chunk::Run(count) => {
                let mut k: usize = 0;
                let n1 = *count as usize + 1;
                while k < n1
                    invariant
                        k <= n1,
                        n1 == *count as usize + 1,
                        v@.len() == k,
                        forall|i: int| 0 <= i < k ==> v@[i] == *previous,
                    decreases n1 - k,
                {
                    v.push(*previous);
                    k += 1;
                }
            },
        }
        proof {
            assert(v@ =~= spec_apply(*self, *previous, array@));
        }
        v
    }
}

/// Writes a pixel into its hash slot of the cache.
pub fn update_cache(array: &mut Vec<Color>, pixel: &Color)
    requires
        old(array)@.len() == 64,
    ensures
        final(array)@ == old(array)@.update(spec_index_position(*pixel), *pixel),
{
    let pos = index_position(pixel);
    array[pos] = *pixel;
}

} // verus!
