use vstd::prelude::*;

use crate::chunk::{spec_chunk_bytes, Chunk};
use crate::color::{index_position, new_cache, spec_index_position, spec_new_cache, Color};
use crate::header::{spec_header_bytes, Header};
use crate::image::{Image, ImageV};
use crate::model::update_cache;

verus! {

/// The fixed 8-byte end marker: seven zero bytes, then one.
pub open spec fn spec_marker() -> Seq<u8> {
    seq![0u8, 0u8, 0u8, 0u8, 0u8, 0u8, 0u8, 1u8]
}

/// The Run chunks that flush a pending run of `run` identical pixels: full
/// 62-pixel chunks first, then the remainder. Each chunk stores its length
/// minus one.
pub open spec fn spec_run_chunks(run: int) -> Seq<Chunk>
    decreases run,
{
    if run <= 0 {
        Seq::empty()
    } else if run <= 62 {
        seq![Chunk::Run((run - 1) as u8)]
    } else {
        seq![Chunk::Run(61u8)] + spec_run_chunks(run - 62)
    }
}

/// The chunk the encoder picks for a new pixel `p` (one that differs from
/// the previous pixel), in priority order: cache hit, small Diff, Luma, raw
/// Rgb; raw Rgba whenever alpha changed. The biased deltas wrap modulo 256
/// on purpose.
pub open spec fn spec_pick_chunk(p: Color, prev: Color, cache: Seq<Color>) -> Chunk
    recommends
        cache.len() == 64,
{
    if cache[spec_index_position(p)] == p {
        Chunk::Index(spec_index_position(p) as u8)
    } else if p.a == prev.a {
        let dr = p.r.wrapping_add(2).wrapping_sub(prev.r);
        let dg = p.g.wrapping_add(2).wrapping_sub(prev.g);
        let db = p.b.wrapping_add(2).wrapping_sub(prev.b);
        if dr < 4 && dg < 4 && db < 4 {
            Chunk::Diff(dr, dg, db)
        } else {
            let dg2 = dg.wrapping_add(30);
            let dr_dg = dr.wrapping_add(38).wrapping_sub(dg2);
            let db_dg = db.wrapping_add(38).wrapping_sub(dg2);
            if dg2 < 64 && dr_dg < 16 && db_dg < 16 {
                Chunk::Luma(dg2, dr_dg, db_dg)
            } else {
                Chunk::Rgb(p.r, p.g, p.b)
            }
        }
    } else {
        Chunk::Rgba(p.r, p.g, p.b, p.a)
    }
}

/// The chunks the encoder emits from pixel `i` on, given its running state:
/// the previous pixel, the cache, the pending run length, and whether the
/// one-time cache write at the first run flush of the stream is still owed.
/// A pixel equal to the previous one extends the run; any other pixel first
/// flushes the run, then gets its own chunk and becomes the previous pixel
/// and a cache entry.
pub open spec fn spec_encode_loop(
    pixels: Seq<Color>,
    i: int,
    prev: Color,
    cache: Seq<Color>,
    run: int,
    first_run: bool,
) -> Seq<Chunk>
    decreases pixels.len() - i,
{
    if i < 0 || i >= pixels.len() {
        spec_run_chunks(run)
    } else {
        let p = pixels[i];
        if p == prev {
            spec_encode_loop(pixels, i + 1, prev, cache, run + 1, first_run)
        } else {
            let flushed = spec_run_chunks(run);
            let cache1 = if run > 0 && first_run {
                cache.update(spec_index_position(prev), prev)
            } else {
                cache
            };
            let first1 = if run > 0 {
                false
            } else {
                first_run
            };
            let ch = spec_pick_chunk(p, prev, cache1);
            let cache2 = cache1.update(spec_index_position(p), p);
            flushed + seq![ch] + spec_encode_loop(pixels, i + 1, p, cache2, 0, first1)
        }
    }
}

/// The chunk stream the encoder produces for a pixel sequence.
pub open spec fn spec_encode_chunks(pixels: Seq<Color>) -> Seq<Chunk> {
    spec_encode_loop(pixels, 0, Color::spec_black(), spec_new_cache(), 0, true)
}

/// The concatenated serialization of a chunk sequence.
pub open spec fn spec_chunks_bytes(chunks: Seq<Chunk>) -> Seq<u8>
    decreases chunks.len(),
{
    if chunks.len() == 0 {
        Seq::empty()
    } else {
        spec_chunk_bytes(chunks[0]) + spec_chunks_bytes(chunks.skip(1))
    }
}

/// Serialization distributes over concatenation of chunk sequences.
pub proof fn lemma_chunks_bytes_concat(a: Seq<Chunk>, b: Seq<Chunk>)
    ensures
        spec_chunks_bytes(a + b) == spec_chunks_bytes(a) + spec_chunks_bytes(b),
    decreases a.len(),
{
    if a.len() == 0 {
        assert(a + b =~= b);
        assert(spec_chunks_bytes(a) + spec_chunks_bytes(b) =~= spec_chunks_bytes(b));
    } else {
        assert((a + b).skip(1) =~= a.skip(1) + b);
        lemma_chunks_bytes_concat(a.skip(1), b);
        assert(spec_chunk_bytes(a[0]) + (spec_chunks_bytes(a.skip(1)) + spec_chunks_bytes(b)) =~= (
        spec_chunk_bytes(a[0]) + spec_chunks_bytes(a.skip(1))) + spec_chunks_bytes(b));
        assert(spec_chunks_bytes(a + b) == spec_chunk_bytes((a + b)[0]) + spec_chunks_bytes(
            (a + b).skip(1),
        ));
    }
}

/// Appends the Run chunks that flush a pending run of `run` pixels.
fn push_run_chunks(data: &mut Vec<Chunk>, run: u64)
    ensures
        final(data)@ == old(data)@ + spec_run_chunks(run as int),
{
    let mut r = run;
    while r > 0
        invariant
            data@ + spec_run_chunks(r as int) == old(data)@ + spec_run_chunks(run as int),
        decreases r,
    {
        let take = if r < 62 {
            r
        } else {
            62
        };
        let ghost data_mid = data@;
        data.push(Chunk::Run((take as u8) - 1));
        proof {
            if r <= 62 {
                assert(spec_run_chunks(r as int) =~= seq![Chunk::Run((r - 1) as u8)]);
                assert(data_mid + seq![Chunk::Run(((take as u8) - 1) as u8)] =~= data@);
                assert(data@ + spec_run_chunks(0int) =~= data@);
                assert(data@ =~= data_mid + spec_run_chunks(r as int));
            } else {
                assert(spec_run_chunks(r as int) == seq![Chunk::Run(61u8)] + spec_run_chunks(
                    r as int - 62,
                ));
                assert((data_mid + seq![Chunk::Run(61u8)]) + spec_run_chunks(r as int - 62) =~=
                data_mid + (seq![Chunk::Run(61u8)] + spec_run_chunks(r as int - 62)));
            }
        }
        r -= take;
    }
    proof {
        assert(data@ + spec_run_chunks(0int) =~= data@);
    }
}

/// Encodes a pixel sequence into its chunk stream: greedy, single pass, no
/// lookahead beyond run detection.
pub fn pixels_to_data(pixels: &Vec<Color>) -> (data: Vec<Chunk>)
    ensures
        data@ == spec_encode_chunks(pixels@),
{
    let mut data: Vec<Chunk> = Vec::new();
    let mut previous = Color::black();
    let mut array = new_cache();
    let mut run_length: u64 = 0;
    let mut first_run = true;
    let mut i: usize = 0;
    while i < pixels.len()
        invariant
            i <= pixels@.len(),
            array@.len() == 64,
            run_length <= i,
            spec_encode_chunks(pixels@) == data@ + spec_encode_loop(
                pixels@,
                i as int,
                previous,
                array@,
                run_length as int,
                first_run,
            ),
        decreases pixels@.len() - i,
    {
        let pixel = pixels[i];
        if pixel == previous {
            run_length += 1;
        } else {
            let ghost data0 = data@;
            let ghost cache0 = array@;
            let ghost run0 = run_length as int;
            let ghost fr0 = first_run;
            let ghost flushed = spec_run_chunks(run0);
            if run_length > 0 {
                push_run_chunks(&mut data, run_length);
                run_length = 0;
                if first_run {
                    update_cache(&mut array, &previous);
                    first_run = false;
                }
            }
            let ghost cache1 = array@;
            let pos = index_position(&pixel);
            let ch = if array[pos] == pixel {
                Chunk::Index(pos as u8)
            } else if pixel.a == previous.a {
                let dr = pixel.r.wrapping_add(2).wrapping_sub(previous.r);
                let dg = pixel.g.wrapping_add(2).wrapping_sub(previous.g);
                let db = pixel.b.wrapping_add(2).wrapping_sub(previous.b);
                if dr < 4 && dg < 4 && db < 4 {
                    Chunk::Diff(dr, dg, db)
                } else {
                    let dg2 = dg.wrapping_add(30);
                    let dr_dg = dr.wrapping_add(38).wrapping_sub(dg2);
                    let db_dg = db.wrapping_add(38).wrapping_sub(dg2);
                    if dg2 < 64 && dr_dg < 16 && db_dg < 16 {
                        Chunk::Luma(dg2, dr_dg, db_dg)
                    } else {
                        Chunk::Rgb(pixel.r, pixel.g, pixel.b)
                    }
                }
            } else {
                Chunk::Rgba(pixel.r, pixel.g, pixel.b, pixel.a)
            };
            proof {
                assert(ch == spec_pick_chunk(pixel, previous, cache1));
            }
            data.push(ch);
            update_cache(&mut array, &pixel);
            proof {
                let rec = spec_encode_loop(pixels@, i + 1, pixel, array@, 0, first_run);
                assert(spec_encode_loop(pixels@, i as int, previous, cache0, run0, fr0) == (flushed
                    + seq![ch]) + rec);
                assert(data0 + ((flushed + seq![ch]) + rec) =~= ((data0 + flushed) + seq![ch])
                    + rec);
                assert(data@ =~= (data0 + flushed) + seq![ch]);
            }
            previous = pixel;
        }
        i += 1;
    }
    push_run_chunks(&mut data, run_length);
    data
}

/// Serializes a chunk stream, appending onto `bytes`.
fn push_chunks_bytes(bytes: &mut Vec<u8>, data: &Vec<Chunk>)
    ensures
        final(bytes)@ == old(bytes)@ + spec_chunks_bytes(data@),
{
    let mut k: usize = 0;
    while k < data.len()
        invariant
            k <= data@.len(),
            bytes@ == old(bytes)@ + spec_chunks_bytes(data@.take(k as int)),
        decreases data@.len() - k,
    {
        let ghost bytes0 = bytes@;
        let mut piece = data[k].to_bytes();
        bytes.append(&mut piece);
        proof {
            assert(data@.take(k as int).push(data@[k as int]) =~= data@.take(k + 1));
            lemma_chunks_bytes_concat(data@.take(k as int), seq![data@[k as int]]);
            assert(data@.take(k as int) + seq![data@[k as int]] =~= data@.take(k + 1));
            assert(seq![data@[k as int]].skip(1) =~= Seq::<Chunk>::empty());
            assert(spec_chunks_bytes(seq![data@[k as int]]) == spec_chunk_bytes(data@[k as int])
                + spec_chunks_bytes(Seq::<Chunk>::empty()));
            assert(spec_chunk_bytes(data@[k as int]) + Seq::<u8>::empty() =~= spec_chunk_bytes(
                data@[k as int],
            ));
            assert((old(bytes)@ + spec_chunks_bytes(data@.take(k as int))) + spec_chunk_bytes(
                data@[k as int],
            ) =~= old(bytes)@ + (spec_chunks_bytes(data@.take(k as int)) + spec_chunk_bytes(
                data@[k as int],
            )));
        }
        k += 1;
    }
    proof {
        assert(data@.take(data@.len() as int) =~= data@);
    }
}

/// Encodes an image as a complete QOI byte stream: header (the encoder
/// always declares 4 channels and colorspace 0), chunk stream, end marker.
pub fn encode(img: &Image) -> (bytes: Vec<u8>)
    requires
        img@.wf(),
    ensures
        bytes@ == spec_encode(img@),
{
    let header = Header { width: img.width, height: img.height, channels: 4, colorspace: 0 };
    let mut bytes = header.to_bytes();
    let data = pixels_to_data(&img.pixels);
    push_chunks_bytes(&mut bytes, &data);
    let ghost before_marker = bytes@;
    bytes.push(0);
    bytes.push(0);
    bytes.push(0);
    bytes.push(0);
    bytes.push(0);
    bytes.push(0);
    bytes.push(0);
    bytes.push(1);
    proof {
        assert(bytes@ =~= before_marker + spec_marker());
        assert((spec_header_bytes(header) + spec_chunks_bytes(data@)) + spec_marker() =~=
        spec_encode(img@));
    }
    bytes
}

/// The full byte stream an image encodes to.
pub open spec fn spec_encode(img: ImageV) -> Seq<u8> {
    spec_header_bytes(
        Header { width: img.width as u32, height: img.height as u32, channels: 4, colorspace: 0 },
    ) + spec_chunks_bytes(spec_encode_chunks(img.pixels)) + spec_marker()
}

} // verus!
