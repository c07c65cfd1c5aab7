use vstd::prelude::*;

use crate::chunk::{chunk_wf, lemma_chunk_round_trip, spec_chunk_bytes, spec_parse_chunk, Chunk};
use crate::color::{spec_index_position, spec_new_cache, Color};
use crate::decode::{spec_decode, spec_decode_pixels};
use crate::encode::{
    lemma_chunks_bytes_concat, spec_chunks_bytes, spec_encode, spec_encode_chunks,
    spec_encode_loop, spec_marker, spec_pick_chunk, spec_run_chunks,
};
use crate::error::QoiError;
use crate::header::{lemma_header_round_trip, spec_header_bytes, Header};
use crate::image::ImageV;
use crate::model::{spec_apply, spec_next_cache, spec_next_prev};

verus! {

/// Wrapped deltas undo exactly: adding back a wrapped difference restores
/// the original byte. This is the Diff chunk's algebra.
proof fn lemma_wrap_diff(x: u8, y: u8)
    ensures
        y.wrapping_add(x.wrapping_add(2).wrapping_sub(y)).wrapping_sub(2) == x,
{
}

/// The Luma chunk's algebra: the green delta biased by +32 and the red or
/// blue delta stored relative to it undo exactly.
proof fn lemma_wrap_luma_green(x: u8, y: u8)
    ensures
        y.wrapping_add(x.wrapping_add(2).wrapping_sub(y).wrapping_add(30)).wrapping_sub(32) == x,
{
}

proof fn lemma_wrap_luma_chroma(x: u8, y: u8, dg2: u8)
    ensures
        y.wrapping_add(x.wrapping_add(2).wrapping_sub(y).wrapping_add(38).wrapping_sub(dg2))
            .wrapping_add(dg2).wrapping_sub(40) == x,
{
}

/// The chunk the encoder picks for a new pixel decodes back to exactly that
/// pixel, it is well formed, and when it is an Index chunk it names the
/// pixel's own hash slot, where the cache already holds the pixel.
pub proof fn lemma_pick_apply(p: Color, prev: Color, cache: Seq<Color>)
    requires
        cache.len() == 64,
        p != prev,
    ensures
        chunk_wf(spec_pick_chunk(p, prev, cache)),
        spec_apply(spec_pick_chunk(p, prev, cache), prev, cache) == seq![p],
        spec_pick_chunk(p, prev, cache) is Index ==> spec_pick_chunk(p, prev, cache)
            == Chunk::Index(spec_index_position(p) as u8) && cache[spec_index_position(p)] == p,
{
    let ch = spec_pick_chunk(p, prev, cache);
    if cache[spec_index_position(p)] == p {
        assert(spec_apply(ch, prev, cache) =~= seq![p]);
    } else if p.a == prev.a {
        let dr = p.r.wrapping_add(2).wrapping_sub(prev.r);
        let dg = p.g.wrapping_add(2).wrapping_sub(prev.g);
        let db = p.b.wrapping_add(2).wrapping_sub(prev.b);
        if dr < 4 && dg < 4 && db < 4 {
            lemma_wrap_diff(p.r, prev.r);
            lemma_wrap_diff(p.g, prev.g);
            lemma_wrap_diff(p.b, prev.b);
            assert(spec_apply(ch, prev, cache) =~= seq![p]);
        } else {
            let dg2 = dg.wrapping_add(30);
            let dr_dg = dr.wrapping_add(38).wrapping_sub(dg2);
            let db_dg = db.wrapping_add(38).wrapping_sub(dg2);
            if dg2 < 64 && dr_dg < 16 && db_dg < 16 {
                lemma_wrap_luma_green(p.g, prev.g);
                lemma_wrap_luma_chroma(p.r, prev.r, dg2);
                lemma_wrap_luma_chroma(p.b, prev.b, dg2);
                assert(spec_apply(ch, prev, cache) =~= seq![p]);
            } else {
                assert(spec_apply(ch, prev, cache) =~= seq![p]);
            }
        }
    } else {
        assert(spec_apply(ch, prev, cache) =~= seq![p]);
    }
}

/// The encoder rewrites the cache slot of every new pixel, Index hits
/// included, while the decoder skips the write for Index chunks. The
/// asymmetry is harmless: an Index hit means the slot already holds exactly
/// that pixel, so the rewrite changes nothing.
pub proof fn lemma_index_rewrite_noop(p: Color, prev: Color, cache: Seq<Color>)
    requires
        cache.len() == 64,
        p != prev,
        spec_pick_chunk(p, prev, cache) is Index,
    ensures
        cache.update(spec_index_position(p), p) == cache,
{
    lemma_pick_apply(p, prev, cache);
    assert(cache.update(spec_index_position(p), p) =~= cache);
}

/// `n` copies of one pixel.
pub open spec fn spec_copies(p: Color, n: int) -> Seq<Color> {
    Seq::new(n as nat, |i: int| p)
}

/// A singleton chunk stream serializes to that chunk's bytes.
proof fn lemma_chunks_bytes_singleton(ch: Chunk)
    ensures
        spec_chunks_bytes(seq![ch]) == spec_chunk_bytes(ch),
{
    assert(seq![ch].skip(1) =~= Seq::<Chunk>::empty());
    assert(spec_chunk_bytes(ch) + spec_chunks_bytes(Seq::<Chunk>::empty()) =~= spec_chunk_bytes(
        ch,
    ));
}

/// Decoding the bytes of a run flush yields `run` copies of the previous
/// pixel, writes the previous pixel into its slot, and resets the zero
/// count; a zero-length flush is no bytes at all.
pub proof fn lemma_decode_run_chunks(
    run: int,
    rest: Seq<u8>,
    prev: Color,
    cache: Seq<Color>,
    zeros: int,
)
    requires
        run >= 0,
        cache.len() == 64,
    ensures
        run == 0 ==> spec_decode_pixels(
            spec_chunks_bytes(spec_run_chunks(run)) + rest,
            prev,
            cache,
            zeros,
        ) == spec_decode_pixels(rest, prev, cache, zeros),
        run > 0 ==> spec_decode_pixels(
            spec_chunks_bytes(spec_run_chunks(run)) + rest,
            prev,
            cache,
            zeros,
        ) == (match spec_decode_pixels(
            rest,
            prev,
            cache.update(spec_index_position(prev), prev),
            0,
        ) {
            None => None::<Seq<Color>>,
            Some(s) => Some(spec_copies(prev, run) + s),
        }),
    decreases run,
{
    if run == 0 {
        assert(spec_run_chunks(0) =~= Seq::<Chunk>::empty());
        assert(spec_chunks_bytes(Seq::<Chunk>::empty()) + rest =~= rest);
    } else if run <= 62 {
        let ch = Chunk::Run((run - 1) as u8);
        assert(spec_run_chunks(run) =~= seq![ch]);
        lemma_chunks_bytes_singleton(ch);
        lemma_chunk_round_trip(ch, rest);
        let all = spec_chunk_bytes(ch) + rest;
        assert(spec_chunks_bytes(spec_run_chunks(run)) + rest =~= all);
        assert(all.skip(1) =~= rest);
        assert(spec_apply(ch, prev, cache) =~= spec_copies(prev, run));
        assert(spec_next_prev(ch, prev, cache) == prev);
        assert(spec_next_cache(ch, prev, cache) == cache.update(
            spec_index_position(prev),
            prev,
        ));
    } else {
        let ch = Chunk::Run(61u8);
        let tail = spec_run_chunks(run - 62);
        assert(spec_run_chunks(run) == seq![ch] + tail);
        lemma_chunks_bytes_concat(seq![ch], tail);
        lemma_chunks_bytes_singleton(ch);
        assert((spec_chunk_bytes(ch) + spec_chunks_bytes(tail)) + rest =~= spec_chunk_bytes(ch) + (
        spec_chunks_bytes(tail) + rest));
        lemma_chunk_round_trip(ch, spec_chunks_bytes(tail) + rest);
        let all = spec_chunk_bytes(ch) + (spec_chunks_bytes(tail) + rest);
        assert(all.skip(1) =~= spec_chunks_bytes(tail) + rest);
        assert(spec_apply(ch, prev, cache) =~= spec_copies(prev, 62));
        assert(spec_next_prev(ch, prev, cache) == prev);
        let cache1 = cache.update(spec_index_position(prev), prev);
        assert(spec_next_cache(ch, prev, cache) == cache1);
        lemma_decode_run_chunks(run - 62, rest, prev, cache1, 0);
        assert(cache1.update(spec_index_position(prev), prev) =~= cache1);
        match spec_decode_pixels(rest, prev, cache1, 0) {
            None => {},
            Some(s) => {
                assert(spec_copies(prev, 62) + (spec_copies(prev, run - 62) + s) =~= spec_copies(
                    prev,
                    run,
                ) + s);
            },
        }
    }
}

/// `k` zero bytes followed by the byte one: the tail of the end marker.
pub open spec fn spec_zeros_one(k: int) -> Seq<u8> {
    Seq::new(k as nat, |i: int| 0u8) + seq![1u8]
}

/// One zero byte decodes as Index(0): it appends the pixel in slot zero,
/// makes it the previous pixel, leaves the cache alone, and raises the
/// consecutive-zero count.
proof fn lemma_decode_zero_byte(bytes: Seq<u8>, prev: Color, cache: Seq<Color>, zeros: int)
    requires
        bytes.len() >= 1,
        bytes[0] == 0,
        cache.len() == 64,
    ensures
        spec_decode_pixels(bytes, prev, cache, zeros) == (match spec_decode_pixels(
            bytes.skip(1),
            cache[0],
            cache,
            zeros + 1,
        ) {
            None => None::<Seq<Color>>,
            Some(s) => Some(seq![cache[0]] + s),
        }),
{
    assert(0u8 & 0xc0 == 0 && 0u8 & 0x3f == 0) by (bit_vector);
    let ch = Chunk::Index(0u8);
    assert(spec_parse_chunk(bytes) == Some((ch, 1int)));
    assert(spec_apply(ch, prev, cache) =~= seq![cache[0]]);
    assert(spec_next_prev(ch, prev, cache) == cache[0]);
    assert(spec_next_cache(ch, prev, cache) == cache);
}

/// Decoding `k` zero bytes and then a one, with enough zeros already seen,
/// ends the stream after appending `k` copies of the pixel in slot zero.
proof fn lemma_decode_zeros_one(k: int, prev: Color, cache: Seq<Color>, zeros: int)
    requires
        0 <= k,
        zeros >= 0,
        zeros + k >= 7,
        cache.len() == 64,
    ensures
        spec_decode_pixels(spec_zeros_one(k), prev, cache, zeros) == Some(spec_copies(cache[0], k)),
    decreases k,
{
    if k == 0 {
        assert(spec_zeros_one(0) =~= seq![1u8]);
        assert(1u8 != 0xfe && 1u8 != 0xff && 1u8 & 0xc0 == 0 && 1u8 & 0x3f == 1) by (bit_vector);
        assert(spec_parse_chunk(seq![1u8]) == Some((Chunk::Index(1u8), 1int)));
        assert(spec_decode_pixels(spec_zeros_one(0), prev, cache, zeros) == Some(
            Seq::<Color>::empty(),
        ));
        assert(spec_copies(cache[0], 0) =~= Seq::<Color>::empty());
    } else {
        let bytes = spec_zeros_one(k);
        assert(bytes.len() == k + 1 && bytes[0] == 0);
        lemma_decode_zero_byte(bytes, prev, cache, zeros);
        assert(bytes.skip(1) =~= spec_zeros_one(k - 1));
        lemma_decode_zeros_one(k - 1, cache[0], cache, zeros + 1);
        assert(seq![cache[0]] + spec_copies(cache[0], k - 1) =~= spec_copies(cache[0], k));
    }
}

/// Decoding the end marker from any reachable state appends exactly seven
/// phantom copies of the pixel in slot zero and stops.
pub proof fn lemma_decode_marker(prev: Color, cache: Seq<Color>, zeros: int)
    requires
        zeros >= 0,
        cache.len() == 64,
    ensures
        spec_decode_pixels(spec_marker(), prev, cache, zeros) == Some(spec_copies(cache[0], 7)),
{
    assert(spec_marker() =~= spec_zeros_one(7));
    lemma_decode_zeros_one(7, prev, cache, zeros);
}

/// Decoding the bytes of one encoder step for a new pixel `p`: the pending
/// run's flush, then the chunk picked for `p`. The decoder ends up in
/// exactly the encoder's next state, and its consecutive-Index(0) count
/// stays at most one, because the encoder never emits two Index(0) chunks
/// in a row.
#[verifier::rlimit(50)]
proof fn lemma_decode_pixel_chunk(
    p: Color,
    prev: Color,
    cache: Seq<Color>,
    run: int,
    first_run: bool,
    zeros: int,
    rest: Seq<u8>,
)
    requires
        cache.len() == 64,
        p != prev,
        run >= 0,
        0 <= zeros <= 1,
        zeros == 1 ==> spec_index_position(prev) == 0 && cache[0] == prev,
        cache[spec_index_position(prev)] == prev || (first_run && prev == Color::spec_black()),
    ensures
        ({
            let cache1 = if run > 0 && first_run {
                cache.update(spec_index_position(prev), prev)
            } else {
                cache
            };
            let ch = spec_pick_chunk(p, prev, cache1);
            let cache2 = cache1.update(spec_index_position(p), p);
            let zeros2 = if ch == Chunk::Index(0u8) {
                (if run > 0 {
                    0int
                } else {
                    zeros
                }) + 1
            } else {
                0int
            };
            &&& 0 <= zeros2 <= 1
            &&& (zeros2 == 1 ==> spec_index_position(p) == 0 && cache2[0] == p)
            &&& cache2[spec_index_position(p)] == p
            &&& spec_decode_pixels(
                spec_chunks_bytes(spec_run_chunks(run) + seq![ch]) + rest,
                prev,
                cache,
                zeros,
            ) == (match spec_decode_pixels(rest, p, cache2, zeros2) {
                None => None::<Seq<Color>>,
                Some(s) => Some(spec_copies(prev, run) + (seq![p] + s)),
            })
        }),
{
    let cache1 = if run > 0 && first_run {
        cache.update(spec_index_position(prev), prev)
    } else {
        cache
    };
    let ch = spec_pick_chunk(p, prev, cache1);
    let cache2 = cache1.update(spec_index_position(p), p);
    let zeros1 = if run > 0 {
        0int
    } else {
        zeros
    };
    let zeros2 = if ch == Chunk::Index(0u8) {
        zeros1 + 1
    } else {
        0int
    };
    lemma_pick_apply(p, prev, cache1);
    // the emitted bytes: the flush, then this chunk's bytes, then the rest
    lemma_chunks_bytes_concat(spec_run_chunks(run), seq![ch]);
    lemma_chunks_bytes_singleton(ch);
    let cb = spec_chunk_bytes(ch);
    assert(spec_chunks_bytes(spec_run_chunks(run) + seq![ch]) + rest =~= spec_chunks_bytes(
        spec_run_chunks(run),
    ) + (cb + rest));
    // the flush leaves the decoder with exactly cache1
    lemma_decode_run_chunks(run, cb + rest, prev, cache, zeros);
    if run > 0 && !first_run {
        assert(cache[spec_index_position(prev)] == prev);
        assert(cache.update(spec_index_position(prev), prev) =~= cache);
    }
    // this chunk parses back and applies to exactly p
    lemma_chunk_round_trip(ch, rest);
    let all2 = cb + rest;
    assert(all2.skip(cb.len() as int) =~= rest);
    assert(spec_next_prev(ch, prev, cache1) == p);
    if ch is Index {
        assert(cache1[spec_index_position(p)] == p);
        assert(cache1.update(spec_index_position(p), p) =~= cache1);
    }
    assert(spec_next_cache(ch, prev, cache1) == cache2);
    if ch == Chunk::Index(0u8) {
        assert(spec_index_position(p) as u8 == 0);
        assert(0 <= spec_index_position(p) < 64);
        assert(spec_index_position(p) == 0 && cache1[0] == p);
        if zeros1 == 1 {
            assert(run == 0 && zeros == 1);
            assert(cache1 == cache && cache[0] == prev);
            assert(false);
        }
    }
    assert(spec_decode_pixels(all2, prev, cache1, zeros1) == (
    match spec_decode_pixels(rest, p, cache2, zeros2) {
        None => None::<Seq<Color>>,
        Some(s) => Some(seq![p] + s),
    }));
    if run == 0 {
        match spec_decode_pixels(rest, p, cache2, zeros2) {
            None => {},
            Some(s) => {
                assert(spec_copies(prev, 0) + (seq![p] + s) =~= seq![p] + s);
            },
        }
    }
}

/// Splicing one decoded step back together: the pending run's copies, the
/// new pixel, and the decoded remainder line up with the original pixels.
proof fn lemma_assemble(pixels: Seq<Color>, i: int, run: int, prev: Color, p: Color, sr: Seq<Color>)
    requires
        0 <= i < pixels.len(),
        0 <= run <= i,
        pixels[i] == p,
        forall|k: int| i - run <= k < i ==> pixels[k] == prev,
        sr.len() == pixels.len() - (i + 1) + 7,
        sr.take(pixels.len() - (i + 1)) == pixels.skip(i + 1),
    ensures
        ({
            let s_all = spec_copies(prev, run) + (seq![p] + sr);
            &&& s_all.len() == pixels.len() - (i - run) + 7
            &&& s_all.take(pixels.len() - (i - run)) == pixels.skip(i - run)
        }),
{
    let s_all = spec_copies(prev, run) + (seq![p] + sr);
    let m = pixels.len() - (i - run);
    let n_rec = pixels.len() - (i + 1);
    assert(s_all.len() == m + 7);
    assert forall|idx: int| 0 <= idx < m implies s_all[idx] == pixels[i - run + idx] by {
        if idx < run {
            assert(s_all[idx] == prev);
            assert(pixels[i - run + idx] == prev);
        } else if idx == run {
            assert(s_all[idx] == p);
        } else {
            assert(s_all[idx] == sr[idx - run - 1]);
            assert(sr.take(n_rec)[idx - run - 1] == pixels.skip(i + 1)[idx - run - 1]);
        }
    }
    assert(s_all.take(m) =~= pixels.skip(i - run));
}

/// The heart of the round trip: decoding the bytes the encoder emits from
/// any reachable mid-stream state, followed by the end marker, succeeds and
/// gives back exactly the pixels not yet represented (the pending run, then
/// everything from pixel `i` on), with the seven phantom marker pixels after
/// them. The preconditions are the encoder's loop invariants: the pending
/// run really repeats the previous pixel; at most one Index(0) chunk was
/// just decoded, and only with the previous pixel sitting in slot zero; and
/// the previous pixel is in its cache slot unless the first run flush, which
/// writes it there, is still owed.
#[verifier::rlimit(50)]
pub proof fn lemma_encode_decode_loop(
    pixels: Seq<Color>,
    i: int,
    prev: Color,
    cache: Seq<Color>,
    run: int,
    first_run: bool,
    zeros: int,
)
    requires
        0 <= i <= pixels.len(),
        cache.len() == 64,
        0 <= run <= i,
        forall|k: int| i - run <= k < i ==> pixels[k] == prev,
        0 <= zeros <= 1,
        zeros == 1 ==> spec_index_position(prev) == 0 && cache[0] == prev,
        cache[spec_index_position(prev)] == prev || (first_run && prev == Color::spec_black()),
    ensures
        ({
            let s = spec_decode_pixels(
                spec_chunks_bytes(spec_encode_loop(pixels, i, prev, cache, run, first_run))
                    + spec_marker(),
                prev,
                cache,
                zeros,
            );
            &&& s is Some
            &&& s->Some_0.len() == pixels.len() - (i - run) + 7
            &&& s->Some_0.take(pixels.len() - (i - run)) == pixels.skip(i - run)
        }),
    decreases pixels.len() - i,
{
    let m = pixels.len() - (i - run);
    if i == pixels.len() {
        lemma_decode_run_chunks(run, spec_marker(), prev, cache, zeros);
        if run == 0 {
            lemma_decode_marker(prev, cache, zeros);
            let s = spec_copies(cache[0], 7);
            assert(s.take(0) =~= pixels.skip(i));
        } else {
            let cache1 = cache.update(spec_index_position(prev), prev);
            lemma_decode_marker(prev, cache1, 0);
            let s = spec_copies(prev, run) + spec_copies(cache1[0], 7);
            assert(s.take(run) =~= spec_copies(prev, run));
            assert(spec_copies(prev, run) =~= pixels.skip(i - run));
        }
    } else {
        let p = pixels[i];
        if p == prev {
            lemma_encode_decode_loop(pixels, i + 1, prev, cache, run + 1, first_run, zeros);
        } else {
            let cache1 = if run > 0 && first_run {
                cache.update(spec_index_position(prev), prev)
            } else {
                cache
            };
            let first1 = if run > 0 {
                false
            } else {
                first_run
            };
            let ch = spec_pick_chunk(p, prev, cache1);
            let cache2 = cache1.update(spec_index_position(p), p);
            let zeros2 = if ch == Chunk::Index(0u8) {
                (if run > 0 {
                    0int
                } else {
                    zeros
                }) + 1
            } else {
                0int
            };
            let flushed = spec_run_chunks(run);
            let rec = spec_encode_loop(pixels, i + 1, p, cache2, 0, first1);
            assert(spec_encode_loop(pixels, i, prev, cache, run, first_run) == (flushed + seq![ch])
                + rec);
            lemma_chunks_bytes_concat(flushed + seq![ch], rec);
            let rb = spec_chunks_bytes(rec);
            assert(spec_chunks_bytes((flushed + seq![ch]) + rec) + spec_marker() =~=
            spec_chunks_bytes(flushed + seq![ch]) + (rb + spec_marker()));
            lemma_decode_pixel_chunk(p, prev, cache, run, first_run, zeros, rb + spec_marker());
            lemma_encode_decode_loop(pixels, i + 1, p, cache2, 0, first1, zeros2);
            let s_rec = spec_decode_pixels(rb + spec_marker(), p, cache2, zeros2);
            let sr = s_rec->Some_0;
            lemma_assemble(pixels, i, run, prev, p, sr);
        }
    }
}

/// The primary law of the codec: decoding an encoded image gives back
/// exactly the same image, pixel for pixel, channel for channel.
pub proof fn lemma_round_trip(img: ImageV)
    requires
        img.wf(),
    ensures
        spec_decode(spec_encode(img)) == Ok::<ImageV, QoiError>(img),
{
    let h = Header {
        width: img.width as u32,
        height: img.height as u32,
        channels: 4,
        colorspace: 0,
    };
    let body = spec_chunks_bytes(spec_encode_chunks(img.pixels)) + spec_marker();
    lemma_header_round_trip(h, body);
    assert(spec_encode(img) =~= spec_header_bytes(h) + body);
    assert(spec_encode(img).skip(14) =~= body);
    lemma_encode_decode_loop(
        img.pixels,
        0,
        Color::spec_black(),
        spec_new_cache(),
        0,
        true,
        0,
    );
    let s = spec_decode_pixels(body, Color::spec_black(), spec_new_cache(), 0);
    let sr = s->Some_0;
    assert(sr.take(img.pixels.len() as int) == img.pixels);
    assert(sr.len() - 7 == img.pixels.len());
    let px = sr.take(sr.len() - 7);
    assert(px == img.pixels);
    assert(px.len() == h.width * h.height) by {
        assert(img.pixels.len() == img.width * img.height);
    }
    assert(spec_decode(spec_encode(img)) == Ok::<ImageV, QoiError>(
        ImageV { width: h.width as int, height: h.height as int, pixels: px },
    ));
    assert(ImageV { width: h.width as int, height: h.height as int, pixels: px } == img);
}

} // verus!
