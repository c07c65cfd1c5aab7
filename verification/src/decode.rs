use vstd::prelude::*;

use crate::chunk::{spec_parse_chunk, Chunk};
use crate::color::{new_cache, spec_new_cache, Color};
use crate::error::QoiError;
use crate::header::{spec_parse_header, Header};
use crate::image::{Image, ImageV};
use crate::model::{
    lemma_parse_chunk_wf, spec_apply, spec_next_cache, spec_next_prev, update_cache,
};

verus! {

/// Decodes pixels from the front of `bytes` until the end marker, whose
/// eight bytes parse as seven Index(0) chunks and one Index(1) chunk: a
/// chunk is one more consecutive Index(0), or ends the stream when at least
/// seven Index(0) came right before it and it is Index(1), or resets that
/// count. The seven marker Index(0) chunks are decoded optimistically like
/// any others, so the result carries seven phantom pixels at its end; `None`
/// when the bytes run out before the marker.
pub open spec fn spec_decode_pixels(
    bytes: Seq<u8>,
    prev: Color,
    cache: Seq<Color>,
    zeros: int,
) -> Option<Seq<Color>>
    decreases bytes.len(),
{
    match spec_parse_chunk(bytes) {
        None => None,
        Some((ch, n)) => {
            if zeros >= 7 && ch == Chunk::Index(1u8) {
                Some(Seq::empty())
            } else {
                let produced = spec_apply(ch, prev, cache);
                let zeros2 = if ch == Chunk::Index(0u8) {
                    zeros + 1
                } else {
                    0
                };
                match spec_decode_pixels(
                    bytes.skip(n),
                    spec_next_prev(ch, prev, cache),
                    spec_next_cache(ch, prev, cache),
                    zeros2,
                ) {
                    None => None,
                    Some(rest) => Some(produced + rest),
                }
            }
        },
    }
}

/// Every chunk expands to at least one pixel.
pub proof fn lemma_apply_len(ch: Chunk, prev: Color, cache: Seq<Color>)
    ensures
        spec_apply(ch, prev, cache).len() >= 1,
{
    match ch {
        Chunk::Rgb(_, _, _) => {},
        Chunk::Rgba(_, _, _, _) => {},
        Chunk::Index(_) => {},
        Chunk::Diff(_, _, _) => {},
        Chunk::Luma(_, _, _) => {},
        Chunk::Run(count) => {
            assert(spec_apply(ch, prev, cache).len() == count as nat + 1);
        },
    }
}

/// A decode that ends at the marker produced at least 7 - zeros pixels: the
/// marker's own seven Index(0) chunks are decoded as pixels first.
pub proof fn lemma_decode_pixels_min_len(bytes: Seq<u8>, prev: Color, cache: Seq<Color>, zeros: int)
    requires
        zeros >= 0,
    ensures
        spec_decode_pixels(bytes, prev, cache, zeros) matches Some(s) ==> s.len() + zeros >= 7,
    decreases bytes.len(),
{
    match spec_parse_chunk(bytes) {
        None => {},
        Some((ch, n)) => {
            lemma_parse_chunk_wf(bytes);
            if !(zeros >= 7 && ch == Chunk::Index(1u8)) {
                let zeros2 = if ch == Chunk::Index(0u8) {
                    zeros + 1
                } else {
                    0
                };
                lemma_apply_len(ch, prev, cache);
                lemma_decode_pixels_min_len(
                    bytes.skip(n),
                    spec_next_prev(ch, prev, cache),
                    spec_next_cache(ch, prev, cache),
                    zeros2,
                );
                let produced = spec_apply(ch, prev, cache);
                let rest = spec_decode_pixels(
                    bytes.skip(n),
                    spec_next_prev(ch, prev, cache),
                    spec_next_cache(ch, prev, cache),
                    zeros2,
                );
                if rest is Some {
                    assert(spec_decode_pixels(bytes, prev, cache, zeros) == Some(
                        produced + rest->Some_0,
                    ));
                    assert((produced + rest->Some_0).len() == produced.len()
                        + rest->Some_0.len());
                    assert(rest->Some_0.len() + zeros2 >= 7);
                    assert(produced.len() >= 1);
                    assert(spec_decode_pixels(bytes, prev, cache, zeros)->Some_0.len() + zeros
                        >= 7);
                } else {
                    assert(spec_decode_pixels(bytes, prev, cache, zeros) is None);
                }
            } else {
                assert(zeros >= 7);
                assert(spec_decode_pixels(bytes, prev, cache, zeros) == Some(
                    Seq::<Color>::empty(),
                ));
            }
        },
    }
}

/// What a whole QOI stream decodes to: the header, then the pixels up to
/// the end marker with the seven phantom marker pixels trimmed, which must
/// fill width * height exactly.
pub open spec fn spec_decode(bytes: Seq<u8>) -> Result<ImageV, QoiError> {
    match spec_parse_header(bytes) {
        Err(e) => Err(e),
        Ok(h) => match spec_decode_pixels(
            bytes.skip(14),
            Color::spec_black(),
            spec_new_cache(),
            0,
        ) {
            None => Err(QoiError::TruncatedInput),
            Some(s) => {
                let px = s.take(s.len() - 7);
                if px.len() > h.width * h.height {
                    Err(QoiError::PixelCountMismatch { too_many: true })
                } else if px.len() < h.width * h.height {
                    Err(QoiError::PixelCountMismatch { too_many: false })
                } else {
                    Ok(ImageV { width: h.width as int, height: h.height as int, pixels: px })
                }
            },
        },
    }
}

/// Decodes the chunk stream that starts at `start`, stopping at the end
/// marker and trimming the seven phantom pixels it leaves behind.
pub fn all_pixels(bytes: &[u8], start: usize) -> (r: Result<Vec<Color>, QoiError>)
    requires
        start <= bytes@.len(),
    ensures
        match r {
            Ok(v) => spec_decode_pixels(
                bytes@.skip(start as int),
                Color::spec_black(),
                spec_new_cache(),
                0,
            ) matches Some(s) && s.len() >= 7 && v@ == s.take(s.len() - 7),
            Err(e) => e == QoiError::TruncatedInput && spec_decode_pixels(
                bytes@.skip(start as int),
                Color::spec_black(),
                spec_new_cache(),
                0,
            ) is None,
        },
{
    let ghost total = spec_decode_pixels(
        bytes@.skip(start as int),
        Color::spec_black(),
        spec_new_cache(),
        0,
    );
    let mut previous = Color::black();
    let mut array = new_cache();
    let mut pixels: Vec<Color> = Vec::new();
    let mut zero_count: usize = 0;
    let mut i: usize = start;
    loop
        invariant
            start <= i <= bytes@.len(),
            array@.len() == 64,
            zero_count <= i,
            total == spec_decode_pixels(
                bytes@.skip(start as int),
                Color::spec_black(),
                spec_new_cache(),
                0,
            ),
            total is None ==> spec_decode_pixels(
                bytes@.skip(i as int),
                previous,
                array@,
                zero_count as int,
            ) is None,
            total matches Some(s) ==> spec_decode_pixels(
                bytes@.skip(i as int),
                previous,
                array@,
                zero_count as int,
            ) matches Some(rest) && s == pixels@ + rest,
        ensures
            total == Some(pixels@),
        decreases bytes@.len() - i,
    {
        let (next_data, j) = match Chunk::parse(bytes, i) {
            Ok(p) => p,
            Err(e) => {
                proof {
                    assert(spec_decode_pixels(
                        bytes@.skip(i as int),
                        previous,
                        array@,
                        zero_count as int,
                    ) is None);
                }
                return Err(e);
            },
        };
        proof {
            lemma_parse_chunk_wf(bytes@.skip(i as int));
            assert(bytes@.skip(i as int).skip(j - i) =~= bytes@.skip(j as int));
        }
        let ghost zeros_old = zero_count as int;
        if next_data.is_0() {
            zero_count += 1;
        } else if zero_count >= 7 && next_data.is_1() {
            proof {
                assert(spec_decode_pixels(bytes@.skip(i as int), previous, array@, zeros_old)
                    == Some(Seq::<Color>::empty()));
                assert(pixels@ + Seq::<Color>::empty() =~= pixels@);
            }
            break ;
        } else {
            zero_count = 0;
        }
        let ghost prev0 = previous;
        let ghost cache0 = array@;
        let ghost produced = spec_apply(next_data, prev0, cache0);
        let ghost pixels_before = pixels@;
        let next_color = next_data.to_color(&previous, &array);
        let last = next_color[next_color.len() - 1];
        let mut tmp = next_color;
        pixels.append(&mut tmp);
        previous = last;
        if next_data.should_update_array() {
            update_cache(&mut array, &previous);
        }
        proof {
            assert(previous == spec_next_prev(next_data, prev0, cache0));
            assert(array@ == spec_next_cache(next_data, prev0, cache0));
            assert(zero_count as int == if next_data == Chunk::Index(0u8) {
                zeros_old + 1
            } else {
                0
            });
            if total is Some {
                let s = total->Some_0;
                let rest0 = spec_decode_pixels(bytes@.skip(i as int), prev0, cache0, zeros_old);
                let rest1 = spec_decode_pixels(
                    bytes@.skip(j as int),
                    previous,
                    array@,
                    zero_count as int,
                );
                assert(rest0 matches Some(r0) && s == pixels_before + r0);
                assert(rest1 is Some);
                assert(s == pixels_before + (produced + rest1->Some_0));
                assert(pixels_before + (produced + rest1->Some_0) =~= (pixels_before + produced)
                    + rest1->Some_0);
                assert(pixels@ == pixels_before + produced);
            }
        }
        i = j;
    }
    proof {
        lemma_decode_pixels_min_len(
            bytes@.skip(start as int),
            Color::spec_black(),
            spec_new_cache(),
            0,
        );
    }
    let len = pixels.len();
    pixels.truncate(len - 7);
    Ok(pixels)
}

/// Decodes a whole QOI byte stream into an image.
pub fn decode(bytes: &[u8]) -> (r: Result<Image, QoiError>)
    ensures
        match r {
            Ok(img) => spec_decode(bytes@) == Ok::<ImageV, QoiError>(img@) && img@.wf(),
            Err(e) => spec_decode(bytes@) == Err::<ImageV, QoiError>(e),
        },
{
    let header = match Header::parse(bytes) {
        Ok(h) => h,
        Err(e) => {
            return Err(e);
        },
    };
    let pixels = match all_pixels(bytes, 14) {
        Ok(p) => p,
        Err(e) => {
            return Err(e);
        },
    };
    proof {
        assert((header.width as u64) * (header.height as u64) <= u64::MAX) by (nonlinear_arith)
            requires
                header.width <= u32::MAX && header.height <= u32::MAX,
        ;
        assert(pixels.len() == pixels@.len());
    }
    let need: u64 = (header.width as u64) * (header.height as u64);
    if (pixels.len() as u64) > need {
        return Err(QoiError::PixelCountMismatch { too_many: true });
    }
    if (pixels.len() as u64) < need {
        return Err(QoiError::PixelCountMismatch { too_many: false });
    }
    Ok(Image { width: header.width, height: header.height, pixels })
}

} // verus!
