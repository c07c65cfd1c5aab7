use pekoai::{decode, encode, pixels_to_data, Chunk, Color, Header, Image, QoiError};

fn color(r: u8, g: u8, b: u8, a: u8) -> Color {
    Color { r, g, b, a }
}

fn image_from(width: u32, height: u32, pixels: Vec<Color>) -> Image {
    Image::new(width, height, pixels).expect("pixel count must match the bounds")
}

fn assert_round_trip(img: &Image) {
    let bytes = encode(img);
    let back = decode(&bytes).expect("decoding an encoded image must succeed");
    assert_eq!(back.width(), img.width());
    assert_eq!(back.height(), img.height());
    assert_eq!(back.pixels(), img.pixels());
}

#[test]
fn header_round_trip() {
    let candidates = [
        Header { width: 0, height: 0, channels: 4, colorspace: 0 },
        Header { width: 1, height: 1, channels: 3, colorspace: 1 },
        Header { width: 800, height: 600, channels: 4, colorspace: 0 },
        Header { width: u32::MAX, height: 12345, channels: 3, colorspace: 0 },
    ];
    for h in candidates {
        let bytes = h.to_bytes();
        assert_eq!(bytes.len(), 14);
        assert_eq!(Header::parse(&bytes), Ok(h));
    }
}

#[test]
fn header_magic_bytes() {
    let h = Header { width: 1, height: 2, channels: 4, colorspace: 0 };
    let bytes = h.to_bytes();
    assert_eq!(&bytes[0..4], b"qoif");
    assert_eq!(&bytes[4..8], &[0, 0, 0, 1]);
    assert_eq!(&bytes[8..12], &[0, 0, 0, 2]);
    assert_eq!(bytes[12], 4);
    assert_eq!(bytes[13], 0);
}

#[test]
fn round_trip_mixed_image() {
    // Exercises every chunk kind: runs, cache hits, diffs, luma, raw rgb and
    // raw rgba.
    let mut pixels = Vec::new();
    pixels.push(color(10, 10, 10, 255)); // luma from black
    pixels.push(color(10, 10, 10, 255)); // run of 1
    pixels.push(color(11, 12, 12, 255)); // diff
    pixels.push(color(100, 12, 12, 255)); // raw rgb
    pixels.push(color(100, 12, 12, 128)); // raw rgba (alpha change)
    pixels.push(color(10, 10, 10, 255)); // possible cache hit
    pixels.push(color(9, 9, 9, 255)); // diff of -1
    pixels.push(color(0, 0, 0, 255)); // black again
    let img = image_from(4, 2, pixels);
    assert_round_trip(&img);
}

#[test]
fn round_trip_empty_image() {
    let img = image_from(0, 0, Vec::new());
    let bytes = encode(&img);
    // header plus the 8-byte end marker and nothing else
    assert_eq!(bytes.len(), 22);
    let back = decode(&bytes).expect("an empty image must decode");
    assert_eq!(back.width(), 0);
    assert_eq!(back.height(), 0);
    assert_eq!(back.pixels().len(), 0);
}

#[test]
fn round_trip_single_red_pixel_exact_bytes() {
    // (255,0,0,255) from black is a wrapped red delta of -1: a Diff chunk
    // packing (1,2,2) biased fields into 0x5a.
    let img = image_from(1, 1, vec![color(255, 0, 0, 255)]);
    let bytes = encode(&img);
    let mut expected = Header { width: 1, height: 1, channels: 4, colorspace: 0 }.to_bytes();
    expected.push(0x5a);
    expected.extend_from_slice(&[0, 0, 0, 0, 0, 0, 0, 1]);
    assert_eq!(bytes, expected);
    assert_round_trip(&img);
}

#[test]
fn run_splitting_620() {
    // 620 black pixels are one pending run of 620 = 10 * 62: exactly ten
    // Run(61) chunks, no remainder chunk.
    let pixels = vec![color(0, 0, 0, 255); 620];
    let data = pixels_to_data(&pixels);
    assert_eq!(data.len(), 10);
    for ch in &data {
        assert_eq!(*ch, Chunk::Run(61));
    }
    let img = image_from(620, 1, pixels);
    assert_round_trip(&img);
}

#[test]
fn run_boundary_61() {
    let pixels = vec![color(0, 0, 0, 255); 61];
    assert_eq!(pixels_to_data(&pixels), vec![Chunk::Run(60)]);
    assert_round_trip(&image_from(61, 1, pixels));
}

#[test]
fn run_boundary_62() {
    let pixels = vec![color(0, 0, 0, 255); 62];
    assert_eq!(pixels_to_data(&pixels), vec![Chunk::Run(61)]);
    assert_round_trip(&image_from(62, 1, pixels));
}

#[test]
fn run_boundary_63() {
    let pixels = vec![color(0, 0, 0, 255); 63];
    assert_eq!(pixels_to_data(&pixels), vec![Chunk::Run(61), Chunk::Run(0)]);
    assert_round_trip(&image_from(63, 1, pixels));
}

#[test]
fn no_run_chunk_without_repetition() {
    // Two distinct pixels: no run ever starts, so no Run chunk is emitted.
    let pixels = vec![color(10, 10, 10, 255), color(11, 11, 11, 255)];
    let data = pixels_to_data(&pixels);
    assert_eq!(data.len(), 2);
    for ch in &data {
        assert!(!matches!(ch, Chunk::Run(_)));
    }
}

#[test]
fn diff_boundary_deltas() {
    // True per-channel deltas of exactly -2 and +1 fit a Diff chunk.
    let pixels = vec![
        color(50, 50, 50, 255),
        color(48, 51, 50, 255), // dr = -2, dg = +1, db = 0
    ];
    let data = pixels_to_data(&pixels);
    assert_eq!(data[1], Chunk::Diff(0, 3, 2));
    assert_round_trip(&image_from(2, 1, pixels));
}

#[test]
fn diff_overflow_falls_to_luma() {
    // A delta of +2 leaves the Diff window (-2..1) and lands in Luma.
    let pixels = vec![
        color(50, 50, 50, 255),
        color(52, 50, 50, 255),
    ];
    let data = pixels_to_data(&pixels);
    assert!(matches!(data[1], Chunk::Luma(_, _, _)));
    assert_round_trip(&image_from(2, 1, pixels));
}

#[test]
fn luma_green_window_boundary() {
    // Green delta -32 and +31 still fit Luma; -33 and +32 fall out to Rgb.
    let base = color(100, 100, 100, 255);

    let fits_low = vec![base, color(100 - 32, 100 - 32, 100 - 32, 255)];
    assert!(matches!(pixels_to_data(&fits_low)[1], Chunk::Luma(0, _, _)));
    assert_round_trip(&image_from(2, 1, fits_low));

    let fits_high = vec![base, color(100 + 31, 100 + 31, 100 + 31, 255)];
    assert!(matches!(pixels_to_data(&fits_high)[1], Chunk::Luma(63, _, _)));
    assert_round_trip(&image_from(2, 1, fits_high));

    let out_low = vec![base, color(100 - 33, 100 - 33, 100 - 33, 255)];
    assert!(matches!(pixels_to_data(&out_low)[1], Chunk::Rgb(_, _, _)));
    assert_round_trip(&image_from(2, 1, out_low));

    let out_high = vec![base, color(100 + 32, 100 + 32, 100 + 32, 255)];
    assert!(matches!(pixels_to_data(&out_high)[1], Chunk::Rgb(_, _, _)));
    assert_round_trip(&image_from(2, 1, out_high));
}

#[test]
fn luma_chroma_window_boundary() {
    // Red delta relative to the green delta: +7 fits Luma, +8 does not.
    let base = color(100, 100, 100, 255);

    let fits = vec![base, color(100 + 7, 100, 100, 255)];
    assert!(matches!(pixels_to_data(&fits)[1], Chunk::Luma(32, 15, 8)));
    assert_round_trip(&image_from(2, 1, fits));

    let out = vec![base, color(100 + 8, 100, 100, 255)];
    assert!(matches!(pixels_to_data(&out)[1], Chunk::Rgb(_, _, _)));
    assert_round_trip(&image_from(2, 1, out));
}

#[test]
fn alpha_change_forces_rgba() {
    let pixels = vec![color(10, 10, 10, 255), color(10, 10, 10, 254)];
    let data = pixels_to_data(&pixels);
    assert_eq!(data[1], Chunk::Rgba(10, 10, 10, 254));
    assert_round_trip(&image_from(2, 1, pixels));
}

#[test]
fn cache_hit_70_pixels_later() {
    // A pixel seen 70 pixels earlier whose hash slot was never overwritten
    // in between comes back as an Index chunk, byte-exact.
    let x = color(10, 10, 10, 255);
    let x_slot = pekoai::color::index_position(&x);
    let mut pixels = vec![x];
    let mut k: u8 = 1;
    while pixels.len() < 71 {
        let filler = color(k, 0, 0, 255);
        if pekoai::color::index_position(&filler) != x_slot && filler != x {
            pixels.push(filler);
        }
        k += 1;
    }
    pixels.push(x);
    let data = pixels_to_data(&pixels);
    assert_eq!(*data.last().unwrap(), Chunk::Index(x_slot as u8));
    let len = pixels.len() as u32;
    assert_round_trip(&image_from(len, 1, pixels));
}

#[test]
fn truncated_mid_chunk() {
    // A valid header for one pixel, then an Rgb tag missing its payload.
    let mut bytes = Header { width: 1, height: 1, channels: 4, colorspace: 0 }.to_bytes();
    bytes.push(0xfe);
    bytes.push(10);
    assert_eq!(decode(&bytes), Err(QoiError::TruncatedInput));
}

#[test]
fn missing_end_marker() {
    // A valid stream cut off before the marker ends in TruncatedInput.
    let img = image_from(1, 1, vec![color(5, 6, 7, 8)]);
    let mut bytes = encode(&img);
    bytes.truncate(bytes.len() - 1);
    assert_eq!(decode(&bytes), Err(QoiError::TruncatedInput));
}

#[test]
fn bad_magic() {
    let mut bytes = Header { width: 1, height: 1, channels: 4, colorspace: 0 }.to_bytes();
    bytes[0] = b'x';
    assert_eq!(decode(&bytes), Err(QoiError::BadMagic));
}

#[test]
fn truncated_header() {
    assert_eq!(decode(b"qoi"), Err(QoiError::TruncatedInput));
    assert_eq!(decode(b"qoif\x00\x00\x00\x01"), Err(QoiError::TruncatedInput));
    assert_eq!(decode(&[]), Err(QoiError::TruncatedInput));
}

#[test]
fn pixel_count_too_few() {
    // One encoded pixel but a header that declares two.
    let img = image_from(1, 1, vec![color(200, 30, 40, 255)]);
    let mut bytes = encode(&img);
    bytes[7] = 2; // widen the declared width to 2
    assert_eq!(decode(&bytes), Err(QoiError::PixelCountMismatch { too_many: false }));
}

#[test]
fn pixel_count_too_many() {
    // Two encoded pixels but a header that declares one.
    let img = image_from(2, 1, vec![color(200, 30, 40, 255), color(10, 200, 30, 255)]);
    let mut bytes = encode(&img);
    bytes[7] = 1; // narrow the declared width to 1
    assert_eq!(decode(&bytes), Err(QoiError::PixelCountMismatch { too_many: true }));
}

#[test]
fn image_new_rejects_wrong_pixel_count() {
    assert!(Image::new(2, 2, vec![color(0, 0, 0, 255); 3]).is_none());
    assert!(Image::new(2, 2, vec![color(0, 0, 0, 255); 4]).is_some());
}

#[test]
fn image_get_set() {
    let mut img = Image::filled(3, 2, color(1, 2, 3, 4));
    assert_eq!(img.get(2, 1), color(1, 2, 3, 4));
    img.set(2, 1, color(9, 8, 7, 6));
    assert_eq!(img.get(2, 1), color(9, 8, 7, 6));
    assert_eq!(img.get(1, 1), color(1, 2, 3, 4));
}

#[test]
fn chunk_bytes_round_trip() {
    let chunks = [
        Chunk::Rgb(1, 2, 3),
        Chunk::Rgba(4, 5, 6, 7),
        Chunk::Index(63),
        Chunk::Diff(3, 0, 2),
        Chunk::Luma(63, 15, 0),
        Chunk::Run(61),
    ];
    for ch in chunks {
        let bytes = ch.to_bytes();
        let (parsed, used) = Chunk::parse(&bytes, 0).expect("serialized chunk must parse");
        assert_eq!(parsed, ch);
        assert_eq!(used, bytes.len());
    }
}

#[test]
fn round_trip_slot_zero_and_one_hits() {
    // (5,5,5,255) hashes to slot 0 and (52,52,52,255) to slot 1. Alternating
    // them yields real Index(0) and Index(1) chunks in the stream, which must
    // not be mistaken for the end marker.
    let x = color(5, 5, 5, 255);
    let y = color(52, 52, 52, 255);
    assert_eq!(pekoai::color::index_position(&x), 0);
    assert_eq!(pekoai::color::index_position(&y), 1);
    let mut pixels = Vec::new();
    for _ in 0..40 {
        pixels.push(x);
        pixels.push(y);
    }
    let data = pixels_to_data(&pixels);
    assert!(data.contains(&Chunk::Index(0)));
    assert!(data.contains(&Chunk::Index(1)));
    assert_round_trip(&image_from(80, 1, pixels));
}

#[test]
fn round_trip_generated_image() {
    // A deterministic pseudo-random 64x48 image covering many chunk kinds.
    let mut state: u64 = 0x2545_f491_4f6c_dd1d;
    let mut pixels = Vec::new();
    for _ in 0..(64 * 48) {
        state = state.wrapping_mul(6364136223846793005).wrapping_add(1442695040888963407);
        let v = state >> 32;
        // small deltas often, jumps sometimes, occasional repeats
        match v % 5 {
            0 => {
                let last = *pixels.last().unwrap_or(&color(0, 0, 0, 255));
                pixels.push(last);
            },
            1 => {
                let last = *pixels.last().unwrap_or(&color(0, 0, 0, 255));
                pixels.push(color(
                    last.r.wrapping_add((v % 3) as u8),
                    last.g.wrapping_sub((v % 2) as u8),
                    last.b,
                    last.a,
                ));
            },
            _ => {
                pixels.push(color(
                    (v % 251) as u8,
                    (v / 7 % 253) as u8,
                    (v / 11 % 255) as u8,
                    if v % 13 == 0 { 200 } else { 255 },
                ));
            },
        }
    }
    assert_round_trip(&image_from(64, 48, pixels));
}

#[test]
fn error_descriptions_are_distinct() {
    let errs = [
        QoiError::TruncatedInput,
        QoiError::BadMagic,
        QoiError::InvalidTag,
        QoiError::PixelCountMismatch { too_many: true },
        QoiError::PixelCountMismatch { too_many: false },
    ];
    for (i, a) in errs.iter().enumerate() {
        for (j, b) in errs.iter().enumerate() {
            assert_eq!(i == j, a.describe() == b.describe());
        }
    }
}
