use dng_profiles::preview::{decode_rgb, from_camera_jpeg};
use dng_profiles::stream::is_decodable;
use jpeg_encoder::{ColorType, Encoder, SamplingFactor};
use zune_jpeg::zune_core::colorspace::ColorSpace;
use zune_jpeg::zune_core::options::DecoderOptions;

fn segment(marker: u8, body: &[u8]) -> Vec<u8> {
    let length = body.len() + 2;
    let mut s = vec![0xff, marker, (length / 256) as u8, (length % 256) as u8];
    s.extend_from_slice(body);
    s
}

fn quantization() -> Vec<u8> {
    let mut body = vec![0];
    body.extend_from_slice(&[1; 64]);
    segment(0xdb, &body)
}

fn frame(marker: u8, width: u16, height: u16, factors: &[u8]) -> Vec<u8> {
    let mut body = vec![8];
    body.extend_from_slice(&height.to_be_bytes());
    body.extend_from_slice(&width.to_be_bytes());
    body.push(factors.len() as u8);
    for (i, f) in factors.iter().enumerate() {
        body.extend_from_slice(&[i as u8 + 1, *f, 0]);
    }
    segment(marker, &body)
}

/// A Huffman table with a few symbols of two and three bits.
fn huffman(place: u8) -> Vec<u8> {
    let mut body = vec![place, 0, 3, 1];
    body.extend_from_slice(&[0; 13]);
    if place < 16 {
        body.extend_from_slice(&[0, 1, 3, 5]);
    } else {
        body.extend_from_slice(&[0, 1, 0x12, 0xf0]);
    }
    segment(0xc4, &body)
}

fn scan(ids: &[u8], tables: &[u8], start: u8, end: u8, approximation: u8) -> Vec<u8> {
    let mut body = vec![ids.len() as u8];
    for (id, t) in ids.iter().zip(tables) {
        body.extend_from_slice(&[*id, *t]);
    }
    body.extend_from_slice(&[start, end, approximation]);
    segment(0xda, &body)
}

/// Entropy-coded bytes that stand for blocks of zeros.
fn zeros(n: usize) -> Vec<u8> {
    vec![0; n]
}

/// The decoder by itself. Only for streams on which it returns.
fn decoded(stream: &[u8]) -> Option<(Vec<u8>, usize, usize)> {
    let options = DecoderOptions::default().jpeg_set_out_colorspace(ColorSpace::RGB);
    let mut decoder = zune_jpeg::JpegDecoder::new_with_options(stream, options);
    let pixels = decoder.decode().ok()?;
    let (w, h) = decoder.dimensions()?;
    if pixels.len() == w * h * 3 {
        Some((pixels, w, h))
    } else {
        None
    }
}

fn gradient(width: usize, height: usize, channels: usize) -> Vec<u8> {
    (0..width * height * channels)
        .map(|k| (k * 7 % 251) as u8)
        .collect()
}

const FACTORS: [u8; 16] = [
    0x11, 0x12, 0x14, 0x18, 0x21, 0x22, 0x24, 0x28, 0x41, 0x42, 0x44, 0x48, 0x81, 0x82, 0x84, 0x88,
];

const SIZES: [(u16, u16); 5] = [(1, 1), (15, 40), (16, 16), (50, 17), (130, 140)];

/// Streams whose three components have every combination of factors, with the scans
/// that `scans` gives for the number of the combination.
fn of_every_factor(marker: u8, scans: impl Fn(usize) -> Vec<u8>) -> Vec<Vec<u8>> {
    let mut streams = Vec::new();
    for (width, height) in SIZES {
        for a in FACTORS {
            for b in FACTORS {
                for c in FACTORS {
                    let mut s = vec![0xff, 0xd8];
                    s.extend(quantization());
                    s.extend(frame(marker, width, height, &[a, b, c]));
                    s.extend(huffman(0));
                    s.extend(huffman(0x10));
                    s.extend(scans(streams.len()));
                    streams.push(s);
                }
            }
        }
    }
    streams
}

/// How many of the streams are taken. The decoder returns on each of those.
fn taken(streams: &[Vec<u8>]) -> usize {
    let mut n = 0;
    for s in streams {
        if is_decodable(s) {
            assert_eq!(decode_rgb(s), decoded(s));
            n += 1;
        } else {
            assert_eq!(decode_rgb(s), None);
        }
    }
    n
}

#[test]
fn encoded_images_are_taken() {
    for (width, height) in [(1u16, 1u16), (7, 9), (16, 16), (33, 70), (150, 41)] {
        for sampling in [
            SamplingFactor::F_1_1,
            SamplingFactor::F_2_1,
            SamplingFactor::F_1_2,
            SamplingFactor::F_2_2,
            SamplingFactor::F_4_1,
            SamplingFactor::F_4_2,
            SamplingFactor::F_1_4,
            SamplingFactor::F_2_4,
        ] {
            for (color, channels) in [
                (ColorType::Rgb, 3),
                (ColorType::Cmyk, 4),
                (ColorType::CmykAsYcck, 4),
            ] {
                for (progressive, restarts) in
                    [(false, false), (false, true), (true, false), (true, true)]
                {
                    let pixels = gradient(width as usize, height as usize, channels);
                    let mut stream = Vec::new();
                    let mut encoder = Encoder::new(&mut stream, 80);
                    encoder.set_sampling_factor(sampling);
                    encoder.set_progressive(progressive);
                    if restarts {
                        encoder.set_restart_interval(3);
                    }
                    encoder.encode(&pixels, width, height, color).unwrap();
                    if is_decodable(&stream) {
                        assert_eq!(decode_rgb(&stream), decoded(&stream));
                    } else {
                        assert_eq!(decode_rgb(&stream), None);
                        // The decoder has no room for a row this short at four samples a
                        // step, nor for a fourth component larger than the first three. It
                        // reports an error where a restart falls on the end of a
                        // progressive scan.
                        let quadruple =
                            matches!(sampling, SamplingFactor::F_4_1 | SamplingFactor::F_4_2);
                        assert!(
                            channels == 4
                                || (width < 16 && quadruple)
                                || (progressive && restarts)
                        );
                    }
                }
            }
        }
    }
}

#[test]
fn the_decoder_returns_on_single_scans() {
    let streams = of_every_factor(0xc0, |_| {
        let mut s = scan(&[1, 2, 3], &[0, 0, 0], 0, 63, 0);
        s.extend(zeros(40));
        s.extend_from_slice(&[0xff, 0xd9]);
        s
    });
    assert!(taken(&streams) > 1000);
}

#[test]
fn the_decoder_returns_on_sequences_of_scans() {
    let streams = of_every_factor(0xc1, |k| {
        let mut s = Vec::new();
        if k % 2 == 0 {
            s.extend(huffman(1));
            s.extend(huffman(0x11));
        }
        for (id, tables) in [(1, 0), (2, k / 2 % 2), (3, k / 4 % 2)] {
            s.extend(scan(&[id], &[tables as u8 * 0x11], 0, 63, 0));
            s.extend(zeros(30));
        }
        s.extend_from_slice(&[0xff, 0xd9]);
        s
    });
    assert!(taken(&streams) > 1000);
}

#[test]
fn the_decoder_returns_on_progressive_scans() {
    let streams = of_every_factor(0xc2, |k| {
        let n = [1, 2, 3, 30, 250][k % 5];
        let mut s = scan(&[1, 2, 3], &[0, 0, 0], 0, 0, 1);
        s.extend(zeros(n));
        for id in [1, 2, 3] {
            for (start, end, approximation) in [(1, 63, 1), (1, 63, 0x10), (0, 0, 0x10)] {
                s.extend(scan(&[id], &[0], start, end, approximation));
                s.extend(zeros(n));
            }
        }
        if k % 7 != 0 {
            s.extend_from_slice(&[0xff, 0xd9]);
        }
        s
    });
    let n = taken(&streams);
    assert!(n > 500, "{n}");
}

#[test]
fn a_scan_of_zeros_is_a_gray_image() {
    for (width, height) in SIZES {
        for factor in [0x11, 0x21, 0x12, 0x22] {
            for n in [0, 1, 7, 300] {
                let mut s = vec![0xff, 0xd8];
                s.extend(quantization());
                s.extend(frame(0xc0, width, height, &[factor, 0x11, 0x11]));
                for place in [0, 0x10] {
                    let mut body = vec![place, 1];
                    body.extend_from_slice(&[0; 15]);
                    body.push(0);
                    s.extend(segment(0xc4, &body));
                }
                s.extend(scan(&[1, 2, 3], &[0, 0, 0], 0, 63, 0));
                s.extend(zeros(n));
                assert!(is_decodable(&s));
                let (w, h) = (usize::from(width), usize::from(height));
                assert_eq!(decode_rgb(&s), Some((vec![128; w * h * 3], w, h)));
            }
        }
    }
}

#[test]
fn motion_jpeg_frames_have_standard_tables() {
    let stream = |body: &[u8], tables: &[u8]| {
        let mut s = vec![0xff, 0xd8];
        s.extend(segment(0xe0, body));
        s.extend(quantization());
        s.extend(frame(0xc0, 33, 20, &[0x22, 0x11, 0x11]));
        s.extend(scan(&[1, 2, 3], tables, 0, 63, 0));
        s.extend((0..60u8).map(|k| k.wrapping_mul(37) & 0x7f));
        s.extend_from_slice(&[0xff, 0xd9]);
        s
    };
    for tables in [[0, 0, 0], [0, 0x11, 0x11], [0x11, 0x01, 0x10]] {
        let s = stream(b"AVI1\0\0\0\0\0\0\0\0\0\0", &tables);
        assert_eq!(decode_rgb(&s).is_some(), is_decodable(&s));
        // No other stream has them.
        let s = stream(b"JFIF\0\x01\x02\0\0\x01\0\x01\0\0", &tables);
        assert!(!is_decodable(&s));
        assert_eq!(decoded(&s), None);
    }
    let s = stream(b"AVI1\0\0\0\0\0\0\0\0\0\0", &[0, 0x11, 0x11]);
    assert!(is_decodable(&s));
    assert_eq!(decode_rgb(&s), decoded(&s));
    assert!(!is_decodable(&stream(b"AVI1\0\0\0\0\0\0\0\0\0\0", &[0x22, 0, 0])));
}

#[test]
fn data_that_break_off_at_a_marker_are_left_out() {
    let stream = |data: &[u8]| {
        let mut s = vec![0xff, 0xd8];
        s.extend(quantization());
        s.extend(frame(0xc0, 8, 8, &[0x11, 0x11, 0x11]));
        for place in [0, 0x10] {
            let mut body = vec![place, 1];
            body.extend_from_slice(&[0; 15]);
            body.push(0);
            s.extend(segment(0xc4, &body));
        }
        s.extend(scan(&[1, 2, 3], &[0, 0, 0], 0, 63, 0));
        s.extend_from_slice(data);
        s
    };
    // No bits at all in front of a marker.
    let s = stream(&[0xff, 0xd0, 0, 0xff, 0xd9]);
    assert!(!is_decodable(&s));
    assert_eq!(decode_rgb(&s), None);
    // A few, and the end of the image.
    let s = stream(&[0, 0xff, 0xd9]);
    assert_eq!(decode_rgb(&s), Some((vec![128; 192], 8, 8)));
    let s = stream(&[0xff, 0xd9]);
    assert_eq!(decode_rgb(&s), Some((vec![128; 192], 8, 8)));
}

#[test]
fn coefficients_out_of_range_are_left_out() {
    let stream = |amount: &[u8]| {
        let mut s = vec![0xff, 0xd8];
        let mut body = vec![0x10];
        body.extend_from_slice(&[0x40; 128]);
        s.extend(segment(0xdb, &body));
        s.extend(frame(0xc0, 8, 8, &[0x11, 0x11, 0x11]));
        // The one code of the DC table stands for a difference of eight bits.
        for (place, symbol) in [(0, 8), (0x10, 0)] {
            let mut body = vec![place, 1];
            body.extend_from_slice(&[0; 15]);
            body.push(symbol);
            s.extend(segment(0xc4, &body));
        }
        s.extend(scan(&[1, 2, 3], &[0, 0, 0], 0, 63, 0));
        s.extend_from_slice(amount);
        s.extend_from_slice(&[0; 20]);
        s
    };
    // Sixteen-bit quantization values times 255 pass the limit.
    assert!(!is_decodable(&stream(&[0x7f, 0x80])));
    assert_eq!(decode_rgb(&stream(&[0x7f, 0x80])), None);
    assert!(!is_decodable(&stream(&[0, 0])));
}

#[test]
fn bytes_behind_the_end_of_a_progressive_image_are_not_read() {
    let mut s = vec![0xff, 0xd8];
    s.extend(quantization());
    s.extend(frame(0xc2, 8, 8, &[0x11, 0x11, 0x11]));
    s.extend(huffman(0));
    s.extend(scan(&[1, 2, 3], &[0, 0, 0], 0, 0, 0));
    s.extend_from_slice(&[0, 0, 0xff, 0xd9, 0xff, 0xd0]);
    assert!(is_decodable(&s));
    assert_eq!(decode_rgb(&s), Some((vec![128; 192], 8, 8)));
}

#[test]
fn streams_that_the_decoder_fails_on_are_left_out() {
    let mut s = vec![0xff, 0xd8];
    s.extend(quantization());
    s.extend(frame(0xc0, 16, 16, &[0x11, 0x22, 0x11]));
    s.extend(huffman(0));
    s.extend(huffman(0x10));
    s.extend(scan(&[1, 2, 3], &[0, 0, 0], 0, 63, 0));
    s.extend_from_slice(&[0; 8]);
    s.extend_from_slice(&[0xff, 0xd9]);
    assert!(!is_decodable(&s));
    assert!(decode_rgb(&s).is_none());
    assert!(from_camera_jpeg(&s, 1600).is_none());

    let mut s = vec![0xff, 0xd8];
    s.extend(quantization());
    s.extend(frame(0xc2, 8, 8, &[0x11, 0x11, 0x11]));
    s.extend(huffman(0));
    s.extend(scan(&[1, 2, 3], &[0, 0, 0], 0, 0, 0));
    s.extend_from_slice(&[0, 0xff, 0xd0]);
    assert!(!is_decodable(&s));
    assert!(decode_rgb(&s).is_none());
    // With an end behind the restart marker the decoder stops.
    s.extend_from_slice(&[0xff, 0xd9]);
    assert!(is_decodable(&s));
    assert_eq!(decode_rgb(&s), decoded(&s));
}
