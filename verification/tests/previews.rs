use dng_profiles::downsample::box_downsample;
use dng_profiles::preview::{
    checked_image, decode_rgb, encode_preview, from_camera_jpeg, uses_camera_jpeg, JpegPreview,
    PreviewImage, MAX_LONG_EDGE,
};
use dng_profiles::stream::is_decodable;

/// Encode a synthetic gradient as a JPEG, the way a camera would.
fn synthetic_jpeg(width: u16, height: u16) -> Vec<u8> {
    let mut rgb = Vec::with_capacity(width as usize * height as usize * 3);
    for y in 0..height {
        for x in 0..width {
            rgb.push((x as u32 * 255 / width as u32) as u8);
            rgb.push((y as u32 * 255 / height as u32) as u8);
            rgb.push(128);
        }
    }
    let mut out = Vec::new();
    jpeg_encoder::Encoder::new(&mut out, 95)
        .encode(&rgb, width, height, jpeg_encoder::ColorType::Rgb)
        .unwrap();
    out
}

/// Encode a gray image, with one component.
fn gray_jpeg(width: u16, height: u16) -> Vec<u8> {
    let luma = vec![77u8; width as usize * height as usize];
    let mut out = Vec::new();
    jpeg_encoder::Encoder::new(&mut out, 95)
        .encode(&luma, width, height, jpeg_encoder::ColorType::Luma)
        .unwrap();
    out
}

#[test]
fn downsamples_to_the_long_edge_limit() {
    let preview = from_camera_jpeg(&synthetic_jpeg(640, 480), 200).expect("decodes");
    // ceil(640 / 200) = 4, so 160 by 120.
    assert_eq!((preview.width, preview.height), (160, 120));
    assert_eq!(&preview.bytes[..2], &[0xFF, 0xD8], "SOI marker");
    assert_eq!(
        &preview.bytes[preview.bytes.len() - 2..],
        &[0xFF, 0xD9],
        "EOI marker"
    );

    // The stream must decode back to the advertised dimensions.
    let (_, w, h) = decode_rgb(&preview.bytes).expect("re-decodes");
    assert_eq!((w, h), (160, 120));
}

#[test]
fn small_jpegs_are_re_encoded_at_full_size() {
    let preview = from_camera_jpeg(&synthetic_jpeg(300, 200), 1600).expect("decodes");
    assert_eq!((preview.width, preview.height), (300, 200));
}

#[test]
fn box_downsample_averages_blocks() {
    // 4x2 image, factor 2, so 2x1. Left block is all 10s, right block all 250s.
    let rgb: Vec<u8> = [10u8; 6]
        .iter()
        .chain([250u8; 6].iter())
        .chain([10u8; 6].iter())
        .chain([250u8; 6].iter())
        .copied()
        .collect();
    let (out, w, h) = box_downsample(&rgb, 4, 2, 2);
    assert_eq!((w, h), (2, 1));
    assert_eq!(out, vec![10, 10, 10, 250, 250, 250]);
}

#[test]
fn only_true2_bodies_use_the_camera_jpeg() {
    for m in ["SIGMA DP1X", "SIGMA DP2X", "SIGMA SD15", " SIGMA DP2X "] {
        assert!(uses_camera_jpeg(Some(m)), "{m}");
    }
    for m in [
        "SIGMA DP2",
        "SIGMA DP1S",
        "SIGMA SD14",
        "SIGMA DP2 Merrill",
        "SIGMA dp2 Quattro",
        "SIGMA sd Quattro H",
        "",
    ] {
        assert!(!uses_camera_jpeg(Some(m)), "{m}");
    }
    assert!(!uses_camera_jpeg(None));
}

#[test]
fn garbage_is_rejected() {
    assert!(from_camera_jpeg(b"not a jpeg", 1600).is_none());
    assert!(from_camera_jpeg(&[], 1600).is_none());
}

#[test]
fn models_are_trimmed_of_white_space_only() {
    assert!(uses_camera_jpeg(Some("\u{2003}SIGMA SD15\u{a0}\r\n\t")));
    assert!(!uses_camera_jpeg(Some("SIGMA SD15\0")));
    assert!(!uses_camera_jpeg(Some("SIGMA  SD15")));
    assert!(!uses_camera_jpeg(Some("\u{200b}SIGMA SD15")));
}

#[test]
fn white_space_is_the_listed_set() {
    let listed = |c: char| {
        ('\u{9}'..='\u{d}').contains(&c)
            || c == '\u{20}'
            || c == '\u{85}'
            || c == '\u{a0}'
            || c == '\u{1680}'
            || ('\u{2000}'..='\u{200a}').contains(&c)
            || ('\u{2028}'..='\u{2029}').contains(&c)
            || c == '\u{202f}'
            || c == '\u{205f}'
            || c == '\u{3000}'
    };
    for c in '\0'..=char::MAX {
        assert_eq!(c.is_whitespace(), listed(c), "{:x}", c as u32);
    }
}

#[test]
fn averages_round_halves_up_and_drop_partial_blocks() {
    // 5x3 image, factor 2, so 2x1; the last column and the last row are dropped.
    let mut rgb = vec![255u8; 5 * 3 * 3];
    let mut set = |x: usize, y: usize, v: [u8; 3]| {
        let p = (y * 5 + x) * 3;
        rgb[p..p + 3].copy_from_slice(&v);
    };
    set(0, 0, [0, 1, 10]);
    set(1, 0, [0, 2, 20]);
    set(0, 1, [1, 3, 30]);
    set(1, 1, [1, 4, 40]);
    set(2, 0, [1, 0, 255]);
    set(3, 0, [0, 0, 255]);
    set(2, 1, [0, 0, 255]);
    set(3, 1, [0, 1, 254]);
    let (out, w, h) = box_downsample(&rgb, 5, 3, 2);
    assert_eq!((w, h), (2, 1));
    // 2/4 rounds up to 1, 10/4 up to 3, 1/4 down to 0, 1019/4 up to 255.
    assert_eq!(out, vec![1, 3, 25, 0, 0, 255]);
}

#[test]
fn every_row_of_the_average_is_filled() {
    // 6x9 image, factor 3, so 2x3; each block has its own gray.
    let mut rgb = Vec::new();
    for y in 0..9usize {
        for x in 0..6usize {
            let v = (10 * (x / 3) + 40 * (y / 3)) as u8;
            rgb.extend_from_slice(&[v, v + 1, v + 2]);
        }
    }
    let (out, w, h) = box_downsample(&rgb, 6, 9, 3);
    assert_eq!((w, h), (2, 3));
    assert_eq!(
        out,
        vec![0, 1, 2, 10, 11, 12, 40, 41, 42, 50, 51, 52, 80, 81, 82, 90, 91, 92]
    );
}

#[test]
fn unit_blocks_keep_the_image_and_short_images_vanish() {
    let rgb: Vec<u8> = (0..24).collect();
    let (out, w, h) = box_downsample(&rgb, 4, 2, 1);
    assert_eq!((out.as_slice(), w, h), (rgb.as_slice(), 4, 2));
    let (out, w, h) = box_downsample(&rgb, 4, 2, 3);
    assert_eq!((out.len(), w, h), (0, 1, 0));
}

#[test]
fn narrow_images_vanish() {
    assert_eq!(box_downsample(&[0; 6], 1, 2, 2), (vec![], 0, 1));
    assert_eq!(box_downsample(&[9; 12], 4, 1, 5), (vec![], 0, 0));
    assert_eq!(box_downsample(&[], 1, 4, 2), (vec![], 0, 2));
    assert_eq!(box_downsample(&[], 0, 7, 3), (vec![], 0, 2));
}

#[test]
fn decoded_pixels_must_fit_their_dimensions() {
    assert!(checked_image(vec![0; 12], None).is_none());
    assert!(checked_image(vec![], Some((0, 4))).is_none());
    assert!(checked_image(vec![], Some((4, 0))).is_none());
    assert!(checked_image(vec![0; 11], Some((2, 2))).is_none());
    assert!(checked_image(vec![0; 4], Some((2, 2))).is_none());
    assert!(checked_image(vec![0; 12], Some((usize::MAX, 2))).is_none());
    assert!(checked_image(vec![0; 12], Some((usize::MAX / 2, 2))).is_none());
    assert_eq!(
        checked_image(vec![7; 12], Some((1, 4))),
        Some((vec![7; 12], 1, 4))
    );
}

#[test]
fn color_streams_decode_and_gray_ones_do_not_serve() {
    let (rgb, w, h) = decode_rgb(&synthetic_jpeg(40, 30)).expect("decodes");
    assert_eq!((rgb.len(), w, h), (3600, 40, 30));
    assert!(decode_rgb(&gray_jpeg(40, 30)).is_none());
    let mut truncated = synthetic_jpeg(40, 30);
    truncated.truncate(20);
    assert!(decode_rgb(&truncated).is_none());
}

#[test]
fn streams_begin_with_their_baseline_header() {
    let rgb = vec![200u8; 6 * 4 * 3];
    let preview = encode_preview(rgb, 6, 4, 1600).expect("encodes");
    let expected: Vec<u8> = vec![
        0xff, 0xd8, 0xff, 0xe0, 0, 16, b'J', b'F', b'I', b'F', 0, 1, 2, 0, 0, 1, 0, 1, 0, 0, 0xff,
        0xc0, 0, 17, 8, 0, 4, 0, 6, 3, 0, 0x22, 0, 1, 0x11, 1, 2, 0x11, 1,
    ];
    assert_eq!(&preview.bytes[..39], expected.as_slice());
    assert_eq!(&preview.bytes[preview.bytes.len() - 2..], &[0xff, 0xd9]);
}

#[test]
fn a_flat_image_keeps_its_color() {
    let rgb: Vec<u8> = [90u8, 140, 60].repeat(64 * 48);
    let preview = encode_preview(rgb, 64, 48, 16).expect("encodes");
    assert_eq!((preview.width, preview.height), (16, 12));
    let (pixels, w, h) = decode_rgb(&preview.bytes).expect("decodes");
    assert_eq!((w, h), (16, 12));
    for p in pixels.chunks_exact(3) {
        for (got, expected) in p.iter().zip([90i32, 140, 60]) {
            assert!((*got as i32 - expected).abs() <= 4, "{p:?}");
        }
    }
}

#[test]
fn edges_that_vanish_or_are_too_long_give_no_preview() {
    // Three pixels wide and scaled down by ten: nothing is left of the width.
    assert!(encode_preview(vec![0; 3 * 100 * 3], 3, 100, 10).is_none());
    assert!(encode_preview(vec![0; 100 * 3 * 3], 100, 3, 10).is_none());
    assert!(encode_preview(vec![0; 65_536 * 3], 65_536, 1, u32::MAX).is_none());
    assert!(encode_preview(vec![0; 65_536 * 3], 1, 65_536, u32::MAX).is_none());
}

#[test]
fn the_long_edge_is_never_over_the_limit() {
    for (w, h, edge, expected) in [
        (10usize, 10usize, 10u32, (10, 10)),
        (11, 10, 10, (5, 5)),
        (20, 10, 10, (10, 5)),
        (21, 10, 10, (7, 3)),
        (8, 8, 0, (1, 1)),
        (8, 8, 1, (1, 1)),
        (30, 29, 7, (6, 5)),
    ] {
        let preview = encode_preview(vec![9; w * h * 3], w, h, edge).expect("encodes");
        assert_eq!((preview.width, preview.height), expected);
        assert!(preview.width <= edge.max(1) && preview.height <= edge.max(1));
    }
    assert_eq!(MAX_LONG_EDGE, 1600);
}

#[test]
fn preview_images_tell_their_bytes_and_dimensions() {
    let jpeg = PreviewImage::Jpeg(JpegPreview {
        bytes: vec![1, 2, 3],
        width: 7,
        height: 5,
    });
    assert_eq!(jpeg.bytes(), &[1, 2, 3]);
    assert_eq!(jpeg.dimensions(), (7, 5));
    let rgb = PreviewImage::Rgb {
        bytes: vec![4; 12],
        width: 4,
        height: 1,
    };
    assert_eq!(rgb.bytes(), &[4; 12]);
    assert_eq!(rgb.dimensions(), (4, 1));
}

#[test]
fn previews_have_the_headers_of_a_baseline_stream() {
    for (width, height) in [(1u16, 1u16), (16, 9), (300, 200)] {
        let p = from_camera_jpeg(&synthetic_jpeg(width, height), 1600).expect("decodes");
        let bytes = &p.bytes;
        assert_eq!(&bytes[20..24], &[0xff, 0xc0, 0, 17]);
        assert_eq!(&bytes[39..44], &[0xff, 0xdb, 0, 67, 0]);
        assert_eq!(&bytes[108..113], &[0xff, 0xdb, 0, 67, 1]);
        for (at, head, counts) in [
            (177, [0xff, 0xc4, 0, 31, 0], [0, 1, 5, 1, 1, 1, 1, 1, 1, 0, 0, 0, 0, 0, 0, 0]),
            (210, [0xff, 0xc4, 0, 181, 0x10], [0, 2, 1, 3, 3, 2, 4, 3, 5, 5, 4, 4, 0, 0, 1, 125]),
            (393, [0xff, 0xc4, 0, 31, 1], [0, 3, 1, 1, 1, 1, 1, 1, 1, 1, 1, 0, 0, 0, 0, 0]),
            (426, [0xff, 0xc4, 0, 181, 0x11], [0, 2, 1, 2, 4, 4, 3, 4, 7, 5, 4, 4, 0, 1, 2, 119]),
        ] {
            assert_eq!(&bytes[at..at + 5], &head);
            assert_eq!(&bytes[at + 5..at + 21], &counts);
        }
        assert_eq!(
            &bytes[609..623],
            &[0xff, 0xda, 0, 12, 3, 0, 0, 1, 0x11, 2, 0x11, 0, 63, 0]
        );
        assert_eq!(&bytes[bytes.len() - 2..], &[0xff, 0xd9]);
        assert!(is_decodable(bytes));
        let (_, w, h) = decode_rgb(bytes).expect("decodes again");
        assert_eq!((w, h), (usize::from(width), usize::from(height)));
    }
}

#[test]
fn previews_of_hard_images_decode_again() {
    // Blocks of black and white as rough as samples of eight bits can be.
    for (width, height) in [(33u32, 18u32), (64, 64)] {
        for step in [1u32, 2, 3, 4] {
            let rgb: Vec<u8> = (0..width * height)
                .flat_map(|k| {
                    let on = (k % width / step + k / width / step) % 2 == 0;
                    [if on { 255 } else { 0 }, if on { 0 } else { 255 }, (k * 97 % 256) as u8]
                })
                .collect();
            let (w, h) = (width as usize, height as usize);
            let p = encode_preview(rgb, w, h, 1600).expect("encodes");
            let (_, out_w, out_h) = decode_rgb(&p.bytes).expect("decodes");
            assert_eq!((out_w, out_h), (w, h));
        }
    }
}
