use dng_profiles::matrices::{IlluminantMatrices, ProfileMatrices};
use dng_profiles::mmcr::build_mmcr_profile;
use dng_profiles::tags as t;

fn bits(values: [f32; 9]) -> [u32; 9] {
    values.map(f32::to_bits)
}

fn words(values: &[f32]) -> Vec<u32> {
    values.iter().map(|v| v.to_bits()).collect()
}

fn single(color: [f32; 9], forward: [f32; 9]) -> ProfileMatrices {
    ProfileMatrices::single(bits(color), bits(forward))
}

fn be16(blob: &[u8], p: usize) -> u16 {
    u16::from_be_bytes([blob[p], blob[p + 1]])
}

fn be32(blob: &[u8], p: usize) -> u32 {
    u32::from_be_bytes([blob[p], blob[p + 1], blob[p + 2], blob[p + 3]])
}

fn read_entry(blob: &[u8], i: usize) -> (u16, u16, u32, [u8; 4]) {
    let off = be32(blob, 4) as usize;
    let p = off + 2 + i * 12;
    (
        be16(blob, p),
        be16(blob, p + 2),
        be32(blob, p + 4),
        blob[p + 8..p + 12].try_into().unwrap(),
    )
}

fn read_entries(blob: &[u8]) -> Vec<(u16, u16, u32, [u8; 4])> {
    let off = be32(blob, 4) as usize;
    let count = be16(blob, off) as usize;
    (0..count).map(|i| read_entry(blob, i)).collect()
}

fn kind_size(kind: u16) -> usize {
    match kind {
        t::TIFF_TYPE_ASCII => 1,
        t::TIFF_TYPE_SHORT => 2,
        t::TIFF_TYPE_SRATIONAL => 8,
        _ => 4,
    }
}

/// The value of a tag, found as a TIFF reader finds it.
fn payload(blob: &[u8], tag: u16) -> Vec<u8> {
    let e = read_entries(blob)
        .into_iter()
        .find(|e| e.0 == tag)
        .expect("tag is there");
    let size = e.2 as usize * kind_size(e.1);
    if size <= 4 {
        e.3[..size].to_vec()
    } else {
        let at = u32::from_be_bytes(e.3) as usize;
        blob[at..at + size].to_vec()
    }
}

#[test]
fn dual_illuminant_mmcr_carries_both_matrices_and_illuminants_in_order() {
    let matrices = ProfileMatrices {
        first: IlluminantMatrices {
            color: bits([0.1_f32; 9]),
            forward: bits([0.2_f32; 9]),
            illuminant: t::CALIB_ILLUMINANT_STANDARD_A,
        },
        second: Some(IlluminantMatrices {
            color: bits([0.3_f32; 9]),
            forward: bits([0.4_f32; 9]),
            illuminant: t::CALIB_ILLUMINANT_D65,
        }),
    };
    let blob = build_mmcr_profile("Standard", &matrices, None, None);
    let off = be32(&blob, 4) as usize;
    let entry_count = be16(&blob, off) as usize;
    assert_eq!(entry_count, 9);
    let entries: Vec<_> = (0..entry_count).map(|i| read_entry(&blob, i)).collect();
    let tags: Vec<u16> = entries.iter().map(|e| e.0).collect();
    let mut sorted = tags.clone();
    sorted.sort();
    assert_eq!(tags, sorted);
    for expect in [
        t::COLOR_MATRIX2,
        t::CALIBRATION_ILLUMINANT1,
        t::CALIBRATION_ILLUMINANT2,
        t::FORWARD_MATRIX2,
    ] {
        assert!(tags.contains(&expect), "missing tag {expect}");
    }
    let illuminant = |tag: u16| {
        let e = entries.iter().find(|e| e.0 == tag).unwrap();
        assert_eq!(e.1, t::TIFF_TYPE_SHORT);
        assert_eq!(e.2, 1);
        u16::from_be_bytes([e.3[0], e.3[1]])
    };
    assert_eq!(illuminant(t::CALIBRATION_ILLUMINANT1), 17);
    assert_eq!(illuminant(t::CALIBRATION_ILLUMINANT2), 21);
    // ColorMatrix2 payload decodes to its 0.3 entries.
    let cm2 = entries.iter().find(|e| e.0 == t::COLOR_MATRIX2).unwrap();
    let p = u32::from_be_bytes(cm2.3) as usize;
    let n = i32::from_be_bytes(blob[p..p + 4].try_into().unwrap());
    let d = i32::from_be_bytes(blob[p + 4..p + 8].try_into().unwrap());
    assert_eq!((n, d), (3_000, 10_000));
}

#[test]
fn single_matrix_mmcr_carries_no_illuminant_tags() {
    let blob = build_mmcr_profile("Standard", &single([0.1_f32; 9], [0.2_f32; 9]), None, None);
    let off = be32(&blob, 4) as usize;
    let entry_count = be16(&blob, off) as usize;
    let tags: Vec<u16> = (0..entry_count).map(|i| read_entry(&blob, i).0).collect();
    for absent in [
        t::COLOR_MATRIX2,
        t::CALIBRATION_ILLUMINANT1,
        t::CALIBRATION_ILLUMINANT2,
        t::FORWARD_MATRIX2,
    ] {
        assert!(!tags.contains(&absent), "unexpected tag {absent}");
    }
}

#[test]
fn mmcr_blob_starts_with_magic() {
    let color = [1.0_f32; 9];
    let fwd = [0.5_f32; 9];
    let blob = build_mmcr_profile("Test Profile", &single(color, fwd), None, None);
    assert_eq!(&blob[..4], b"MMCR");
}

#[test]
fn mmcr_blob_ifd0_offset_points_inside_blob() {
    let blob = build_mmcr_profile("Test", &single([0.0_f32; 9], [0.0_f32; 9]), None, None);
    let off = be32(&blob, 4) as usize;
    assert!(off < blob.len(), "IFD0 offset {off} >= blob len {}", blob.len());
    let entry_count = be16(&blob, off);
    assert_eq!(entry_count, 5);
}

#[test]
fn mmcr_entries_are_in_tag_order() {
    let blob = build_mmcr_profile("X", &single([0.0_f32; 9], [0.0_f32; 9]), None, None);
    let off = be32(&blob, 4) as usize;
    let tags: Vec<u16> = (0..5).map(|i| be16(&blob, off + 2 + i * 12)).collect();
    let mut sorted = tags.clone();
    sorted.sort();
    assert_eq!(tags, sorted);
}

#[test]
fn mmcr_ifd_body_at_offset_8() {
    // Readers refuse records whose directory does not follow the 8-byte header.
    let blob = build_mmcr_profile("Vivid", &single([0.0_f32; 9], [0.0_f32; 9]), None, None);
    let off = be32(&blob, 4) as usize;
    assert_eq!(off, 8, "IFD body must start at offset 8");
}

#[test]
fn mmcr_externals_after_ifd_body() {
    // ColorMatrix1 is at index 1 (after Compression). Its value stands behind the
    // directory.
    let blob = build_mmcr_profile("Vivid", &single([0.0_f32; 9], [0.0_f32; 9]), None, None);
    let ifd_off = be32(&blob, 4) as usize;
    let ifd_end = ifd_off + 2 + 5 * 12 + 4;
    let cm_p = ifd_off + 2 + 12;
    let cm_value = be32(&blob, cm_p + 8) as usize;
    assert!(
        cm_value >= ifd_end,
        "ColorMatrix1 external value at {cm_value} should be after IFD body end {ifd_end}",
    );
}

#[test]
fn mmcr_with_hue_sat_map_has_three_extra_tags_in_order() {
    // Saturation is the fastest varying dimension: the neutral and saturated
    // correction records for each hue are adjacent.
    let mut hsm: Vec<f32> = Vec::with_capacity(21 * 2 * 3);
    for h in 0..21 {
        for _ in 0..2 {
            hsm.push(h as f32 * 0.5); // hue shift
            hsm.push(1.0 + h as f32 * 0.01); // sat scale
            hsm.push(1.0); // value scale
        }
    }
    let table = words(&hsm);
    let blob = build_mmcr_profile(
        "Vivid",
        &single([0.0_f32; 9], [0.0_f32; 9]),
        None,
        Some(table.as_slice()),
    );
    let off = be32(&blob, 4) as usize;
    let entry_count = be16(&blob, off);
    // Base 5 + Dims/Data1/Encoding = 8.
    assert_eq!(entry_count, 8);
    let tags: Vec<u16> = (0..entry_count as usize)
        .map(|i| be16(&blob, off + 2 + i * 12))
        .collect();
    // Tag-id-ascending invariant must hold.
    let mut sorted = tags.clone();
    sorted.sort();
    assert_eq!(tags, sorted);
    // The three new tags must be present.
    for &expect in &[
        t::PROFILE_HUE_SAT_MAP_DIMS,
        t::PROFILE_HUE_SAT_MAP_DATA1,
        t::PROFILE_HUE_SAT_MAP_ENCODING,
    ] {
        assert!(tags.contains(&expect), "missing tag {expect}");
    }
    let index = tags
        .iter()
        .position(|&tag| tag == t::PROFILE_HUE_SAT_MAP_DATA1)
        .unwrap();
    let entry = off + 2 + index * 12;
    let count = be32(&blob, entry + 4);
    let data_offset = be32(&blob, entry + 8) as usize;
    assert_eq!(count, 126);
    let decoded: Vec<f32> = blob[data_offset..data_offset + count as usize * 4]
        .chunks_exact(4)
        .map(|bytes| f32::from_be_bytes(bytes.try_into().unwrap()))
        .collect();
    assert_eq!(decoded, hsm, "MMCR must preserve saturation-fastest order");
}

#[test]
fn mmcr_hue_sat_map_encoding_is_inline_linear() {
    let hsm = words(&[0.0_f32, 1.0, 1.0].repeat(21 * 2));
    let blob = build_mmcr_profile(
        "X",
        &single([0.0_f32; 9], [0.0_f32; 9]),
        None,
        Some(hsm.as_slice()),
    );
    let off = be32(&blob, 4) as usize;
    let entry_count = be16(&blob, off);
    let mut found = false;
    for i in 0..entry_count as usize {
        let p = off + 2 + i * 12;
        let tag = be16(&blob, p);
        if tag == t::PROFILE_HUE_SAT_MAP_ENCODING {
            assert_eq!(be16(&blob, p + 2), 4);
            assert_eq!(be32(&blob, p + 4), 1);
            let val = be32(&blob, p + 8);
            // A map with one value division must not acquire a gamma transform.
            assert_eq!(val, 0, "V=1 maps require explicit linear encoding");
            found = true;
        }
    }
    assert!(found, "Encoding tag missing");
}

#[test]
fn mmcr_hue_sat_map_dims_payload_is_21_2_1() {
    let hsm = words(&[0.0_f32, 1.0, 1.0].repeat(21 * 2));
    let blob = build_mmcr_profile(
        "X",
        &single([0.0_f32; 9], [0.0_f32; 9]),
        None,
        Some(hsm.as_slice()),
    );
    let off = be32(&blob, 4) as usize;
    let entry_count = be16(&blob, off);
    let mut dims_off = None;
    for i in 0..entry_count as usize {
        let p = off + 2 + i * 12;
        let tag = be16(&blob, p);
        if tag == t::PROFILE_HUE_SAT_MAP_DIMS {
            dims_off = Some(be32(&blob, p + 8) as usize);
        }
    }
    let dims_off = dims_off.expect("Dims tag missing");
    let h = be32(&blob, dims_off);
    let s = be32(&blob, dims_off + 4);
    let v = be32(&blob, dims_off + 8);
    assert_eq!([h, s, v], [21, 2, 1]);
}

#[test]
fn mmcr_has_compression_tag() {
    // The first entry must be tag 259 (Compression), type SHORT, value 1.
    let blob = build_mmcr_profile("X", &single([0.0_f32; 9], [0.0_f32; 9]), None, None);
    let off = be32(&blob, 4) as usize;
    let mut found = false;
    for i in 0..5 {
        let p = off + 2 + i * 12;
        let tag = be16(&blob, p);
        if tag == 259 {
            let ty = be16(&blob, p + 2);
            let count = be32(&blob, p + 4);
            let val = be16(&blob, p + 8);
            assert_eq!(ty, t::TIFF_TYPE_SHORT);
            assert_eq!(count, 1);
            assert_eq!(val, 1, "Compression must be Uncompressed (=1)");
            found = true;
            break;
        }
    }
    assert!(found, "Compression tag missing from MMCR profile");
}

#[test]
fn a_small_record_byte_for_byte() {
    let mut color = [0.0_f32; 9];
    color[0] = 1.0;
    color[1] = -0.5;
    let mut forward = [0.0_f32; 9];
    forward[8] = 2.0;
    let blob = build_mmcr_profile("AB", &single(color, forward), None, None);

    let mut expected: Vec<u8> = Vec::new();
    expected.extend_from_slice(b"MMCR\x00\x00\x00\x08\x00\x05");
    expected.extend_from_slice(&[0x01, 0x03, 0, 3, 0, 0, 0, 1, 0, 1, 0, 0]);
    expected.extend_from_slice(&[0xc6, 0x21, 0, 10, 0, 0, 0, 9, 0, 0, 0, 74]);
    expected.extend_from_slice(&[0xc6, 0xf8, 0, 2, 0, 0, 0, 3, b'A', b'B', 0, 0]);
    expected.extend_from_slice(&[0xc7, 0x14, 0, 10, 0, 0, 0, 9, 0, 0, 0, 146]);
    expected.extend_from_slice(&[0xc7, 0xa6, 0, 4, 0, 0, 0, 1, 0, 0, 0, 1]);
    expected.extend_from_slice(&[0, 0, 0, 0]);
    for v in [10_000_i32, -5_000, 0, 0, 0, 0, 0, 0, 0] {
        expected.extend_from_slice(&v.to_be_bytes());
        expected.extend_from_slice(&10_000_i32.to_be_bytes());
    }
    for v in [0_i32, 0, 0, 0, 0, 0, 0, 0, 20_000] {
        expected.extend_from_slice(&v.to_be_bytes());
        expected.extend_from_slice(&10_000_i32.to_be_bytes());
    }
    assert_eq!(blob, expected);
}

#[test]
fn names_of_three_bytes_stand_in_their_entry_and_longer_ones_at_the_tail() {
    let m = single([0.0_f32; 9], [0.0_f32; 9]);
    let short = build_mmcr_profile("abc", &m, None, None);
    assert_eq!(payload(&short, t::PROFILE_NAME), b"abc\0");
    assert_eq!(short.len(), 74 + 144);
    let long = build_mmcr_profile("abcd", &m, None, None);
    assert_eq!(payload(&long, t::PROFILE_NAME), b"abcd\0");
    assert_eq!(long.len(), 74 + 144 + 5);
    let empty = build_mmcr_profile("", &m, None, None);
    assert_eq!(payload(&empty, t::PROFILE_NAME), b"\0");
    // A name is counted in bytes.
    let accented = build_mmcr_profile("\u{e9}\u{e9}", &m, None, None);
    assert_eq!(
        payload(&accented, t::PROFILE_NAME),
        "\u{e9}\u{e9}\0".as_bytes()
    );
}

#[test]
fn a_full_record_reads_back() {
    let matrices = ProfileMatrices {
        first: IlluminantMatrices {
            color: bits([0.25_f32; 9]),
            forward: bits([-0.75_f32; 9]),
            illuminant: 17,
        },
        second: Some(IlluminantMatrices {
            color: bits([1.5_f32; 9]),
            forward: bits([2.0_f32; 9]),
            illuminant: 21,
        }),
    };
    let curve = words(&[0.0, 0.0, 0.5, 0.6, 1.0, 1.0]);
    let map = words(&[0.0, 1.0, 1.0, 5.0, 0.5, 1.0]);
    let blob = build_mmcr_profile(
        "Everything",
        &matrices,
        Some(curve.as_slice()),
        Some(map.as_slice()),
    );
    let tags: Vec<u16> = read_entries(&blob).iter().map(|e| e.0).collect();
    assert_eq!(
        tags,
        vec![
            259, 50721, 50722, 50778, 50779, 50936, 50937, 50938, 50940, 50964, 50965, 51107, 51110
        ]
    );
    let rationals = |tag: u16| -> Vec<(i32, i32)> {
        payload(&blob, tag)
            .chunks_exact(8)
            .map(|b| {
                (
                    i32::from_be_bytes(b[..4].try_into().unwrap()),
                    i32::from_be_bytes(b[4..].try_into().unwrap()),
                )
            })
            .collect()
    };
    assert_eq!(rationals(t::COLOR_MATRIX1), vec![(2_500, 10_000); 9]);
    assert_eq!(rationals(t::COLOR_MATRIX2), vec![(15_000, 10_000); 9]);
    assert_eq!(rationals(t::FORWARD_MATRIX1), vec![(-7_500, 10_000); 9]);
    assert_eq!(rationals(t::FORWARD_MATRIX2), vec![(20_000, 10_000); 9]);
    let longs = |tag: u16| -> Vec<u32> {
        payload(&blob, tag)
            .chunks_exact(4)
            .map(|b| u32::from_be_bytes(b.try_into().unwrap()))
            .collect()
    };
    assert_eq!(longs(t::PROFILE_TONE_CURVE), curve);
    assert_eq!(longs(t::PROFILE_HUE_SAT_MAP_DATA1), map);
    assert_eq!(longs(t::PROFILE_HUE_SAT_MAP_DIMS), vec![21, 2, 1]);
    assert_eq!(longs(t::PROFILE_HUE_SAT_MAP_ENCODING), vec![0]);
    assert_eq!(longs(t::DEFAULT_BLACK_RENDER), vec![1]);
    assert_eq!(payload(&blob, t::PROFILE_NAME), b"Everything\0");
    // Values behind the directory are at even places.
    for e in read_entries(&blob) {
        if e.2 as usize * kind_size(e.1) > 4 {
            assert_eq!(u32::from_be_bytes(e.3) % 2, 0);
        }
    }
}

#[test]
fn empty_tables_keep_their_tags() {
    let none: Vec<u32> = Vec::new();
    let blob = build_mmcr_profile(
        "X",
        &single([0.0_f32; 9], [0.0_f32; 9]),
        Some(none.as_slice()),
        Some(none.as_slice()),
    );
    assert!(payload(&blob, t::PROFILE_TONE_CURVE).is_empty());
    assert!(payload(&blob, t::PROFILE_HUE_SAT_MAP_DATA1).is_empty());
    assert_eq!(read_entries(&blob).len(), 9);
}
