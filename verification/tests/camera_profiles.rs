use dng_profiles::camera::{
    camera_profiles, default_index_among, default_profile_index, position_of, BmtSource,
    CameraProfile,
};
use dng_profiles::directory::{DirectoryWriter, Value};
use dng_profiles::matrices::{
    compute_matrices, dual_illuminant_matrices, Bases, MatrixPair, ProfileInputs,
    ProfileMatrices,
};
use dng_profiles::mmcr::build_mmcr_profile;
use dng_profiles::profiles::{add_profile_tags, build_extra_profiles_blob, write_default_profile};
use dng_profiles::tags as t;

fn pair(color: f32, forward: f32) -> MatrixPair {
    MatrixPair {
        color: [color.to_bits(); 9],
        forward: [forward.to_bits(); 9],
    }
}

fn inputs() -> ProfileInputs {
    ProfileInputs {
        has_required: false,
        plain: Bases {
            incandescent: Some(pair(0.1, 0.2)),
            overcast: Some(pair(0.3, 0.4)),
            body: Some(pair(0.5, 0.6)),
            adobe_rgb: pair(0.7, 0.8),
        },
        corrected: None,
        gray_forward: [0.9_f32.to_bits(); 9],
        tone_curve: None,
        hue_sat_map: None,
    }
}

fn all_inputs() -> Vec<ProfileInputs> {
    (0..camera_profiles().len()).map(|_| inputs()).collect()
}

fn named(name: &'static str) -> CameraProfile {
    let mut p = camera_profiles()[0];
    p.name = name;
    p
}

fn tags_of(ifd: &DirectoryWriter) -> Vec<u16> {
    (0..ifd.len()).map(|i| ifd.entry(i).0).collect()
}

fn text_of(ifd: &DirectoryWriter, tag: u16) -> Vec<u8> {
    for i in 0..ifd.len() {
        let (found, value) = ifd.entry(i);
        if found == tag {
            match value {
                Value::Ascii(bytes) => return bytes.clone(),
                _ => panic!("tag {tag} is no text"),
            }
        }
    }
    panic!("tag {tag} missing")
}

#[test]
fn the_table_lists_seven_profiles() {
    let profiles = camera_profiles();
    let names: Vec<&str> = profiles.iter().map(|p| p.name).collect();
    assert_eq!(
        names,
        vec![
            "Standard",
            "Monochrome",
            "Monochrome (red filter)",
            "Monochrome (yellow filter)",
            "Monochrome (green filter)",
            "Monochrome (blue filter)",
            "Unconverted"
        ]
    );
    assert_eq!(profiles[0].bmt_source, BmtSource::Default);
    assert_eq!(profiles[0].cmcm_camf, Some("CMCM_Standard"));
    assert_eq!(profiles[0].cmcc_camf, Some("CMCC_Standard"));
    assert_eq!(profiles[0].multi_axis_camf, Some("MultiAxisTable_Standard"));
    for p in &profiles[1..] {
        assert_eq!(p.bmt_source, BmtSource::AdobeRgb);
        assert_eq!(p.cmcm_camf, None);
        assert_eq!(p.cmcc_camf, None);
        assert_eq!(p.multi_axis_camf, None);
    }
    for p in &profiles {
        assert_eq!(p.requires_camf, None);
    }
    assert_eq!(profiles[4].grayscale_mix, Some([-3, 12, -3]));
    assert_eq!(profiles[6].grayscale_mix, None);
}

#[test]
fn the_default_is_the_standard_profile() {
    assert_eq!(default_profile_index(0x0002_0002, "FCBlue"), 0);
    assert_eq!(default_profile_index(0x0002_0003, "FCBlue"), 0);
    assert_eq!(default_profile_index(0x0004_0000, ""), 0);
}

#[test]
fn a_blue_profile_becomes_the_default_from_version_2_3_on() {
    let profiles = vec![named("Standard"), named("FCBlue"), named("FCBlue")];
    assert_eq!(default_index_among(&profiles, 0x0002_0003, "FCBlue"), 1);
    assert_eq!(default_index_among(&profiles, u32::MAX, "FCBlue"), 1);
    assert_eq!(default_index_among(&profiles, 0x0002_0002, "FCBlue"), 0);
    assert_eq!(default_index_among(&profiles, 0x0002_0003, "fcblue"), 0);
    assert_eq!(default_index_among(&profiles, 0x0002_0003, "Standard"), 0);
    assert_eq!(position_of(&profiles, "FCBlue"), Some(1));
    assert_eq!(position_of(&profiles, "FCBlu"), None);
    assert_eq!(position_of(&Vec::new(), ""), None);
}

#[test]
fn two_presets_make_two_illuminants() {
    let m = dual_illuminant_matrices(Some(pair(0.1, 0.2)), Some(pair(0.3, 0.4))).expect("both");
    assert_eq!(m.first.color, pair(0.1, 0.2).color);
    assert_eq!(m.first.forward, pair(0.1, 0.2).forward);
    assert_eq!(m.first.illuminant, 17);
    let second = m.second.expect("two");
    assert_eq!(second.color, pair(0.3, 0.4).color);
    assert_eq!(second.forward, pair(0.3, 0.4).forward);
    assert_eq!(second.illuminant, 21);
    assert!(dual_illuminant_matrices(None, Some(pair(0.3, 0.4))).is_none());
    assert!(dual_illuminant_matrices(Some(pair(0.1, 0.2)), None).is_none());
}

#[test]
fn matrices_fall_back_to_the_shot() {
    let profiles = camera_profiles();
    let single = ProfileMatrices::single(pair(0.5, 0.6).color, pair(0.5, 0.6).forward);
    assert_eq!(single.first.illuminant, 21);
    assert_eq!(single.second, None);

    let dual = compute_matrices(&profiles[0], &inputs(), true).expect("matrices");
    assert!(dual.second.is_some());
    // One illuminant on request, and without a preset.
    assert_eq!(compute_matrices(&profiles[0], &inputs(), false), Some(single));
    let mut lacking = inputs();
    lacking.plain.overcast = None;
    assert_eq!(compute_matrices(&profiles[0], &lacking, true), Some(single));
    lacking.plain.body = None;
    assert_eq!(compute_matrices(&profiles[0], &lacking, true), None);
    // Two presets stand in for the body's matrix where both are asked for.
    let mut presets = inputs();
    presets.plain.body = None;
    assert_eq!(compute_matrices(&profiles[0], &presets, true), Some(dual));
    assert_eq!(compute_matrices(&profiles[0], &presets, false), None);

    // A required entry gates everything else.
    let mut gated = profiles[0];
    gated.requires_camf = Some("CMCM_Vivid");
    assert_eq!(compute_matrices(&gated, &inputs(), true), None);
    let mut given = inputs();
    given.has_required = true;
    assert_eq!(compute_matrices(&gated, &given, true), Some(dual));
}

#[test]
fn synthetic_profiles_have_one_illuminant_whatever_the_file() {
    let space = pair(0.7, 0.8);
    let mut lacking = inputs();
    lacking.plain.incandescent = None;
    lacking.plain.overcast = None;
    lacking.plain.body = None;
    for profile in &camera_profiles()[1..] {
        for dual in [false, true] {
            for given in [&inputs(), &lacking] {
                let m = compute_matrices(profile, given, dual).expect("matrices");
                let forward = match profile.grayscale_mix {
                    Some(_) => given.gray_forward,
                    None => space.forward,
                };
                assert_eq!(m, ProfileMatrices::single(space.color, forward));
                assert_eq!(m.first.illuminant, 21);
                assert_eq!(m.second, None);
            }
        }
    }
}

#[test]
fn a_color_correction_takes_the_place_of_the_plain_matrices() {
    let profiles = camera_profiles();
    let mut given = inputs();
    given.corrected = Some(Bases {
        incandescent: Some(pair(1.1, 1.2)),
        overcast: Some(pair(1.3, 1.4)),
        body: Some(pair(1.5, 1.6)),
        adobe_rgb: pair(1.7, 1.8),
    });
    let single = |p: MatrixPair| Some(ProfileMatrices::single(p.color, p.forward));
    assert_eq!(compute_matrices(&profiles[0], &given, false), single(pair(1.5, 1.6)));
    assert_eq!(
        compute_matrices(&profiles[0], &given, true),
        dual_illuminant_matrices(Some(pair(1.1, 1.2)), Some(pair(1.3, 1.4)))
    );
    // A profile that names no correction has none.
    assert_eq!(compute_matrices(&profiles[6], &given, false), single(pair(0.7, 0.8)));
    let mut bare = profiles[0];
    bare.cmcm_camf = None;
    assert_eq!(compute_matrices(&bare, &given, false), single(pair(0.5, 0.6)));
    // One that names a correction, over the working space and in gray.
    let mut gray = profiles[1];
    gray.cmcm_camf = Some("CMCM_Standard");
    let m = compute_matrices(&gray, &given, true).expect("matrices");
    assert_eq!(m, ProfileMatrices::single(pair(1.7, 1.8).color, given.gray_forward));
}

#[test]
fn profile_tags_are_added_in_order() {
    let mut ifd = DirectoryWriter::new();
    ifd.add(t::COMPRESSION, Value::Short(vec![7]));
    let m = compute_matrices(&camera_profiles()[0], &inputs(), true).expect("matrices");
    add_profile_tags(&mut ifd, "Two", &m);
    assert_eq!(
        tags_of(&ifd),
        vec![
            259,
            t::COLOR_MATRIX1,
            t::FORWARD_MATRIX1,
            t::COLOR_MATRIX2,
            t::FORWARD_MATRIX2,
            t::CALIBRATION_ILLUMINANT1,
            t::CALIBRATION_ILLUMINANT2,
            t::PROFILE_NAME,
            t::DEFAULT_BLACK_RENDER
        ]
    );
    match ifd.entry(3).1 {
        Value::SRational(v) => assert_eq!(v, &vec![(3_000, 10_000); 9]),
        _ => panic!("no rationals"),
    }
    match ifd.entry(5).1 {
        Value::Short(v) => assert_eq!(v, &vec![17]),
        _ => panic!("no short"),
    }
    match ifd.entry(8).1 {
        Value::Long(v) => assert_eq!(v, &vec![1]),
        _ => panic!("no long"),
    }
    assert_eq!(text_of(&ifd, t::PROFILE_NAME), b"Two\0");

    let mut one = DirectoryWriter::new();
    let m = compute_matrices(&camera_profiles()[0], &inputs(), false).expect("matrices");
    add_profile_tags(&mut one, "One", &m);
    assert_eq!(
        tags_of(&one),
        vec![
            t::COLOR_MATRIX1,
            t::FORWARD_MATRIX1,
            t::PROFILE_NAME,
            t::DEFAULT_BLACK_RENDER
        ]
    );
}

#[test]
fn the_default_profile_is_written_with_its_tables() {
    let mut given = all_inputs();
    given[0].tone_curve = Some(vec![1, 2, 3, 4]);
    given[0].hue_sat_map = Some(vec![5, 6]);
    let mut ifd = DirectoryWriter::new();
    let r = write_default_profile(0x0002_0003, "Standard", &given, false, &mut ifd);
    assert_eq!(r, Some((0, false)));
    assert_eq!(
        tags_of(&ifd),
        vec![
            t::COLOR_MATRIX1,
            t::FORWARD_MATRIX1,
            t::PROFILE_NAME,
            t::DEFAULT_BLACK_RENDER,
            t::PROFILE_TONE_CURVE,
            t::PROFILE_HUE_SAT_MAP_DIMS,
            t::PROFILE_HUE_SAT_MAP_DATA1,
            t::PROFILE_HUE_SAT_MAP_ENCODING,
            t::AS_SHOT_PROFILE_NAME
        ]
    );
    match ifd.entry(4).1 {
        Value::Float(v) => assert_eq!(v, &vec![1, 2, 3, 4]),
        _ => panic!("no floats"),
    }
    match ifd.entry(5).1 {
        Value::Long(v) => assert_eq!(v, &vec![21, 2, 1]),
        _ => panic!("no longs"),
    }
    match ifd.entry(6).1 {
        Value::Float(v) => assert_eq!(v, &vec![5, 6]),
        _ => panic!("no floats"),
    }
    match ifd.entry(7).1 {
        Value::Long(v) => assert_eq!(v, &vec![0]),
        _ => panic!("no longs"),
    }
    assert_eq!(text_of(&ifd, t::AS_SHOT_PROFILE_NAME), b"Standard\0");

    let mut dual = DirectoryWriter::new();
    let r = write_default_profile(0x0002_0003, "Standard", &given, true, &mut dual);
    assert_eq!(r, Some((0, true)));
    assert_eq!(dual.len(), 13);
}

#[test]
fn a_file_without_the_default_profile_leaves_the_directory_alone() {
    let mut given = all_inputs();
    given[0].plain.body = None;
    let mut ifd = DirectoryWriter::new();
    ifd.add(t::COMPRESSION, Value::Short(vec![1]));
    let r = write_default_profile(0x0002_0003, "", &given, false, &mut ifd);
    assert_eq!(r, None);
    assert_eq!(tags_of(&ifd), vec![259]);
}

#[test]
fn extra_profiles_are_packed_at_even_places() {
    let given = all_inputs();
    let (blob, offsets) = build_extra_profiles_blob(&given, 0, true).expect("blob");
    assert_eq!(offsets.len(), 6);
    let profiles = camera_profiles();
    let mut end = 0usize;
    for (k, &offset) in offsets.iter().enumerate() {
        let at = offset as usize;
        assert_eq!(at % 2, 0);
        assert!(at == end || at == end + 1);
        let m = compute_matrices(&profiles[k + 1], &given[k + 1], true).expect("matrices");
        let record = build_mmcr_profile(profiles[k + 1].name, &m, None, None);
        assert_eq!(&blob[at..at + record.len()], record.as_slice());
        assert_eq!(&blob[at..at + 4], b"MMCR");
        end = at + record.len();
    }
    assert_eq!(blob.len(), end);
    // "Monochrome" takes eleven bytes with its terminator, so a byte of padding follows.
    assert_eq!(offsets[0], 0);
    assert_eq!(offsets[1], 74 + 144 + 12);
    assert_eq!(blob[offsets[1] as usize - 1], 0);
}

#[test]
fn profiles_that_a_file_does_not_get_are_left_out() {
    let mut given = all_inputs();
    let profiles = camera_profiles();
    // The standard profile is an extra one here.
    let (blob, offsets) = build_extra_profiles_blob(&given, 1, false).expect("blob");
    assert_eq!(offsets.len(), 6);
    let m = compute_matrices(&profiles[0], &given[0], false).expect("matrices");
    let record = build_mmcr_profile("Standard", &m, None, None);
    assert_eq!(&blob[..record.len()], record.as_slice());

    given[0].plain.body = None;
    let (blob, offsets) = build_extra_profiles_blob(&given, 1, false).expect("blob");
    assert_eq!(offsets.len(), 5);
    let m = compute_matrices(&profiles[2], &given[2], false).expect("matrices");
    let record = build_mmcr_profile("Monochrome (red filter)", &m, None, None);
    assert_eq!(&blob[..record.len()], record.as_slice());
}

#[test]
fn beside_the_standard_default_the_blob_takes_no_file() {
    let given = all_inputs();
    let (blob, offsets) = build_extra_profiles_blob(&given, 0, true).expect("blob");
    assert_eq!(offsets, vec![0, 230, 472, 718, 962, 1206]);
    assert_eq!(blob.len(), 1436);
    for (k, profile) in camera_profiles()[1..].iter().enumerate() {
        let record = &blob[offsets[k] as usize..];
        assert_eq!(u16::from_be_bytes([record[8], record[9]]), 5);
        let mut name = profile.name.as_bytes().to_vec();
        name.push(0);
        assert_eq!(record_value(record, t::PROFILE_NAME), Some((2, name)));
    }

    let mut other = all_inputs();
    for g in other.iter_mut() {
        g.has_required = true;
        g.corrected = Some(Bases {
            incandescent: None,
            overcast: None,
            body: None,
            adobe_rgb: pair(0.25, 0.75),
        });
        g.plain.incandescent = None;
        g.plain.overcast = None;
        g.plain.body = None;
        g.tone_curve = Some(vec![7, 8]);
        g.hue_sat_map = Some(vec![9]);
    }
    for dual in [false, true] {
        let same = build_extra_profiles_blob(&other, 0, dual).expect("blob");
        assert_eq!(same, (blob.clone(), offsets.clone()));
    }
    other[3].plain.adobe_rgb = pair(0.9, 0.8);
    let (changed, places) = build_extra_profiles_blob(&other, 0, true).expect("blob");
    assert_eq!(places, offsets);
    assert!(changed != blob);
    other[3].plain.adobe_rgb = pair(0.7, 0.8);
    other[1].gray_forward = [0; 9];
    let (changed, places) = build_extra_profiles_blob(&other, 0, true).expect("blob");
    assert_eq!(places, offsets);
    assert!(changed != blob);
}

#[test]
fn only_profiles_that_ask_for_tables_get_them() {
    let mut given = all_inputs();
    for g in given.iter_mut() {
        g.tone_curve = Some(vec![7, 8]);
        g.hue_sat_map = Some(vec![9]);
    }
    let (blob, offsets) = build_extra_profiles_blob(&given, 7, false).expect("blob");
    assert_eq!(offsets.len(), 7);
    let count = |k: usize| {
        let at = offsets[k] as usize;
        u16::from_be_bytes([blob[at + 8], blob[at + 9]])
    };
    assert_eq!(count(0), 9);
    for k in 1..7 {
        assert_eq!(count(k), 5);
    }
}

/// The value of a tag in a record, found as a TIFF reader finds it.
fn record_value(record: &[u8], tag: u16) -> Option<(u16, Vec<u8>)> {
    let be32 = |p: usize| u32::from_be_bytes(record[p..p + 4].try_into().unwrap());
    let be16 = |p: usize| u16::from_be_bytes(record[p..p + 2].try_into().unwrap());
    let at = be32(4) as usize;
    for i in 0..be16(at) as usize {
        let p = at + 2 + 12 * i;
        if be16(p) == tag {
            let kind = be16(p + 2);
            let size = be32(p + 4) as usize
                * match kind {
                    2 => 1,
                    3 => 2,
                    10 => 8,
                    _ => 4,
                };
            let start = if size <= 4 { p + 8 } else { be32(p + 8) as usize };
            return Some((kind, record[start..start + size].to_vec()));
        }
    }
    None
}

fn encoded(value: &Value) -> (u16, Vec<u8>) {
    match value {
        Value::Short(v) => (3, v.iter().flat_map(|x| x.to_be_bytes()).collect()),
        Value::Long(v) => (4, v.iter().flat_map(|x| x.to_be_bytes()).collect()),
        Value::SRational(v) => (
            10,
            v.iter()
                .flat_map(|(n, d)| [n.to_be_bytes(), d.to_be_bytes()].concat())
                .collect(),
        ),
        Value::Float(v) => (11, v.iter().flat_map(|x| x.to_be_bytes()).collect()),
        Value::Ascii(v) => (2, v.clone()),
    }
}

#[test]
fn a_default_profile_and_its_record_agree() {
    let mut given = all_inputs();
    given[0].tone_curve = Some(vec![1, 2, 3, 4]);
    given[0].hue_sat_map = Some(vec![5, 6, 7]);
    for dual in [false, true] {
        let mut ifd = DirectoryWriter::new();
        let written = write_default_profile(0, "", &given, dual, &mut ifd);
        assert_eq!(written, Some((0, dual)));
        let tags = tags_of(&ifd);
        assert_eq!(tags.contains(&t::CALIBRATION_ILLUMINANT1), dual);
        assert_eq!(tags.contains(&t::CALIBRATION_ILLUMINANT2), dual);

        let (blob, offsets) = build_extra_profiles_blob(&given, 6, dual).expect("blob");
        let record = &blob[offsets[0] as usize..offsets[1] as usize];
        for i in 0..ifd.len() - 1 {
            let (tag, value) = ifd.entry(i);
            assert_eq!(record_value(record, tag), Some(encoded(value)), "tag {tag}");
        }
        assert_eq!(ifd.entry(ifd.len() - 1).0, t::AS_SHOT_PROFILE_NAME);
        let count = u16::from_be_bytes([record[8], record[9]]) as usize;
        assert_eq!(count, ifd.len());
        assert_eq!(record_value(record, t::COMPRESSION), Some((3, vec![0, 1])));
    }
}
