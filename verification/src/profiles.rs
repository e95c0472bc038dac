//! The camera profiles of a file: the default one as tags of the file's first
//! directory, the others as `MMCR` records of the `ExtraCameraProfiles` blob.
use crate::camera::{camera_profiles, default_profile_index, CameraProfile};
use crate::directory::{ascii_of, float_of, long_of, short_of, srational_from_floats, DirectoryWriter, Value, Values};
use crate::endian::{low32_of, pad2, push_bytes};
use crate::matrices::{compute_matrices, ProfileInputs, ProfileMatrices};
use crate::mmcr::{build_mmcr_profile, Record};
use crate::tags::{
    AS_SHOT_PROFILE_NAME, CALIBRATION_ILLUMINANT1, CALIBRATION_ILLUMINANT2, COLOR_MATRIX1,
    COLOR_MATRIX2, DEFAULT_BLACK_RENDER, FORWARD_MATRIX1, FORWARD_MATRIX2, HUE_DIVISIONS,
    HUE_SAT_MAP_ENCODING, MATRIX_DENOMINATOR, PROFILE_HUE_SAT_MAP_DATA1, PROFILE_HUE_SAT_MAP_DIMS,
    PROFILE_HUE_SAT_MAP_ENCODING, PROFILE_NAME, PROFILE_TONE_CURVE, SATURATION_DIVISIONS,
    VALUE_DIVISIONS,
};
use vstd::prelude::*;

verus! {

/// A matrix as the values of its tag.
pub open spec fn matrix_values(values: [u32; 9]) -> Values {
    Values::SRational(crate::directory::srationals(values@, MATRIX_DENOMINATOR))
}

/// The matrix tags of a profile.
pub open spec fn matrix_tags(m: ProfileMatrices) -> Seq<(u16, Values)> {
    let first = seq![
        (COLOR_MATRIX1, matrix_values(m.first.color)),
        (FORWARD_MATRIX1, matrix_values(m.first.forward)),
    ];
    match m.second {
        Some(s) => first + seq![
            (COLOR_MATRIX2, matrix_values(s.color)),
            (FORWARD_MATRIX2, matrix_values(s.forward)),
            (CALIBRATION_ILLUMINANT1, Values::Short(seq![m.first.illuminant])),
            (CALIBRATION_ILLUMINANT2, Values::Short(seq![s.illuminant])),
        ],
        None => first,
    }
}

/// The matrix tags of a profile, its name and its black render mode.
pub open spec fn profile_tags(name: Seq<char>, m: ProfileMatrices) -> Seq<(u16, Values)> {
    matrix_tags(m) + seq![
        (PROFILE_NAME, Values::Ascii(crate::directory::terminated(name))),
        (DEFAULT_BLACK_RENDER, Values::Long(seq![1])),
    ]
}

/// Adds the matrix tags of one profile, its name and its black render mode. A
/// profile with two illuminants carries both calibration illuminants, without which
/// a second matrix means nothing; one with a single illuminant leaves that tag to
/// the caller.
pub fn add_profile_tags(ifd: &mut DirectoryWriter, name: &str, matrices: &ProfileMatrices)
    requires
        crate::mmcr::terminable(name@),
    ensures
        final(ifd)@ == old(ifd)@ + profile_tags(name@, *matrices),
{
    let first = &matrices.first;
    ifd.add(COLOR_MATRIX1, srational_from_floats(first.color.as_slice(), MATRIX_DENOMINATOR));
    ifd.add(FORWARD_MATRIX1, srational_from_floats(first.forward.as_slice(), MATRIX_DENOMINATOR));
    if let Some(second) = &matrices.second {
        ifd.add(COLOR_MATRIX2, srational_from_floats(second.color.as_slice(), MATRIX_DENOMINATOR));
        ifd.add(
            FORWARD_MATRIX2,
            srational_from_floats(second.forward.as_slice(), MATRIX_DENOMINATOR),
        );
        ifd.add(CALIBRATION_ILLUMINANT1, short_of(first.illuminant));
        ifd.add(CALIBRATION_ILLUMINANT2, short_of(second.illuminant));
    }
    assert(ifd@ =~= old(ifd)@ + matrix_tags(*matrices));
    ifd.add(PROFILE_NAME, ascii_of(name));
    ifd.add(DEFAULT_BLACK_RENDER, long_of(1));
    assert(ifd@ =~= old(ifd)@ + profile_tags(name@, *matrices));
}

/// The tone curve of a profile: only a profile with a contrast entry has one.
pub open spec fn tone_of(profile: CameraProfile, inputs: ProfileInputs) -> Option<Seq<u32>> {
    match (profile.cmcc_camf, inputs.tone_curve) {
        (Some(_), Some(curve)) => Some(curve@),
        _ => None,
    }
}

/// The hue/saturation map of a profile: only a profile with a table entry has one.
pub open spec fn map_of(profile: CameraProfile, inputs: ProfileInputs) -> Option<Seq<u32>> {
    match (profile.multi_axis_camf, inputs.hue_sat_map) {
        (Some(_), Some(map)) => Some(map@),
        _ => None,
    }
}

fn tone_curve_of<'a>(profile: &CameraProfile, inputs: &'a ProfileInputs) -> (r: Option<&'a [u32]>)
    ensures
        crate::mmcr::table_view(r) == tone_of(*profile, *inputs),
{
    match (&profile.cmcc_camf, &inputs.tone_curve) {
        (Some(_), Some(curve)) => Some(curve.as_slice()),
        _ => None,
    }
}

fn hue_sat_map_of<'a>(profile: &CameraProfile, inputs: &'a ProfileInputs) -> (r: Option<
    &'a [u32],
>)
    ensures
        crate::mmcr::table_view(r) == map_of(*profile, *inputs),
{
    match (&profile.multi_axis_camf, &inputs.hue_sat_map) {
        (Some(_), Some(map)) => Some(map.as_slice()),
        _ => None,
    }
}

/// The tags of a tone curve.
pub open spec fn tone_tags(tone: Option<Seq<u32>>) -> Seq<(u16, Values)> {
    match tone {
        Some(t) => seq![(PROFILE_TONE_CURVE, Values::Float(t))],
        None => seq![],
    }
}

/// The tags of a hue/saturation map.
pub open spec fn map_tags(map: Option<Seq<u32>>) -> Seq<(u16, Values)> {
    match map {
        Some(m) => seq![
            (PROFILE_HUE_SAT_MAP_DIMS, Values::Long(crate::tags::hue_sat_map_dims())),
            (PROFILE_HUE_SAT_MAP_DATA1, Values::Float(m)),
            (PROFILE_HUE_SAT_MAP_ENCODING, Values::Long(seq![HUE_SAT_MAP_ENCODING])),
        ],
        None => seq![],
    }
}

/// All tags of a default profile.
pub open spec fn default_tags(
    profile: CameraProfile,
    inputs: ProfileInputs,
    m: ProfileMatrices,
) -> Seq<(u16, Values)> {
    profile_tags(profile.name@, m) + tone_tags(tone_of(profile, inputs)) + map_tags(
        map_of(profile, inputs),
    ) + seq![
        (AS_SHOT_PROFILE_NAME, Values::Ascii(crate::directory::terminated(profile.name@))),
    ]
}

/// Adds the tone curve and the hue/saturation map of a profile.
fn add_table_tags(ifd: &mut DirectoryWriter, profile: &CameraProfile, inputs: &ProfileInputs)
    ensures
        final(ifd)@ == old(ifd)@ + tone_tags(tone_of(*profile, *inputs)) + map_tags(
            map_of(*profile, *inputs),
        ),
{
    if let Some(curve) = tone_curve_of(profile, inputs) {
        ifd.add(PROFILE_TONE_CURVE, float_of(curve));
    }
    assert(ifd@ =~= old(ifd)@ + tone_tags(tone_of(*profile, *inputs)));
    let ghost head = ifd@;
    if let Some(map) = hue_sat_map_of(profile, inputs) {
        let dims: Vec<u32> = vec![HUE_DIVISIONS, SATURATION_DIVISIONS, VALUE_DIVISIONS];
        assert(dims@ =~= crate::tags::hue_sat_map_dims());
        ifd.add(PROFILE_HUE_SAT_MAP_DIMS, Value::Long(dims));
        ifd.add(PROFILE_HUE_SAT_MAP_DATA1, float_of(map));
        ifd.add(PROFILE_HUE_SAT_MAP_ENCODING, long_of(HUE_SAT_MAP_ENCODING));
    }
    assert(ifd@ =~= head + map_tags(map_of(*profile, *inputs)));
}

/// Writes the default profile of a file: its tags, its tables, and its name as the
/// as-shot profile. Gives back the place of the profile in the table and whether it
/// was written with two illuminants, in which case the directory has the
/// calibration illuminants already. `None`, with the directory as it was, where the
/// file does not get the profile.
///
/// `inputs` holds what the file gives for each profile of the table.
pub fn write_default_profile(
    header_version: u32,
    color_mode: &str,
    inputs: &Vec<ProfileInputs>,
    dual_illuminant: bool,
    ifd0: &mut DirectoryWriter,
) -> (r: Option<(usize, bool)>)
    requires
        inputs@.len() == crate::camera::profile_table().len(),
    ensures
        ({
            let place = crate::camera::default_among(
                crate::camera::profile_table(),
                header_version,
                color_mode@,
            );
            let profile = crate::camera::profile_table()[place as int];
            let given = inputs@[place as int];
            match crate::matrices::matrices_of(profile, given, dual_illuminant) {
                Some(m) => {
                    &&& r == Some((place as usize, m.second is Some))
                    &&& final(ifd0)@ == old(ifd0)@ + default_tags(profile, given, m)
                },
                None => r is None && final(ifd0)@ == old(ifd0)@,
            }
        }),
{
    let place = default_profile_index(header_version, color_mode);
    let profiles = camera_profiles();
    proof {
        crate::camera::law_default_is_standard(header_version, color_mode@);
        crate::camera::law_profile_names(place as int, place as int);
    }
    let profile = &profiles[place];
    let given = &inputs[place];
    let matrices = match compute_matrices(profile, given, dual_illuminant) {
        Some(m) => m,
        None => return None,
    };
    add_profile_tags(ifd0, profile.name, &matrices);
    add_table_tags(ifd0, profile, given);
    ifd0.add(AS_SHOT_PROFILE_NAME, ascii_of(profile.name));
    assert(ifd0@ =~= old(ifd0)@ + default_tags(*profile, *given, matrices));
    Some((place, matrices.second.is_some()))
}

/// Whether some tag of a list is `tag`.
pub open spec fn lists(tags: Seq<(u16, Values)>, tag: u16) -> bool {
    exists|i: int| 0 <= i < tags.len() && (#[trigger] tags[i]).0 == tag
}

/// A default profile brings the calibration illuminants with it exactly where it has
/// two of them.
pub proof fn law_default_profile_brings_its_illuminants(
    profile: CameraProfile,
    inputs: ProfileInputs,
    m: ProfileMatrices,
)
    ensures
        lists(default_tags(profile, inputs, m), CALIBRATION_ILLUMINANT1) == (m.second is Some),
        lists(default_tags(profile, inputs, m), CALIBRATION_ILLUMINANT2) == (m.second is Some),
{
    let tags = default_tags(profile, inputs, m);
    let a = matrix_tags(m);
    let b = tone_tags(tone_of(profile, inputs));
    let c = map_tags(map_of(profile, inputs));
    if m.second is Some {
        assert(tags[4] == a[4]);
        assert(tags[5] == a[5]);
    } else {
        assert forall|i: int| 0 <= i < tags.len() implies (#[trigger] tags[i]).0
            != CALIBRATION_ILLUMINANT1 && tags[i].0 != CALIBRATION_ILLUMINANT2 by {
            if i < a.len() {
                assert(tags[i] == a[i]);
            } else if a.len() + 2 <= i < a.len() + 2 + b.len() {
                assert(tags[i] == b[i - a.len() - 2]);
            } else if a.len() + 2 + b.len() <= i < a.len() + 2 + b.len() + c.len() {
                assert(tags[i] == c[i - a.len() - 2 - b.len()]);
            }
        }
    }
}

/// What a profile is stored as.
pub open spec fn profile_record(
    profile: CameraProfile,
    inputs: ProfileInputs,
    m: ProfileMatrices,
) -> Record {
    Record {
        name: vstd::utf8::encode_utf8(profile.name@),
        matrices: m,
        tone: tone_of(profile, inputs),
        map: map_of(profile, inputs),
    }
}

/// The records of the first `n` profiles, without the default one and without those
/// that the file does not get.
pub open spec fn extra_records(
    profiles: Seq<CameraProfile>,
    inputs: Seq<ProfileInputs>,
    default_idx: int,
    dual_illuminant: bool,
    n: nat,
) -> Seq<Record>
    decreases n,
{
    if n == 0 {
        seq![]
    } else {
        let before = extra_records(
            profiles,
            inputs,
            default_idx,
            dual_illuminant,
            (n - 1) as nat,
        );
        let (profile, given) = (profiles[n - 1], inputs[n - 1]);
        match crate::matrices::matrices_of(profile, given, dual_illuminant) {
            Some(m) if n - 1 != default_idx => before.push(profile_record(profile, given, m)),
            _ => before,
        }
    }
}

/// Records one behind the other, each at an even place.
pub open spec fn packed(records: Seq<Record>) -> Seq<u8>
    decreases records.len(),
{
    if records.len() == 0 {
        seq![]
    } else {
        crate::endian::padded(packed(records.drop_last())) + crate::mmcr::record_bytes(
            records.last(),
        )
    }
}

/// Where record `k` is among packed records.
pub open spec fn place_of(records: Seq<Record>, k: int) -> nat {
    crate::endian::padded(packed(records.take(k))).len()
}

/// The places of packed records, as 32-bit offsets.
pub open spec fn offsets_of(records: Seq<Record>) -> Seq<u32> {
    Seq::new(records.len(), |k: int| crate::endian::low32(place_of(records, k)))
}

/// The records of all profiles but the default one.
pub open spec fn all_extra_records(
    inputs: Seq<ProfileInputs>,
    default_idx: int,
    dual_illuminant: bool,
) -> Seq<Record> {
    extra_records(
        crate::camera::profile_table(),
        inputs,
        default_idx,
        dual_illuminant,
        crate::camera::profile_table().len(),
    )
}

/// Whether neither table of a profile has more than a million entries or so.
pub open spec fn small_tables(inputs: ProfileInputs) -> bool {
    &&& inputs.tone_curve matches Some(t) ==> t@.len() <= 0x10_0000
    &&& inputs.hue_sat_map matches Some(m) ==> m@.len() <= 0x10_0000
}

/// Whether the blob has room in memory. It has room for all profiles with small
/// tables.
pub open spec fn blob_has_room(
    inputs: Seq<ProfileInputs>,
    default_idx: int,
    dual_illuminant: bool,
) -> bool {
    ||| packed(all_extra_records(inputs, default_idx, dual_illuminant)).len() <= usize::MAX
    ||| forall|i: int| 0 <= i < inputs.len() ==> small_tables(#[trigger] inputs[i])
}

/// The room that the records of profiles with small tables take.
proof fn lemma_small_tables_have_room(
    inputs: Seq<ProfileInputs>,
    default_idx: int,
    dual_illuminant: bool,
    n: nat,
)
    requires
        n <= crate::camera::profile_table().len(),
        inputs.len() == crate::camera::profile_table().len(),
        forall|i: int| 0 <= i < inputs.len() ==> small_tables(#[trigger] inputs[i]),
    ensures
        packed(
            extra_records(
                crate::camera::profile_table(),
                inputs,
                default_idx,
                dual_illuminant,
                n,
            ),
        ).len() <= n * 0x100_0000,
    decreases n,
{
    if n > 0 {
        let table = crate::camera::profile_table();
        let k = (n - 1) as nat;
        let before = extra_records(table, inputs, default_idx, dual_illuminant, k);
        lemma_small_tables_have_room(inputs, default_idx, dual_illuminant, k);
        let (profile, given) = (table[k as int], inputs[k as int]);
        if let Some(m) = crate::matrices::matrices_of(profile, given, dual_illuminant) {
            let record = profile_record(profile, given, m);
            assert(small_tables(given));
            crate::camera::lemma_name_lengths();
            crate::text::lemma_utf8_length(profile.name@);
            crate::reading::law_record_header(record);
            assert(crate::mmcr::record_len(record) < 0x100_0000);
            lemma_packed_push(before, record);
        }
    }
}

/// Packing more records takes no less room.
proof fn lemma_packed_grows(
    profiles: Seq<CameraProfile>,
    inputs: Seq<ProfileInputs>,
    default_idx: int,
    dual_illuminant: bool,
    n: nat,
    m: nat,
)
    requires
        n <= m,
    ensures
        packed(extra_records(profiles, inputs, default_idx, dual_illuminant, n)).len() <= packed(
            extra_records(profiles, inputs, default_idx, dual_illuminant, m),
        ).len(),
    decreases m,
{
    if n < m {
        let k = (m - 1) as nat;
        lemma_packed_grows(profiles, inputs, default_idx, dual_illuminant, n, k);
        let before = extra_records(profiles, inputs, default_idx, dual_illuminant, k);
        let after = extra_records(profiles, inputs, default_idx, dual_illuminant, m);
        if after != before {
            assert(after.drop_last() =~= before);
        }
    }
}

/// One more record, with its place.
proof fn lemma_packed_push(records: Seq<Record>, r: Record)
    ensures
        packed(records.push(r)) == crate::endian::padded(packed(records))
            + crate::mmcr::record_bytes(r),
        offsets_of(records.push(r)) == offsets_of(records).push(
            crate::endian::low32(crate::endian::padded(packed(records)).len()),
        ),
{
    let more = records.push(r);
    assert(more.drop_last() =~= records);
    assert(more.take(records.len() as int) =~= records);
    assert forall|k: int| 0 <= k < records.len() implies #[trigger] offsets_of(more)[k]
        == offsets_of(records)[k] by {
        assert(more.take(k) =~= records.take(k));
    }
    assert(offsets_of(more) =~= offsets_of(records).push(
        crate::endian::low32(crate::endian::padded(packed(records)).len()),
    ));
}

/// Builds the `ExtraCameraProfiles` blob: every profile but the default one as an
/// `MMCR` record, at an even place, with one offset for each, counted from the
/// beginning of the blob. A profile that the file does not get is left out.
///
/// `inputs` holds what the file gives for each profile of the table.
pub fn build_extra_profiles_blob(
    inputs: &Vec<ProfileInputs>,
    default_idx: usize,
    dual_illuminant: bool,
) -> (r: Option<(Vec<u8>, Vec<u32>)>)
    requires
        inputs@.len() == crate::camera::profile_table().len(),
        blob_has_room(inputs@, default_idx as int, dual_illuminant),
    ensures
        ({
            let records = all_extra_records(inputs@, default_idx as int, dual_illuminant);
            r matches Some((blob, offsets)) && blob@ == packed(records) && offsets@ == offsets_of(
                records,
            )
        }),
{
    let profiles = camera_profiles();
    let ghost table = profiles@;
    let mut blob: Vec<u8> = Vec::new();
    let mut offsets: Vec<u32> = Vec::new();
    let mut i: usize = 0;
    assert(offsets@ =~= offsets_of(seq![]));
    proof {
        if forall|i: int| 0 <= i < inputs@.len() ==> small_tables(#[trigger] inputs@[i]) {
            lemma_small_tables_have_room(
                inputs@,
                default_idx as int,
                dual_illuminant,
                table.len(),
            );
        }
    }
    while i < profiles.len()
        invariant
            i <= profiles@.len(),
            profiles@ == table,
            table == crate::camera::profile_table(),
            inputs@.len() == table.len(),
            packed(
                extra_records(table, inputs@, default_idx as int, dual_illuminant, table.len()),
            ).len() <= usize::MAX,
            blob@ == packed(
                extra_records(table, inputs@, default_idx as int, dual_illuminant, i as nat),
            ),
            offsets@ == offsets_of(
                extra_records(table, inputs@, default_idx as int, dual_illuminant, i as nat),
            ),
        decreases profiles@.len() - i,
    {
        let ghost before = extra_records(
            table,
            inputs@,
            default_idx as int,
            dual_illuminant,
            i as nat,
        );
        let profile = &profiles[i];
        let given = &inputs[i];
        if i != default_idx {
            if let Some(matrices) = compute_matrices(profile, given, dual_illuminant) {
                let ghost record = profile_record(*profile, *given, matrices);
                let tone_curve = tone_curve_of(profile, given);
                let hue_sat_map = hue_sat_map_of(profile, given);
                proof {
                    crate::camera::law_profile_names(i as int, i as int);
                    crate::reading::law_record_header(record);
                    lemma_packed_push(before, record);
                    lemma_packed_grows(
                        table,
                        inputs@,
                        default_idx as int,
                        dual_illuminant,
                        (i + 1) as nat,
                        table.len(),
                    );
                }
                pad2(&mut blob);
                let offset = low32_of(blob.len());
                let mmcr = build_mmcr_profile(profile.name, &matrices, tone_curve, hue_sat_map);
                push_bytes(&mut blob, mmcr.as_slice());
                offsets.push(offset);
            }
        }
        i = i + 1;
    }
    Some((blob, offsets))
}

/// Packed records begin as fewer of them do.
proof fn lemma_packed_prefix(records: Seq<Record>, k: int)
    requires
        0 <= k <= records.len(),
    ensures
        packed(records.take(k)).len() <= packed(records).len(),
        packed(records).take(packed(records.take(k)).len() as int) == packed(records.take(k)),
    decreases records.len(),
{
    if k == records.len() {
        assert(records.take(k) =~= records);
        assert(packed(records).take(packed(records).len() as int) =~= packed(records));
    } else {
        let before = records.drop_last();
        lemma_packed_prefix(before, k);
        assert(before.take(k) =~= records.take(k));
        let n = packed(records.take(k)).len() as int;
        assert(packed(records).take(n) =~= packed(before).take(n));
    }
}

/// Every record is whole, at an even place, where its offset says.
pub proof fn law_records_are_placed(records: Seq<Record>, k: int)
    requires
        0 <= k < records.len(),
    ensures
        place_of(records, k) % 2 == 0,
        place_of(records, k) + crate::mmcr::record_len(records[k]) <= packed(records).len(),
        packed(records).subrange(
            place_of(records, k) as int,
            (place_of(records, k) + crate::mmcr::record_len(records[k])) as int,
        ) == crate::mmcr::record_bytes(records[k]),
        packed(records).len() <= u32::MAX ==> offsets_of(records)[k] == place_of(records, k),
{
    let upto = records.take(k + 1);
    let place = place_of(records, k) as int;
    let len = crate::mmcr::record_len(records[k]) as int;
    assert(upto.drop_last() =~= records.take(k));
    assert(upto.last() == records[k]);
    crate::reading::law_record_header(records[k]);
    lemma_packed_prefix(records, k + 1);
    assert(packed(upto).subrange(place, place + len) =~= crate::mmcr::record_bytes(records[k]));
    let n = packed(upto).len() as int;
    assert(packed(records).subrange(place, place + len) =~= packed(records).take(n).subrange(
        place,
        place + len,
    ));
}

/// Records do not overlap, and their places ascend.
pub proof fn law_records_are_apart(records: Seq<Record>, j: int, k: int)
    requires
        0 <= j < k < records.len(),
    ensures
        place_of(records, j) + crate::mmcr::record_len(records[j]) <= place_of(records, k),
{
    let upto = records.take(j + 1);
    assert(upto.drop_last() =~= records.take(j));
    assert(upto.last() == records[j]);
    crate::reading::law_record_header(records[j]);
    lemma_packed_prefix(records.take(k), j + 1);
    assert(records.take(k).take(j + 1) =~= upto);
}

/// A reader that follows an offset finds a record there, and in it every tag with
/// its value.
pub proof fn law_blob_reads_back(records: Seq<Record>, k: int)
    requires
        0 <= k < records.len(),
        packed(records).len() <= u32::MAX,
        crate::reading::tables_found(records[k]),
    ensures
        ({
            let place = offsets_of(records)[k] as int;
            let blob = packed(records).subrange(
                place,
                place + crate::mmcr::record_len(records[k]),
            );
            &&& blob.take(4) == crate::mmcr::magic()
            &&& crate::reading::read_fields(blob) == crate::reading::fields(records[k])
        }),
{
    law_records_are_placed(records, k);
    crate::reading::law_record_header(records[k]);
    crate::reading::law_record_reads_back(records[k]);
    let whole = crate::mmcr::record_bytes(records[k]);
    assert(whole.take(4) =~= whole.subrange(0, 4));
}

/// Every profile that the file gets has its record in the blob, but for the default
/// profile.
pub proof fn law_every_other_profile_is_stored(
    profiles: Seq<CameraProfile>,
    inputs: Seq<ProfileInputs>,
    default_idx: int,
    dual_illuminant: bool,
    n: nat,
    i: int,
)
    requires
        0 <= i < n,
        i != default_idx,
        crate::matrices::matrices_of(profiles[i], inputs[i], dual_illuminant) is Some,
    ensures
        extra_records(profiles, inputs, default_idx, dual_illuminant, n).contains(
            profile_record(
                profiles[i],
                inputs[i],
                crate::matrices::matrices_of(profiles[i], inputs[i], dual_illuminant)->0,
            ),
        ),
    decreases n,
{
    let m = crate::matrices::matrices_of(profiles[i], inputs[i], dual_illuminant)->0;
    let record = profile_record(profiles[i], inputs[i], m);
    let k = (n - 1) as nat;
    let before = extra_records(profiles, inputs, default_idx, dual_illuminant, k);
    let after = extra_records(profiles, inputs, default_idx, dual_illuminant, n);
    if i == k {
        assert(after == before.push(record));
        assert(after[before.len() as int] == record);
    } else {
        law_every_other_profile_is_stored(
            profiles,
            inputs,
            default_idx,
            dual_illuminant,
            k,
            i,
        );
        let p = choose|p: int| 0 <= p < before.len() && before[p] == record;
        assert(after[p] == record);
    }
}

/// Every record of the blob is that of a profile other than the default one, which
/// the file gets; the records keep the order of the profiles.
pub proof fn law_only_other_profiles_are_stored(
    profiles: Seq<CameraProfile>,
    inputs: Seq<ProfileInputs>,
    default_idx: int,
    dual_illuminant: bool,
    n: nat,
) -> (from: Seq<int>)
    ensures
        from.len() == extra_records(profiles, inputs, default_idx, dual_illuminant, n).len(),
        forall|p: int, q: int| 0 <= p < q < from.len() ==> from[p] < from[q],
        forall|p: int|
            0 <= p < from.len() ==> {
                let i = #[trigger] from[p];
                &&& 0 <= i < n
                &&& i != default_idx
                &&& crate::matrices::matrices_of(profiles[i], inputs[i], dual_illuminant) matches Some(
                    m,
                ) && extra_records(profiles, inputs, default_idx, dual_illuminant, n)[p]
                    == profile_record(profiles[i], inputs[i], m)
            },
    decreases n,
{
    if n == 0 {
        seq![]
    } else {
        let k = n - 1;
        let before = law_only_other_profiles_are_stored(
            profiles,
            inputs,
            default_idx,
            dual_illuminant,
            k as nat,
        );
        if k != default_idx && crate::matrices::matrices_of(
            profiles[k],
            inputs[k],
            dual_illuminant,
        ) is Some {
            before.push(k)
        } else {
            before
        }
    }
}

/// Next to the standard profile as the default, every extra profile reads back: none
/// of them has tables, so none has a table that a reader would miss.
pub proof fn law_extra_profiles_read_back(
    inputs: Seq<ProfileInputs>,
    dual_illuminant: bool,
    k: int,
)
    requires
        0 <= k < all_extra_records(inputs, 0, dual_illuminant).len(),
        packed(all_extra_records(inputs, 0, dual_illuminant)).len() <= u32::MAX,
    ensures
        ({
            let records = all_extra_records(inputs, 0, dual_illuminant);
            let place = offsets_of(records)[k] as int;
            let blob = packed(records).subrange(
                place,
                place + crate::mmcr::record_len(records[k]),
            );
            &&& blob.take(4) == crate::mmcr::magic()
            &&& crate::reading::read_fields(blob) == crate::reading::fields(records[k])
        }),
{
    let table = crate::camera::profile_table();
    let from = law_only_other_profiles_are_stored(table, inputs, 0, dual_illuminant, table.len());
    let i = from[k];
    assert(table[i].cmcc_camf is None && table[i].multi_axis_camf is None);
    law_blob_reads_back(all_extra_records(inputs, 0, dual_illuminant), k);
}

/// The records next to the standard profile as the default: those of the six synthetic
/// profiles, each made from its Adobe RGB matrices and its gray mix alone.
proof fn lemma_synthetic_records(inputs: Seq<ProfileInputs>, dual_illuminant: bool)
    requires
        inputs.len() == crate::camera::profile_table().len(),
    ensures
        all_extra_records(inputs, 0, dual_illuminant).len() == 6,
        forall|k: int|
            0 <= k < 6 ==> #[trigger] all_extra_records(inputs, 0, dual_illuminant)[k]
                == synthetic_record(k + 1, synthetic_pair(k + 1, inputs[k + 1])),
{
    let table = crate::camera::profile_table();
    assert(table.len() == 7);
    reveal_with_fuel(extra_records, 2);
    assert(extra_records(table, inputs, 0, dual_illuminant, 1) =~= seq![]);
    lemma_next_synthetic(inputs, dual_illuminant, 1);
    lemma_next_synthetic(inputs, dual_illuminant, 2);
    lemma_next_synthetic(inputs, dual_illuminant, 3);
    lemma_next_synthetic(inputs, dual_illuminant, 4);
    lemma_next_synthetic(inputs, dual_illuminant, 5);
    lemma_next_synthetic(inputs, dual_illuminant, 6);
}

proof fn lemma_next_synthetic(inputs: Seq<ProfileInputs>, dual_illuminant: bool, i: int)
    requires
        1 <= i < 7,
    ensures
        extra_records(
            crate::camera::profile_table(),
            inputs,
            0,
            dual_illuminant,
            (i + 1) as nat,
        ) == extra_records(
            crate::camera::profile_table(),
            inputs,
            0,
            dual_illuminant,
            i as nat,
        ).push(synthetic_record(i, synthetic_pair(i, inputs[i]))),
{
    let table = crate::camera::profile_table();
    crate::matrices::law_adobe_rgb_profiles_are_always_there(table[i], inputs[i], dual_illuminant);
}

/// The matrices of synthetic profile `i` of the table.
pub open spec fn synthetic_pair(i: int, inputs: ProfileInputs) -> crate::matrices::MatrixPair {
    crate::matrices::mixed_pair(
        crate::camera::profile_table()[i],
        inputs.plain.adobe_rgb,
        inputs.gray_forward,
    )
}

/// What synthetic profile `i` of the table is stored as.
pub open spec fn synthetic_record(i: int, pair: crate::matrices::MatrixPair) -> Record {
    Record {
        name: vstd::utf8::encode_utf8(crate::camera::profile_table()[i].name@),
        matrices: crate::matrices::single_matrices(pair),
        tone: None,
        map: None,
    }
}

/// Length of the record of synthetic profile `i`.
proof fn lemma_synthetic_length(i: int, pair: crate::matrices::MatrixPair)
    requires
        1 <= i < 7,
    ensures
        crate::mmcr::record_len(synthetic_record(i, pair)) == seq![229int, 242, 245, 244, 243, 230][i
            - 1],
{
    let name = crate::camera::profile_table()[i].name@;
    crate::camera::lemma_name_lengths();
    assert(vstd::utf8::is_ascii_chars(name)) by {
        reveal_strlit("Monochrome");
        reveal_strlit("Monochrome (red filter)");
        reveal_strlit("Monochrome (yellow filter)");
        reveal_strlit("Monochrome (green filter)");
        reveal_strlit("Monochrome (blue filter)");
        reveal_strlit("Unconverted");
    }
    vstd::utf8::is_ascii_chars_encode_utf8(name);
}

/// Where the next record goes.
proof fn lemma_next_place(records: Seq<Record>, k: int)
    requires
        0 <= k < records.len(),
    ensures
        packed(records.take(k + 1)).len() == place_of(records, k) + crate::mmcr::record_len(
            records[k],
        ),
{
    let upto = records.take(k + 1);
    assert(upto.drop_last() =~= records.take(k));
    crate::reading::law_record_header(records[k]);
}

/// Next to the standard profile as the default, the blob holds the six synthetic
/// profiles, whatever the file: each as a record of five entries, at a place that the
/// lengths of the names fix.
pub proof fn law_synthetic_profiles_are_stored(inputs: Seq<ProfileInputs>, dual_illuminant: bool)
    requires
        inputs.len() == crate::camera::profile_table().len(),
    ensures
        ({
            let records = all_extra_records(inputs, 0, dual_illuminant);
            &&& records.len() == 6
            &&& forall|k: int|
                0 <= k < 6 ==> #[trigger] records[k] == synthetic_record(
                    k + 1,
                    synthetic_pair(k + 1, inputs[k + 1]),
                ) && crate::mmcr::entry_count(records[k]) == 5
            &&& offsets_of(records) == seq![0u32, 230, 472, 718, 962, 1206]
            &&& packed(records).len() == 1436
        }),
{
    let records = all_extra_records(inputs, 0, dual_illuminant);
    lemma_synthetic_records(inputs, dual_illuminant);
    assert forall|k: int| 0 <= k < 6 implies crate::mmcr::record_len(#[trigger] records[k])
        == seq![229int, 242, 245, 244, 243, 230][k] by {
        lemma_synthetic_length(k + 1, synthetic_pair(k + 1, inputs[k + 1]));
    }
    assert(records.take(0) =~= seq![]);
    assert(records.take(6) =~= records);
    assert(place_of(records, 0) == 0);
    lemma_next_place(records, 0);
    assert(place_of(records, 1) == 230);
    lemma_next_place(records, 1);
    assert(place_of(records, 2) == 472);
    lemma_next_place(records, 2);
    assert(place_of(records, 3) == 718);
    lemma_next_place(records, 3);
    assert(place_of(records, 4) == 962);
    lemma_next_place(records, 4);
    assert(place_of(records, 5) == 1206);
    lemma_next_place(records, 5);
    assert(offsets_of(records) =~= seq![0u32, 230, 472, 718, 962, 1206]);
}

/// Next to the standard profile as the default, the blob depends on the Adobe RGB
/// matrices of the synthetic profiles and on their gray mixes alone.
pub proof fn law_blob_depends_on_adobe_rgb_alone(
    inputs: Seq<ProfileInputs>,
    others: Seq<ProfileInputs>,
    dual_illuminant: bool,
    other_dual: bool,
)
    requires
        inputs.len() == crate::camera::profile_table().len(),
        others.len() == crate::camera::profile_table().len(),
        forall|i: int|
            1 <= i < 7 ==> (#[trigger] inputs[i]).plain.adobe_rgb == others[i].plain.adobe_rgb
                && inputs[i].gray_forward == others[i].gray_forward,
    ensures
        all_extra_records(inputs, 0, dual_illuminant) == all_extra_records(others, 0, other_dual),
{
    lemma_synthetic_records(inputs, dual_illuminant);
    lemma_synthetic_records(others, other_dual);
    assert(all_extra_records(inputs, 0, dual_illuminant) =~= all_extra_records(
        others,
        0,
        other_dual,
    ));
}

} // verus!
