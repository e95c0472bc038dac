//! What the tags of a default profile and the bytes of a record tell of the profile that
//! they were made from.
use crate::camera::CameraProfile;
use crate::directory::Values;
use crate::matrices::{ProfileInputs, ProfileMatrices};
use crate::mmcr::{Item, Record};
use crate::reading::Field;
use vstd::prelude::*;

verus! {

/// Tag `i` of one part of the list of a default profile is in the list.
proof fn lemma_part_of_default_tags(
    profile: CameraProfile,
    inputs: ProfileInputs,
    m: ProfileMatrices,
    e: (u16, Values),
)
    requires
        crate::profiles::profile_tags(profile.name@, m).contains(e)
            || crate::profiles::tone_tags(crate::profiles::tone_of(profile, inputs)).contains(e)
            || crate::profiles::map_tags(crate::profiles::map_of(profile, inputs)).contains(e),
    ensures
        crate::profiles::default_tags(profile, inputs, m).contains(e),
{
    let a = crate::profiles::profile_tags(profile.name@, m);
    let b = crate::profiles::tone_tags(crate::profiles::tone_of(profile, inputs));
    let c = crate::profiles::map_tags(crate::profiles::map_of(profile, inputs));
    let i = if a.contains(e) {
        a.index_of(e)
    } else if b.contains(e) {
        a.len() + b.index_of(e)
    } else {
        a.len() + b.len() + c.index_of(e)
    };
    assert(crate::profiles::default_tags(profile, inputs, m)[i] == e);
}

/// A profile with a contrast entry keeps the tone curve that the file gives for it, as the
/// default of its file and as an extra profile, whatever else the file gives, a
/// hue/saturation map or none.
pub proof fn law_tone_curve_is_kept(
    profile: CameraProfile,
    inputs: ProfileInputs,
    m: ProfileMatrices,
    curve: Vec<u32>,
)
    requires
        profile.cmcc_camf is Some,
        inputs.tone_curve == Some(curve),
    ensures
        crate::profiles::default_tags(profile, inputs, m).contains(
            (50940u16, Values::Float(curve@)),
        ),
        crate::profiles::profile_record(profile, inputs, m).tone == Some(curve@),
{
    let part = crate::profiles::tone_tags(crate::profiles::tone_of(profile, inputs));
    assert(part[0] == (50940u16, Values::Float(curve@)));
    lemma_part_of_default_tags(profile, inputs, m, part[0]);
}

/// A profile with a table entry keeps the hue/saturation map that the file gives for it,
/// with its divisions and its linear encoding, as the default of its file and as an extra
/// profile, whatever else the file gives, a tone curve or none.
pub proof fn law_hue_sat_map_is_kept(
    profile: CameraProfile,
    inputs: ProfileInputs,
    m: ProfileMatrices,
    map: Vec<u32>,
)
    requires
        profile.multi_axis_camf is Some,
        inputs.hue_sat_map == Some(map),
    ensures
        crate::profiles::default_tags(profile, inputs, m).contains(
            (50938u16, Values::Float(map@)),
        ),
        crate::profiles::default_tags(profile, inputs, m).contains(
            (50937u16, Values::Long(seq![21u32, 2, 1])),
        ),
        crate::profiles::default_tags(profile, inputs, m).contains(
            (51107u16, Values::Long(seq![0u32])),
        ),
        crate::profiles::profile_record(profile, inputs, m).map == Some(map@),
{
    let part = crate::profiles::map_tags(crate::profiles::map_of(profile, inputs));
    assert(part[0] == (50937u16, Values::Long(seq![21u32, 2, 1])));
    assert(part[1] == (50938u16, Values::Float(map@)));
    assert(part[2] == (51107u16, Values::Long(seq![0u32])));
    lemma_part_of_default_tags(profile, inputs, m, part[0]);
    lemma_part_of_default_tags(profile, inputs, m, part[1]);
    lemma_part_of_default_tags(profile, inputs, m, part[2]);
}

/// Whether no tag of a list is `tag`.
pub open spec fn lacks(tags: Seq<(u16, Values)>, tag: u16) -> bool {
    forall|i: int| 0 <= i < tags.len() ==> (#[trigger] tags[i]).0 != tag
}

/// A profile has no tone curve where it has no contrast entry or the file gives none, and no
/// hue/saturation map where it has no table entry or the file gives none.
pub proof fn law_no_table_comes_from_nowhere(
    profile: CameraProfile,
    inputs: ProfileInputs,
    m: ProfileMatrices,
)
    ensures
        profile.cmcc_camf is None || inputs.tone_curve is None ==> lacks(
            crate::profiles::default_tags(profile, inputs, m),
            50940,
        ) && crate::profiles::profile_record(profile, inputs, m).tone is None,
        profile.multi_axis_camf is None || inputs.hue_sat_map is None ==> lacks(
            crate::profiles::default_tags(profile, inputs, m),
            50937,
        ) && lacks(crate::profiles::default_tags(profile, inputs, m), 50938) && lacks(
            crate::profiles::default_tags(profile, inputs, m),
            51107,
        ) && crate::profiles::profile_record(profile, inputs, m).map is None,
{
    let tags = crate::profiles::default_tags(profile, inputs, m);
    let a = crate::profiles::profile_tags(profile.name@, m);
    let b = crate::profiles::tone_tags(crate::profiles::tone_of(profile, inputs));
    let c = crate::profiles::map_tags(crate::profiles::map_of(profile, inputs));
    assert forall|i: int| 0 <= i < tags.len() implies {
        let tag = (#[trigger] tags[i]).0;
        &&& tag == 50940 ==> b.len() > 0
        &&& tag == 50937 || tag == 50938 || tag == 51107 ==> c.len() > 0
    } by {
        if i < a.len() {
            assert(tags[i] == a[i]);
            let first = crate::profiles::matrix_tags(m);
            if i < first.len() {
                assert(a[i] == first[i]);
            }
        } else if i < a.len() + b.len() {
            assert(tags[i] == b[i - a.len()]);
        } else if i < a.len() + b.len() + c.len() {
            assert(tags[i] == c[i - a.len() - b.len()]);
        }
    }
}

/// Whether `pairs` are the elements of a matrix over ten thousand, in their order.
pub open spec fn over_ten_thousand(pairs: Seq<(i32, i32)>, values: [u32; 9]) -> bool {
    &&& pairs.len() == 9
    &&& forall|i: int|
        0 <= i < 9 ==> (#[trigger] pairs[i]).0 == crate::rational::numerator(
            crate::rational::binary32(values[i]),
            10_000,
        ) && pairs[i].1 == 10_000
}

/// Whether a list has a tag with this matrix.
pub open spec fn has_matrix(tags: Seq<(u16, Values)>, tag: u16, values: [u32; 9]) -> bool {
    exists|pairs: Seq<(i32, i32)>|
        over_ten_thousand(pairs, values) && #[trigger] tags.contains(
            (tag, Values::SRational(pairs)),
        )
}

proof fn lemma_matrix_tag(
    profile: CameraProfile,
    inputs: ProfileInputs,
    m: ProfileMatrices,
    k: int,
    tag: u16,
    values: [u32; 9],
)
    requires
        0 <= k < crate::profiles::matrix_tags(m).len(),
        crate::profiles::matrix_tags(m)[k] == (tag, crate::profiles::matrix_values(values)),
    ensures
        has_matrix(crate::profiles::default_tags(profile, inputs, m), tag, values),
{
    let all = crate::profiles::profile_tags(profile.name@, m);
    let e = crate::profiles::matrix_tags(m)[k];
    assert(all[k] == e);
    lemma_part_of_default_tags(profile, inputs, m, e);
    let pairs = crate::directory::srationals(values@, 10_000);
    assert(over_ten_thousand(pairs, values));
    assert(e == (tag, Values::SRational(pairs)));
}

/// The tags of a default profile hold its matrices element by element, each under the tag of
/// its illuminant, the codes of both illuminants where it has two, its name as the name of
/// the profile and as that of the as-shot profile, and the black render mode.
pub proof fn law_default_tags_hold_the_profile(
    profile: CameraProfile,
    inputs: ProfileInputs,
    m: ProfileMatrices,
)
    ensures
        has_matrix(crate::profiles::default_tags(profile, inputs, m), 50721, m.first.color),
        has_matrix(crate::profiles::default_tags(profile, inputs, m), 50964, m.first.forward),
        m.second matches Some(second) ==> has_matrix(
            crate::profiles::default_tags(profile, inputs, m),
            50722,
            second.color,
        ),
        m.second matches Some(second) ==> has_matrix(
            crate::profiles::default_tags(profile, inputs, m),
            50965,
            second.forward,
        ),
        m.second matches Some(second) ==> crate::profiles::default_tags(
            profile,
            inputs,
            m,
        ).contains((50778u16, Values::Short(seq![m.first.illuminant]))),
        m.second matches Some(second) ==> crate::profiles::default_tags(
            profile,
            inputs,
            m,
        ).contains((50779u16, Values::Short(seq![second.illuminant]))),
        crate::profiles::default_tags(profile, inputs, m).contains(
            (50936u16, Values::Ascii(vstd::utf8::encode_utf8(profile.name@) + seq![0u8])),
        ),
        crate::profiles::default_tags(profile, inputs, m).contains(
            (50934u16, Values::Ascii(vstd::utf8::encode_utf8(profile.name@) + seq![0u8])),
        ),
        crate::profiles::default_tags(profile, inputs, m).contains(
            (51110u16, Values::Long(seq![1u32])),
        ),
        crate::profiles::profile_record(profile, inputs, m).name == vstd::utf8::encode_utf8(
            profile.name@,
        ),
        crate::profiles::profile_record(profile, inputs, m).matrices == m,
{
    let tags = crate::profiles::default_tags(profile, inputs, m);
    let own = crate::profiles::profile_tags(profile.name@, m);
    let matrices = crate::profiles::matrix_tags(m);
    let n = matrices.len() as int;
    let name = crate::directory::terminated(profile.name@);
    assert(name =~= vstd::utf8::encode_utf8(profile.name@) + seq![0u8]);
    lemma_matrix_tag(profile, inputs, m, 0, 50721, m.first.color);
    lemma_matrix_tag(profile, inputs, m, 1, 50964, m.first.forward);
    if let Some(second) = m.second {
        lemma_matrix_tag(profile, inputs, m, 2, 50722, second.color);
        lemma_matrix_tag(profile, inputs, m, 3, 50965, second.forward);
        assert(own[4] == matrices[4]);
        assert(own[5] == matrices[5]);
        lemma_part_of_default_tags(profile, inputs, m, own[4]);
        lemma_part_of_default_tags(profile, inputs, m, own[5]);
    }
    assert(own[n] == (50936u16, Values::Ascii(name)));
    assert(own[n + 1] == (51110u16, Values::Long(seq![1u32])));
    lemma_part_of_default_tags(profile, inputs, m, own[n]);
    lemma_part_of_default_tags(profile, inputs, m, own[n + 1]);
    assert(tags[tags.len() - 1] == (50934u16, Values::Ascii(name)));
}

/// Whether a tag is one that a default profile can have.
pub open spec fn of_a_profile(tag: u16) -> bool {
    ||| tag == 50721 || tag == 50964 || tag == 50722 || tag == 50965
    ||| tag == 50778 || tag == 50779
    ||| tag == 50936 || tag == 51110 || tag == 50934
    ||| tag == 50940
    ||| tag == 50937 || tag == 50938 || tag == 51107
}

/// A default profile has no tag twice, and no other tags than those of its matrices,
/// illuminants, names, tables and black render mode.
pub proof fn law_default_tags_are_distinct(
    profile: CameraProfile,
    inputs: ProfileInputs,
    m: ProfileMatrices,
    i: int,
    j: int,
)
    requires
        0 <= i < j < crate::profiles::default_tags(profile, inputs, m).len(),
    ensures
        crate::profiles::default_tags(profile, inputs, m)[i].0 != crate::profiles::default_tags(
            profile,
            inputs,
            m,
        )[j].0,
        of_a_profile(crate::profiles::default_tags(profile, inputs, m)[i].0),
        of_a_profile(crate::profiles::default_tags(profile, inputs, m)[j].0),
{
    lemma_default_tag_at(profile, inputs, m, i);
    lemma_default_tag_at(profile, inputs, m, j);
}

/// The tag at place `i` of a default profile, by the part of the list that it is in.
proof fn lemma_default_tag_at(
    profile: CameraProfile,
    inputs: ProfileInputs,
    m: ProfileMatrices,
    i: int,
)
    requires
        0 <= i < crate::profiles::default_tags(profile, inputs, m).len(),
    ensures
        ({
            let tag = crate::profiles::default_tags(profile, inputs, m)[i].0;
            let a: int = if m.second is Some {
                6
            } else {
                2
            };
            let b = crate::profiles::tone_tags(crate::profiles::tone_of(profile, inputs)).len();
            let c = crate::profiles::map_tags(crate::profiles::map_of(profile, inputs)).len();
            tag == (if i < a {
                seq![50721u16, 50964, 50722, 50965, 50778, 50779][i]
            } else if i < a + 2 {
                seq![50936u16, 51110][i - a]
            } else if i < a + 2 + b {
                50940
            } else if i < a + 2 + b + c {
                seq![50937u16, 50938, 51107][i - a - 2 - b]
            } else {
                50934
            }) && b <= 1 && c <= 3 && i <= a + 2 + b + c
        }),
{
    let tags = crate::profiles::default_tags(profile, inputs, m);
    let first = crate::profiles::matrix_tags(m);
    let a = crate::profiles::profile_tags(profile.name@, m);
    let b = crate::profiles::tone_tags(crate::profiles::tone_of(profile, inputs));
    let c = crate::profiles::map_tags(crate::profiles::map_of(profile, inputs));
    if i < first.len() {
        assert(tags[i] == first[i]);
    } else if i < a.len() {
        assert(tags[i] == a[i]);
    } else if i < a.len() + b.len() {
        assert(tags[i] == b[i - a.len()]);
    } else if i < a.len() + b.len() + c.len() {
        assert(tags[i] == c[i - a.len() - b.len()]);
    }
}

/// Word `j` of a value, most significant byte first.
pub open spec fn big_word(b: Seq<u8>, j: int) -> int {
    b[4 * j] * 0x100_0000 + b[4 * j + 1] * 0x1_0000 + b[4 * j + 2] * 0x100 + b[4 * j + 3]
}

/// Whether a reader of a record finds a tag of this type whose value is these words. A
/// signed rational has two words, every other value one.
pub open spec fn tells(b: Seq<u8>, tag: u16, kind: u16, words: Seq<int>) -> bool {
    exists|i: int|
        {
            &&& 0 <= i < crate::reading::read_fields(b).len()
            &&& told_by(#[trigger] crate::reading::read_fields(b)[i], tag, kind, words)
        }
}

/// Whether a field has this tag and this type, and these words for its value.
pub open spec fn told_by(x: Field, tag: u16, kind: u16, words: Seq<int>) -> bool {
    &&& x.tag == tag
    &&& x.kind == kind
    &&& words.len() == (if kind == 10 {
        2 * x.count
    } else {
        x.count
    })
    &&& x.payload.len() == 4 * words.len()
    &&& forall|j: int| 0 <= j < words.len() ==> big_word(x.payload, j) == #[trigger] words[j]
}

/// Whether a reader of a record finds a tag of this type with these bytes.
pub open spec fn tells_bytes(b: Seq<u8>, tag: u16, kind: u16, count: nat, bytes: Seq<u8>) -> bool {
    crate::reading::read_fields(b).contains(Field { tag, kind, count, payload: bytes })
}

/// The elements of a matrix as words: numerators in two's complement, each over ten
/// thousand.
pub open spec fn matrix_words(values: [u32; 9]) -> Seq<int> {
    Seq::new(
        18,
        |j: int|
            if j % 2 == 0 {
                crate::rational::numerator(crate::rational::binary32(values[j / 2]), 10_000)
                    as int % 0x1_0000_0000
            } else {
                10_000
            },
    )
}

/// 32-bit values as words.
pub open spec fn plain_words(values: Seq<u32>) -> Seq<int> {
    values.map_values(|v: u32| v as int)
}

proof fn lemma_word_of_all(values: Seq<u32>, j: int)
    requires
        0 <= j < values.len(),
    ensures
        big_word(crate::endian::be32_all(values), j) == values[j],
{
    let b = crate::endian::be32_all(values);
    let x = crate::endian::be32(values[j]);
    assert(4 * j / 4 == j && (4 * j + 1) / 4 == j && (4 * j + 2) / 4 == j && (4 * j + 3) / 4 == j);
    assert(b[4 * j] == x[0] && b[4 * j + 1] == x[1] && b[4 * j + 2] == x[2] && b[4 * j + 3]
        == x[3]);
}

/// An entry of one part of the directory is found by a reader.
proof fn lemma_entry_is_read(r: Record, x: Item)
    requires
        crate::mmcr::record_len(r) <= u32::MAX,
        crate::reading::tables_found(r),
        crate::mmcr::color_items(r).contains(x) || crate::mmcr::table_items(r).contains(x)
            || crate::mmcr::forward_items(r).contains(x) || crate::mmcr::closing_items(r).contains(
            x,
        ),
    ensures
        crate::reading::read_fields(crate::mmcr::record_bytes(r)).contains(
            crate::reading::field_of(x),
        ),
{
    crate::reading::law_record_reads_back(r);
    let a = crate::mmcr::color_items(r);
    let b = crate::mmcr::table_items(r);
    let c = crate::mmcr::forward_items(r);
    let d = crate::mmcr::closing_items(r);
    let i = if a.contains(x) {
        a.index_of(x)
    } else if b.contains(x) {
        a.len() + b.index_of(x)
    } else if c.contains(x) {
        a.len() + b.len() + c.index_of(x)
    } else {
        a.len() + b.len() + c.len() + d.index_of(x)
    };
    assert(crate::mmcr::items(r)[i] == x);
    assert(crate::reading::fields(r)[i] == crate::reading::field_of(x));
}

proof fn lemma_tells(b: Seq<u8>, x: Field, words: Seq<int>)
    requires
        crate::reading::read_fields(b).contains(x),
        told_by(x, x.tag, x.kind, words),
    ensures
        tells(b, x.tag, x.kind, words),
{
    let i = crate::reading::read_fields(b).index_of(x);
    assert(told_by(crate::reading::read_fields(b)[i], x.tag, x.kind, words));
}

proof fn lemma_matrix_is_told(r: Record, x: Item, tag: u16, values: [u32; 9], at: nat)
    requires
        crate::mmcr::record_len(r) <= u32::MAX,
        crate::reading::tables_found(r),
        crate::mmcr::color_items(r).contains(x) || crate::mmcr::forward_items(r).contains(x),
        x == crate::mmcr::matrix_item(tag, values@, at),
    ensures
        tells(crate::mmcr::record_bytes(r), tag, 10, matrix_words(values)),
{
    lemma_entry_is_read(r, x);
    lemma_matrix_field(tag, values, at);
    lemma_tells(crate::mmcr::record_bytes(r), crate::reading::field_of(x), matrix_words(values));
}

/// The words of the field that holds a matrix.
proof fn lemma_matrix_field(tag: u16, values: [u32; 9], at: nat)
    ensures
        told_by(
            crate::reading::field_of(crate::mmcr::matrix_item(tag, values@, at)),
            tag,
            10,
            matrix_words(values),
        ),
{
    let words = crate::mmcr::srational_words(values@);
    let bytes = crate::mmcr::srational_bytes(values@);
    assert(words.len() == 18);
    assert forall|j: int| 0 <= j < 18 implies big_word(bytes, j) == #[trigger] matrix_words(
        values,
    )[j] by {
        lemma_word_of_all(words, j);
        lemma_matrix_word(values, j);
    }
}

proof fn lemma_matrix_word(values: [u32; 9], j: int)
    requires
        0 <= j < 18,
    ensures
        matrix_words(values)[j] == crate::mmcr::srational_words(values@)[j],
{
}

proof fn lemma_words_are_told(r: Record, x: Item, words: Seq<u32>)
    requires
        crate::mmcr::record_len(r) <= u32::MAX,
        crate::reading::tables_found(r),
        crate::mmcr::table_items(r).contains(x) || crate::mmcr::closing_items(r).contains(x),
        x.kind != 10,
        x.count == words.len(),
        x.payload == crate::endian::be32_all(words),
    ensures
        tells(crate::mmcr::record_bytes(r), x.tag, x.kind, plain_words(words)),
{
    lemma_entry_is_read(r, x);
    let f = crate::reading::field_of(x);
    assert forall|j: int| 0 <= j < words.len() implies big_word(f.payload, j)
        == #[trigger] plain_words(words)[j] by {
        lemma_word_of_all(words, j);
    }
    lemma_tells(crate::mmcr::record_bytes(r), f, plain_words(words));
}

/// A reader of a record finds the matrices in it, element by element, each under the tag of
/// its illuminant, and the codes of both illuminants where there are two.
pub proof fn law_record_tells_its_matrices(r: Record)
    requires
        crate::mmcr::record_len(r) <= u32::MAX,
        crate::reading::tables_found(r),
    ensures
        tells(crate::mmcr::record_bytes(r), 50721, 10, matrix_words(r.matrices.first.color)),
        tells(crate::mmcr::record_bytes(r), 50964, 10, matrix_words(r.matrices.first.forward)),
        r.matrices.second matches Some(second) ==> tells(
            crate::mmcr::record_bytes(r),
            50722,
            10,
            matrix_words(second.color),
        ),
        r.matrices.second matches Some(second) ==> tells(
            crate::mmcr::record_bytes(r),
            50965,
            10,
            matrix_words(second.forward),
        ),
        r.matrices.second matches Some(second) ==> tells_bytes(
            crate::mmcr::record_bytes(r),
            50778,
            3,
            1,
            seq![
                (r.matrices.first.illuminant / 256) as u8,
                (r.matrices.first.illuminant % 256) as u8,
            ],
        ),
        r.matrices.second matches Some(second) ==> tells_bytes(
            crate::mmcr::record_bytes(r),
            50779,
            3,
            1,
            seq![(second.illuminant / 256) as u8, (second.illuminant % 256) as u8],
        ),
{
    let colors = crate::mmcr::color_items(r);
    let forwards = crate::mmcr::forward_items(r);
    let m = r.matrices;
    assert(colors.contains(colors[1]));
    assert(forwards.contains(forwards[0]));
    lemma_matrix_is_told(r, colors[1], 50721, m.first.color, crate::mmcr::tail_at(r));
    lemma_matrix_is_told(r, forwards[0], 50964, m.first.forward, crate::mmcr::forward_at(r));
    if let Some(second) = m.second {
        assert(colors.contains(colors[2]) && colors.contains(colors[3]) && colors.contains(
            colors[4],
        ));
        assert(forwards.contains(forwards[1]));
        lemma_matrix_is_told(r, colors[2], 50722, second.color, crate::mmcr::tail_at(r) + 72);
        lemma_matrix_is_told(r, forwards[1], 50965, second.forward, crate::mmcr::tail_at(r) + 216);
        lemma_entry_is_read(r, colors[3]);
        lemma_entry_is_read(r, colors[4]);
    }
}

/// A reader of a record finds the tables in it, value by value, with the divisions and the
/// linear encoding of the hue/saturation map, the name with its terminator, no compression,
/// and the black render mode.
pub proof fn law_record_tells_its_tables(r: Record)
    requires
        crate::mmcr::record_len(r) <= u32::MAX,
        crate::reading::tables_found(r),
    ensures
        r.tone matches Some(tone) ==> tells(
            crate::mmcr::record_bytes(r),
            50940,
            11,
            plain_words(tone),
        ),
        r.map matches Some(map) ==> tells(
            crate::mmcr::record_bytes(r),
            50938,
            11,
            plain_words(map),
        ),
        r.map is Some ==> tells(crate::mmcr::record_bytes(r), 50937, 4, seq![21int, 2, 1]),
        r.map is Some ==> tells(crate::mmcr::record_bytes(r), 51107, 4, seq![0int]),
        tells(crate::mmcr::record_bytes(r), 51110, 4, seq![1int]),
        tells_bytes(
            crate::mmcr::record_bytes(r),
            50936,
            2,
            r.name.len() + 1,
            r.name + seq![0u8],
        ),
        tells_bytes(crate::mmcr::record_bytes(r), 259, 3, 1, seq![0u8, 1]),
{
    let tables = crate::mmcr::table_items(r);
    let closing = crate::mmcr::closing_items(r);
    let colors = crate::mmcr::color_items(r);
    assert(tables[0] == crate::mmcr::name_item(r));
    assert(tables.contains(tables[0]));
    lemma_entry_is_read(r, tables[0]);
    assert(crate::mmcr::stored_name(r) =~= r.name + seq![0u8]);
    assert(colors.contains(colors[0]));
    lemma_entry_is_read(r, colors[0]);
    assert(crate::endian::be16(1) =~= seq![0u8, 1]);
    let k: int = if r.map is Some {
        2
    } else {
        0
    };
    if let Some(map) = r.map {
        let items = crate::mmcr::map_items(r);
        assert(tables[1] == items[0] && tables[2] == items[1]);
        assert(tables.contains(tables[1]) && tables.contains(tables[2]));
        lemma_words_are_told(r, tables[1], seq![21u32, 2, 1]);
        assert(plain_words(seq![21u32, 2, 1]) =~= seq![21int, 2, 1]);
        lemma_words_are_told(r, tables[2], map);
        assert(closing.contains(closing[0]));
        assert(crate::endian::be32_all(seq![0u32]) =~= crate::endian::be32(0));
        lemma_words_are_told(r, closing[0], seq![0u32]);
        assert(plain_words(seq![0u32]) =~= seq![0int]);
    }
    if let Some(tone) = r.tone {
        let items = crate::mmcr::tone_items(r);
        assert(tables[1 + k] == items[0]);
        assert(tables.contains(tables[1 + k]));
        lemma_words_are_told(r, tables[1 + k], tone);
    }
    assert(closing.contains(closing.last()));
    assert(crate::endian::be32_all(seq![1u32]) =~= crate::endian::be32(1));
    lemma_words_are_told(r, closing.last(), seq![1u32]);
    assert(plain_words(seq![1u32]) =~= seq![1int]);
}

/// A record begins with the four letters `MMCR` and the place of its directory, right behind
/// these eight bytes; the directory begins with the number of its entries, five and those of
/// a second illuminant, a tone curve and a hue/saturation map, and four zero bytes behind them
/// say that no other follows.
pub proof fn law_record_begins_with_its_magic(r: Record)
    ensures
        ({
            let b = crate::mmcr::record_bytes(r);
            let n = 5 + (if r.matrices.second is Some {
                4int
            } else {
                0
            }) + (if r.tone is Some {
                1int
            } else {
                0
            }) + (if r.map is Some {
                3int
            } else {
                0
            });
            &&& b.take(8) == seq![0x4du8, 0x4d, 0x43, 0x52, 0, 0, 0, 8]
            &&& b[8] * 256 + b[9] == n
            &&& b.subrange(10 + 12 * n, 14 + 12 * n) == seq![0u8, 0, 0, 0]
        }),
{
    let b = crate::mmcr::record_bytes(r);
    crate::reading::lemma_layout(r);
    let n = crate::mmcr::entry_count(r);
    assert(b.take(8) =~= b.subrange(0, 4) + b.subrange(4, 8));
    assert(b.take(8) =~= seq![0x4du8, 0x4d, 0x43, 0x52, 0, 0, 0, 8]);
    assert(b.subrange(8, 10)[0] == b[8] && b.subrange(8, 10)[1] == b[9]);
    crate::endian::law_most_significant_byte_first(n as u16, 0);
    assert(crate::endian::be32(0) =~= seq![0u8, 0, 0, 0]);
}

} // verus!
