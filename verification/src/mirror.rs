//! A default profile and a stored record of the same profile say the same.
use crate::camera::CameraProfile;
use crate::directory::Values;
use crate::matrices::{ProfileInputs, ProfileMatrices};
use crate::mmcr::{Item, Record};
use crate::reading::Field;
use crate::tags::{
    TIFF_TYPE_ASCII, TIFF_TYPE_FLOAT, TIFF_TYPE_LONG, TIFF_TYPE_SHORT, TIFF_TYPE_SRATIONAL,
};
use vstd::prelude::*;

verus! {

/// The 32-bit words of signed rationals.
pub open spec fn rational_words(pairs: Seq<(i32, i32)>) -> Seq<u32> {
    Seq::new(
        pairs.len() * 2,
        |i: int|
            crate::endian::pattern32(
                if i % 2 == 0 {
                    pairs[i / 2].0
                } else {
                    pairs[i / 2].1
                },
            ),
    )
}

/// A tag as a reader of a big-endian directory would get it.
pub open spec fn tag_field(tag: u16, values: Values) -> Field {
    match values {
        Values::Short(v) => Field {
            tag,
            kind: TIFF_TYPE_SHORT,
            count: v.len(),
            payload: Seq::new(v.len() * 2, |i: int| crate::endian::be16(v[i / 2])[i % 2]),
        },
        Values::Long(v) => Field {
            tag,
            kind: TIFF_TYPE_LONG,
            count: v.len(),
            payload: crate::endian::be32_all(v),
        },
        Values::SRational(v) => Field {
            tag,
            kind: TIFF_TYPE_SRATIONAL,
            count: v.len(),
            payload: crate::endian::be32_all(rational_words(v)),
        },
        Values::Float(v) => Field {
            tag,
            kind: TIFF_TYPE_FLOAT,
            count: v.len(),
            payload: crate::endian::be32_all(v),
        },
        Values::Ascii(v) => Field { tag, kind: TIFF_TYPE_ASCII, count: v.len(), payload: v },
    }
}

/// The tags that a profile has of its own: those of a default profile, without the
/// name of the as-shot profile.
pub open spec fn own_tags(
    profile: CameraProfile,
    inputs: ProfileInputs,
    m: ProfileMatrices,
) -> Seq<(u16, Values)> {
    crate::profiles::profile_tags(profile.name@, m) + crate::profiles::tone_tags(
        crate::profiles::tone_of(profile, inputs),
    ) + crate::profiles::map_tags(crate::profiles::map_of(profile, inputs))
}

/// An entry of one part of the directory is one of the whole.
proof fn lemma_field_of_part(r: Record, x: Item)
    requires
        crate::mmcr::color_items(r).contains(x) || x == crate::mmcr::name_item(r)
            || crate::mmcr::map_items(r).contains(x) || crate::mmcr::tone_items(r).contains(x)
            || crate::mmcr::forward_items(r).contains(x) || crate::mmcr::closing_items(r).contains(
            x,
        ),
    ensures
        crate::reading::fields(r).contains(crate::reading::field_of(x)),
{
    let a = crate::mmcr::color_items(r);
    let n = seq![crate::mmcr::name_item(r)];
    let b = crate::mmcr::map_items(r);
    let c = crate::mmcr::tone_items(r);
    let d = crate::mmcr::forward_items(r);
    let e = crate::mmcr::closing_items(r);
    let xs = crate::mmcr::items(r);
    let i = if a.contains(x) {
        a.index_of(x)
    } else if x == crate::mmcr::name_item(r) {
        a.len() as int
    } else if b.contains(x) {
        a.len() + 1 + b.index_of(x)
    } else if c.contains(x) {
        a.len() + 1 + b.len() + c.index_of(x)
    } else if d.contains(x) {
        a.len() + 1 + b.len() + c.len() + d.index_of(x)
    } else {
        a.len() + 1 + b.len() + c.len() + d.len() + e.index_of(x)
    };
    assert(xs =~= a + (n + b + c) + d + e);
    assert(0 <= i < xs.len() && xs[i] == x);
    assert(crate::reading::fields(r)[i] == crate::reading::field_of(x));
}

/// A matrix tag and the entry of the same matrix.
proof fn lemma_matrix_field(tag: u16, values: [u32; 9], at: nat)
    ensures
        tag_field(tag, crate::profiles::matrix_values(values)) == crate::reading::field_of(
            crate::mmcr::matrix_item(tag, values@, at),
        ),
{
    let pairs = crate::directory::srationals(values@, crate::tags::MATRIX_DENOMINATOR);
    assert(rational_words(pairs) =~= crate::mmcr::srational_words(values@));
}

/// Whether a record says what a tag says.
pub open spec fn told(r: Record, e: (u16, Values)) -> bool {
    crate::reading::fields(r).contains(tag_field(e.0, e.1))
}

proof fn lemma_matrix_tags_told(r: Record, i: int)
    requires
        0 <= i < crate::profiles::matrix_tags(r.matrices).len(),
    ensures
        told(r, crate::profiles::matrix_tags(r.matrices)[i]),
{
    let colors = crate::mmcr::color_items(r);
    let forwards = crate::mmcr::forward_items(r);
    let m = r.matrices;
    if i == 0 {
        lemma_matrix_field(crate::tags::COLOR_MATRIX1, m.first.color, crate::mmcr::tail_at(r));
        assert(colors.contains(colors[1]));
        lemma_field_of_part(r, colors[1]);
    } else if i == 1 {
        lemma_matrix_field(
            crate::tags::FORWARD_MATRIX1,
            m.first.forward,
            crate::mmcr::forward_at(r),
        );
        assert(forwards.contains(forwards[0]));
        lemma_field_of_part(r, forwards[0]);
    } else {
        let s = m.second->0;
        if i == 2 {
            lemma_matrix_field(crate::tags::COLOR_MATRIX2, s.color, crate::mmcr::tail_at(r) + 72);
            assert(colors.contains(colors[2]));
            lemma_field_of_part(r, colors[2]);
        } else if i == 3 {
            lemma_matrix_field(
                crate::tags::FORWARD_MATRIX2,
                s.forward,
                crate::mmcr::tail_at(r) + 216,
            );
            assert(forwards.contains(forwards[1]));
            lemma_field_of_part(r, forwards[1]);
        } else {
            let x = colors[i - 1];
            let e = crate::profiles::matrix_tags(m)[i];
            assert(colors.contains(x));
            lemma_field_of_part(r, x);
            assert(tag_field(e.0, e.1).payload =~= x.payload);
        }
    }
}

proof fn lemma_name_and_render_told(r: Record, name: Seq<char>)
    requires
        r.name == vstd::utf8::encode_utf8(name),
    ensures
        told(
            r,
            (
                crate::tags::PROFILE_NAME,
                Values::Ascii(crate::directory::terminated(name)),
            ),
        ),
        told(r, (crate::tags::DEFAULT_BLACK_RENDER, Values::Long(seq![1]))),
{
    lemma_field_of_part(r, crate::mmcr::name_item(r));
    let closing = crate::mmcr::closing_items(r);
    let x = closing.last();
    assert(closing.contains(x));
    lemma_field_of_part(r, x);
    assert(crate::endian::be32_all(seq![1u32]) =~= crate::endian::be32(1));
}

proof fn lemma_tone_told(r: Record, i: int)
    requires
        0 <= i < crate::profiles::tone_tags(r.tone).len(),
    ensures
        told(r, crate::profiles::tone_tags(r.tone)[i]),
{
    let x = crate::mmcr::tone_items(r)[0];
    assert(crate::mmcr::tone_items(r).contains(x));
    lemma_field_of_part(r, x);
}

proof fn lemma_map_told(r: Record, i: int)
    requires
        0 <= i < crate::profiles::map_tags(r.map).len(),
    ensures
        told(r, crate::profiles::map_tags(r.map)[i]),
{
    if i < 2 {
        let x = crate::mmcr::map_items(r)[i];
        assert(crate::mmcr::map_items(r).contains(x));
        lemma_field_of_part(r, x);
    } else {
        let x = crate::mmcr::closing_items(r)[0];
        assert(crate::mmcr::closing_items(r).contains(x));
        lemma_field_of_part(r, x);
        assert(crate::endian::be32_all(seq![crate::tags::HUE_SAT_MAP_ENCODING])
            =~= crate::endian::be32(crate::tags::HUE_SAT_MAP_ENCODING));
    }
}

/// A profile says the same as the default of its file and as one of its extra
/// profiles: its record has the tags that it has as a default, with the same types
/// and values, and `Compression` besides.
pub proof fn law_default_and_record_agree(
    profile: CameraProfile,
    inputs: ProfileInputs,
    m: ProfileMatrices,
)
    ensures
        forall|i: int|
            0 <= i < own_tags(profile, inputs, m).len() ==> told(
                crate::profiles::profile_record(profile, inputs, m),
                #[trigger] own_tags(profile, inputs, m)[i],
            ),
        crate::reading::fields(crate::profiles::profile_record(profile, inputs, m)).len()
            == own_tags(profile, inputs, m).len() + 1,
        crate::profiles::default_tags(profile, inputs, m) == own_tags(profile, inputs, m).push(
            (
                crate::tags::AS_SHOT_PROFILE_NAME,
                Values::Ascii(crate::directory::terminated(profile.name@)),
            ),
        ),
{
    let r = crate::profiles::profile_record(profile, inputs, m);
    let a = crate::profiles::matrix_tags(m);
    let t = crate::profiles::tone_tags(r.tone);
    let h = crate::profiles::map_tags(r.map);
    let own = own_tags(profile, inputs, m);
    assert forall|i: int| 0 <= i < own.len() implies told(r, #[trigger] own[i]) by {
        if i < a.len() {
            lemma_matrix_tags_told(r, i);
            assert(own[i] == a[i]);
        } else if i < a.len() + 2 {
            lemma_name_and_render_told(r, profile.name@);
        } else if i < a.len() + 2 + t.len() {
            lemma_tone_told(r, i - a.len() - 2);
            assert(own[i] == t[i - a.len() - 2]);
        } else {
            lemma_map_told(r, i - a.len() - 2 - t.len());
            assert(own[i] == h[i - a.len() - 2 - t.len()]);
        }
    }
    crate::reading::law_record_header(r);
    assert(crate::profiles::default_tags(profile, inputs, m) =~= own.push(
        (
            crate::tags::AS_SHOT_PROFILE_NAME,
            Values::Ascii(crate::directory::terminated(profile.name@)),
        ),
    ));
}

} // verus!
