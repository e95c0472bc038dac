//! The camera profiles that a file can carry.
use crate::text::same_text;
use vstd::prelude::*;

verus! {

/// Source of a profile's matrix from camera-native values to CIE XYZ.
#[derive(Clone, Copy, Debug, PartialEq, Eq, Structural)]
pub enum BmtSource {
    /// The body's calibration matrix. A picture mode folds its own color
    /// correction into it, which is what tells the modes apart first of all.
    Default,
    /// No conversion: the working space is taken for Adobe RGB.
    AdobeRgb,
}

/// One camera profile. The CAMF entries are looked up in the raw file.
#[derive(Clone, Copy, Debug)]
pub struct CameraProfile {
    pub name: &'static str,
    pub bmt_source: BmtSource,
    /// Weights of the three channels in a gray image, in units of
    /// `1 / GRAYSCALE_MIX_UNIT`.
    pub grayscale_mix: Option<[i32; 3]>,
    /// The CAMF entry without which a file does not get this profile.
    pub requires_camf: Option<&'static str>,
    /// The CAMF entry with the color correction to fold into the body's matrix.
    pub cmcm_camf: Option<&'static str>,
    /// The CAMF entry with the contrast that shapes the tone curve.
    pub cmcc_camf: Option<&'static str>,
    /// The CAMF entry with the table that the hue/saturation map comes from.
    pub multi_axis_camf: Option<&'static str>,
}

/// The whole that the weights of a gray mix are parts of.
pub const GRAYSCALE_MIX_UNIT: i32 = 6;

/// File version from which on the color mode picks the default profile.
pub const X3F_VERSION_2_3: u32 = 0x0002_0003;

/// A profile that takes the working space for Adobe RGB and looks nothing up.
pub open spec fn synthetic(name: &'static str, grayscale_mix: Option<[i32; 3]>) -> CameraProfile {
    CameraProfile {
        name,
        bmt_source: BmtSource::AdobeRgb,
        grayscale_mix,
        requires_camf: None,
        cmcm_camf: None,
        cmcc_camf: None,
        multi_axis_camf: None,
    }
}

/// The profile of the body's own calibration.
pub open spec fn standard() -> CameraProfile {
    CameraProfile {
        name: "Standard",
        bmt_source: BmtSource::Default,
        grayscale_mix: None,
        requires_camf: None,
        cmcm_camf: Some("CMCM_Standard"),
        cmcc_camf: Some("CMCC_Standard"),
        multi_axis_camf: Some("MultiAxisTable_Standard"),
    }
}

/// All profiles: the standard one, the gray ones, and the unconverted one.
pub open spec fn profile_table() -> Seq<CameraProfile> {
    seq![
        standard(),
        synthetic("Monochrome", Some([2, 2, 2])),
        synthetic("Monochrome (red filter)", Some([12, -6i32, 0])),
        synthetic("Monochrome (yellow filter)", Some([9, -3i32, 0])),
        synthetic("Monochrome (green filter)", Some([-3i32, 12, -3i32])),
        synthetic("Monochrome (blue filter)", Some([0, -6i32, 12])),
        synthetic("Unconverted", None),
    ]
}

fn synthetic_profile(name: &'static str, grayscale_mix: Option<[i32; 3]>) -> (r: CameraProfile)
    ensures
        r == synthetic(name, grayscale_mix),
{
    CameraProfile {
        name,
        bmt_source: BmtSource::AdobeRgb,
        grayscale_mix,
        requires_camf: None,
        cmcm_camf: None,
        cmcc_camf: None,
        multi_axis_camf: None,
    }
}

/// All camera profiles, the standard one first.
pub fn camera_profiles() -> (r: Vec<CameraProfile>)
    ensures
        r@ == profile_table(),
{
    let standard_profile = CameraProfile {
        name: "Standard",
        bmt_source: BmtSource::Default,
        grayscale_mix: None,
        requires_camf: None,
        cmcm_camf: Some("CMCM_Standard"),
        cmcc_camf: Some("CMCC_Standard"),
        multi_axis_camf: Some("MultiAxisTable_Standard"),
    };
    let r: Vec<CameraProfile> = vec![
        standard_profile,
        synthetic_profile("Monochrome", Some([2, 2, 2])),
        synthetic_profile("Monochrome (red filter)", Some([12, -6, 0])),
        synthetic_profile("Monochrome (yellow filter)", Some([9, -3, 0])),
        synthetic_profile("Monochrome (green filter)", Some([-3, 12, -3])),
        synthetic_profile("Monochrome (blue filter)", Some([0, -6, 12])),
        synthetic_profile("Unconverted", None),
    ];
    assert(r@ =~= profile_table());
    r
}

/// Place of the first profile with this name, if there is one.
pub open spec fn first_named(profiles: Seq<CameraProfile>, name: Seq<char>) -> Option<nat>
    decreases profiles.len(),
{
    if profiles.len() == 0 {
        None
    } else if profiles[0].name@ == name {
        Some(0)
    } else {
        match first_named(profiles.drop_first(), name) {
            Some(i) => Some(i + 1),
            None => None,
        }
    }
}

/// The default profile of a file among `profiles`.
pub open spec fn default_among(
    profiles: Seq<CameraProfile>,
    header_version: u32,
    color_mode: Seq<char>,
) -> nat {
    if header_version >= X3F_VERSION_2_3 && color_mode == "FCBlue"@ {
        match first_named(profiles, "FCBlue"@) {
            Some(i) => i,
            None => 0,
        }
    } else {
        0
    }
}

/// Finds the first profile with this name.
pub fn position_of(profiles: &Vec<CameraProfile>, name: &str) -> (r: Option<usize>)
    ensures
        match r {
            Some(i) => first_named(profiles@, name@) == Some(i as nat),
            None => first_named(profiles@, name@) is None,
        },
{
    let mut i: usize = 0;
    assert(profiles@.skip(0) =~= profiles@);
    while i < profiles.len()
        invariant
            i <= profiles@.len(),
            first_named(profiles@, name@) == (match first_named(profiles@.skip(i as int), name@) {
                Some(k) => Some((i + k) as nat),
                None => None,
            }),
        decreases profiles@.len() - i,
    {
        if same_text(profiles[i].name, name) {
            return Some(i);
        }
        assert(profiles@.skip(i as int).drop_first() =~= profiles@.skip(i + 1));
        i = i + 1;
    }
    None
}

/// Picks the default among `profiles`: from version 2.3 on a file in the color mode
/// `FCBlue` takes the profile of that name, if there is one; every other file takes
/// the first profile.
pub fn default_index_among(
    profiles: &Vec<CameraProfile>,
    header_version: u32,
    color_mode: &str,
) -> (r: usize)
    ensures
        r == default_among(profiles@, header_version, color_mode@),
{
    if header_version >= X3F_VERSION_2_3 && same_text(color_mode, "FCBlue") {
        if let Some(i) = position_of(profiles, "FCBlue") {
            return i;
        }
    }
    0
}

/// Place of the profile that a file takes as its default.
pub fn default_profile_index(header_version: u32, color_mode: &str) -> (r: usize)
    ensures
        r == default_among(profile_table(), header_version, color_mode@),
{
    let profiles = camera_profiles();
    default_index_among(&profiles, header_version, color_mode)
}

/// A profile that was found by its name has that name, and no earlier one has it.
pub proof fn law_first_named(profiles: Seq<CameraProfile>, name: Seq<char>)
    ensures
        match first_named(profiles, name) {
            Some(i) => {
                &&& i < profiles.len()
                &&& profiles[i as int].name@ == name
                &&& forall|k: int| 0 <= k < i ==> (#[trigger] profiles[k]).name@ != name
            },
            None => forall|k: int| 0 <= k < profiles.len() ==> (#[trigger] profiles[k]).name@
                != name,
        },
    decreases profiles.len(),
{
    if profiles.len() > 0 && profiles[0].name@ != name {
        let rest = profiles.drop_first();
        law_first_named(rest, name);
        assert forall|k: int| 0 < k < profiles.len() implies #[trigger] profiles[k] == rest[k
            - 1] by {}
    }
}

/// A file takes the first profile as its default, unless its version is 2.3 or later, its
/// color mode is `FCBlue` and some profile has that name: then it takes the first of those.
pub proof fn law_default_follows_the_color_mode(
    profiles: Seq<CameraProfile>,
    header_version: u32,
    color_mode: Seq<char>,
    i: int,
)
    requires
        0 <= i < profiles.len(),
        profiles[i].name@ == seq!['F', 'C', 'B', 'l', 'u', 'e'],
        forall|k: int|
            0 <= k < i ==> (#[trigger] profiles[k]).name@ != seq!['F', 'C', 'B', 'l', 'u', 'e'],
    ensures
        default_among(profiles, header_version, color_mode) == (if header_version >= 0x0002_0003
            && color_mode == seq!['F', 'C', 'B', 'l', 'u', 'e'] {
            i
        } else {
            0
        }),
{
    reveal_strlit("FCBlue");
    assert("FCBlue"@ =~= seq!['F', 'C', 'B', 'l', 'u', 'e']);
    law_first_named(profiles, "FCBlue"@);
    assert(profiles[i].name@ == "FCBlue"@);
    let found = first_named(profiles, "FCBlue"@);
    assert(found is Some);
    if found->0 < i {
        assert(profiles[found->0 as int].name@ != "FCBlue"@);
    }
}

/// The names of the table differ in their lengths already.
pub proof fn lemma_name_lengths()
    ensures
        profile_table()[0].name@.len() == 8,
        profile_table()[1].name@.len() == 10,
        profile_table()[2].name@.len() == 23,
        profile_table()[3].name@.len() == 26,
        profile_table()[4].name@.len() == 25,
        profile_table()[5].name@.len() == 24,
        profile_table()[6].name@.len() == 11,
{
    reveal_strlit("Standard");
    reveal_strlit("Monochrome");
    reveal_strlit("Monochrome (red filter)");
    reveal_strlit("Monochrome (yellow filter)");
    reveal_strlit("Monochrome (green filter)");
    reveal_strlit("Monochrome (blue filter)");
    reveal_strlit("Unconverted");
}

/// The table has no profile for the color mode `FCBlue`, so every file takes the
/// standard profile as its default.
pub proof fn law_default_is_standard(header_version: u32, color_mode: Seq<char>)
    ensures
        default_among(profile_table(), header_version, color_mode) == 0,
{
    law_first_named(profile_table(), "FCBlue"@);
    lemma_name_lengths();
    reveal_strlit("FCBlue");
}

/// The weights of every gray mix add up to the whole, so that a gray profile keeps
/// the brightness of what is gray already.
pub proof fn law_gray_mixes_are_balanced(i: int)
    requires
        0 <= i < profile_table().len(),
    ensures
        profile_table()[i].grayscale_mix matches Some(mix) ==> mix[0] + mix[1] + mix[2]
            == GRAYSCALE_MIX_UNIT,
{
}

/// Every filter lets through the channel that it is named for: that channel weighs more
/// than every other, and no other adds to the image but under the yellow filter, which lets
/// through no blue. Without a filter all channels weigh alike, and the standard and the
/// unconverted profile mix none.
pub proof fn law_filters_favor_their_channel(i: int)
    requires
        0 <= i < profile_table().len(),
    ensures
        profile_table()[i].name@ == "Monochrome (red filter)"@ ==> (
        profile_table()[i].grayscale_mix matches Some(mix) && mix[0] > mix[1] && mix[0] > mix[2]
            && mix[1] <= 0 && mix[2] <= 0),
        profile_table()[i].name@ == "Monochrome (yellow filter)"@ ==> (
        profile_table()[i].grayscale_mix matches Some(mix) && mix[0] > mix[1] && mix[0] > mix[2]
            && mix[2] == 0),
        profile_table()[i].name@ == "Monochrome (green filter)"@ ==> (
        profile_table()[i].grayscale_mix matches Some(mix) && mix[1] > mix[0] && mix[1] > mix[2]
            && mix[0] == mix[2]),
        profile_table()[i].name@ == "Monochrome (blue filter)"@ ==> (
        profile_table()[i].grayscale_mix matches Some(mix) && mix[2] > mix[0] && mix[2] > mix[1]
            && mix[0] <= 0 && mix[1] <= 0),
        profile_table()[i].name@ == "Monochrome"@ ==> (
        profile_table()[i].grayscale_mix matches Some(mix) && mix[0] == mix[1] && mix[1]
            == mix[2]),
        profile_table()[i].name@ == "Standard"@ || profile_table()[i].name@ == "Unconverted"@
            ==> profile_table()[i].grayscale_mix is None,
{
    lemma_place_of_names(i);
}

/// The weights of the profiles by their names, in sixths: the red filter takes twice the red
/// less the green, and so on.
pub proof fn law_mixes_by_name(i: int)
    requires
        0 <= i < profile_table().len(),
    ensures
        profile_table()[i].name@ == "Monochrome (red filter)"@ ==> (
        profile_table()[i].grayscale_mix matches Some(mix) && mix[0] == 12 && mix[1] == -6
            && mix[2] == 0),
        profile_table()[i].name@ == "Monochrome (yellow filter)"@ ==> (
        profile_table()[i].grayscale_mix matches Some(mix) && mix[0] == 9 && mix[1] == -3
            && mix[2] == 0),
        profile_table()[i].name@ == "Monochrome (green filter)"@ ==> (
        profile_table()[i].grayscale_mix matches Some(mix) && mix[0] == -3 && mix[1] == 12
            && mix[2] == -3),
        profile_table()[i].name@ == "Monochrome (blue filter)"@ ==> (
        profile_table()[i].grayscale_mix matches Some(mix) && mix[0] == 0 && mix[1] == -6
            && mix[2] == 12),
        profile_table()[i].name@ == "Monochrome"@ ==> (
        profile_table()[i].grayscale_mix matches Some(mix) && mix[0] == 2 && mix[1] == 2
            && mix[2] == 2),
        GRAYSCALE_MIX_UNIT == 6,
{
    lemma_place_of_names(i);
}

/// The table holds each of seven names once and in this order.
pub proof fn law_names_in_order()
    ensures
        profile_table().len() == 7,
        profile_table()[0].name@ == "Standard"@,
        profile_table()[1].name@ == "Monochrome"@,
        profile_table()[2].name@ == "Monochrome (red filter)"@,
        profile_table()[3].name@ == "Monochrome (yellow filter)"@,
        profile_table()[4].name@ == "Monochrome (green filter)"@,
        profile_table()[5].name@ == "Monochrome (blue filter)"@,
        profile_table()[6].name@ == "Unconverted"@,
{
}

/// Only the standard profile is over the body's calibration, and only it looks entries of
/// the raw file up; each entry ends in the profile's own name. No profile requires an entry.
pub proof fn law_only_the_standard_profile_looks_up(i: int)
    requires
        0 <= i < profile_table().len(),
    ensures
        profile_table()[i].requires_camf is None,
        profile_table()[i].name@ == "Standard"@ <==> profile_table()[i].bmt_source is Default,
        profile_table()[i].name@ == "Standard"@ <==> profile_table()[i].cmcm_camf is Some,
        profile_table()[i].name@ == "Standard"@ <==> profile_table()[i].cmcc_camf is Some,
        profile_table()[i].name@ == "Standard"@ <==> profile_table()[i].multi_axis_camf is Some,
        profile_table()[i].cmcm_camf matches Some(entry) ==> entry@ == "CMCM_"@
            + profile_table()[i].name@,
        profile_table()[i].cmcc_camf matches Some(entry) ==> entry@ == "CMCC_"@
            + profile_table()[i].name@,
        profile_table()[i].multi_axis_camf matches Some(entry) ==> entry@ == "MultiAxisTable_"@
            + profile_table()[i].name@,
{
    lemma_place_of_names(i);
    reveal_strlit("CMCM_");
    reveal_strlit("CMCC_");
    reveal_strlit("MultiAxisTable_");
    reveal_strlit("CMCM_Standard");
    reveal_strlit("CMCC_Standard");
    reveal_strlit("MultiAxisTable_Standard");
    reveal_strlit("Standard");
    assert("CMCM_Standard"@ =~= "CMCM_"@ + "Standard"@);
    assert("CMCC_Standard"@ =~= "CMCC_"@ + "Standard"@);
    assert("MultiAxisTable_Standard"@ =~= "MultiAxisTable_"@ + "Standard"@);
}

/// Each name stands at one place.
proof fn lemma_place_of_names(i: int)
    requires
        0 <= i < profile_table().len(),
    ensures
        profile_table()[i].name@ == "Standard"@ <==> i == 0,
        profile_table()[i].name@ == "Monochrome"@ <==> i == 1,
        profile_table()[i].name@ == "Monochrome (red filter)"@ <==> i == 2,
        profile_table()[i].name@ == "Monochrome (yellow filter)"@ <==> i == 3,
        profile_table()[i].name@ == "Monochrome (green filter)"@ <==> i == 4,
        profile_table()[i].name@ == "Monochrome (blue filter)"@ <==> i == 5,
        profile_table()[i].name@ == "Unconverted"@ <==> i == 6,
{
    law_names_in_order();
    lemma_name_lengths();
    assert(i == 0 || i == 1 || i == 2 || i == 3 || i == 4 || i == 5 || i == 6);
}

/// Every profile has a name that a terminated string can hold, and no two have the
/// same.
pub proof fn law_profile_names(i: int, j: int)
    requires
        0 <= i < profile_table().len(),
        0 <= j < profile_table().len(),
    ensures
        crate::mmcr::terminable(profile_table()[i].name@),
        profile_table()[i].name@ == profile_table()[j].name@ ==> i == j,
{
    lemma_name_lengths();
    assert(profile_table()[i].name@.len() == profile_table()[j].name@.len() ==> i == j);
    reveal_strlit("Standard");
    reveal_strlit("Monochrome");
    reveal_strlit("Monochrome (red filter)");
    reveal_strlit("Monochrome (yellow filter)");
    reveal_strlit("Monochrome (green filter)");
    reveal_strlit("Monochrome (blue filter)");
    reveal_strlit("Unconverted");
}

} // verus!
