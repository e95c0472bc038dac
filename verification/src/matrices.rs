//! The matrix tags of one camera profile, and how a profile comes by them.
use crate::camera::{BmtSource, CameraProfile};
use crate::tags::{CALIB_ILLUMINANT_D65, CALIB_ILLUMINANT_STANDARD_A};
use vstd::prelude::*;

verus! {

/// The white-balance preset that is the body's tungsten calibration (Standard
/// Illuminant A).
pub const ILLUMINANT_A_PRESET: &'static str = "Incandescent";

/// The white-balance preset that is the body's daylight calibration (D65).
pub const ILLUMINANT_D65_PRESET: &'static str = "Overcast";

/// One calibration illuminant's worth of DNG matrix tags. Matrix elements are
/// binary32 bit patterns, row by row.
#[derive(Clone, Copy, Debug, PartialEq, Eq)]
pub struct IlluminantMatrices {
    /// `ColorMatrixN`: XYZ under `illuminant` to camera-native.
    pub color: [u32; 9],
    /// `ForwardMatrixN`: white-balanced camera to XYZ (D50).
    pub forward: [u32; 9],
    /// `CalibrationIlluminantN` EXIF light-source code.
    pub illuminant: u16,
}

/// The matrix tag set for one camera profile: always a first illuminant,
/// optionally a second for dual-illuminant interpolation.
#[derive(Clone, Copy, Debug, PartialEq, Eq)]
pub struct ProfileMatrices {
    pub first: IlluminantMatrices,
    pub second: Option<IlluminantMatrices>,
}

impl ProfileMatrices {
    /// Single-matrix layout: one as-shot matrix pair, derived in D65 XYZ
    /// coordinates.
    pub fn single(color: [u32; 9], forward: [u32; 9]) -> (r: Self)
        ensures
            r == single_matrices((MatrixPair { color, forward })),
            forall|i: int| 0 <= i < 9 ==> #[trigger] r.first.color[i] == color[i],
            forall|i: int| 0 <= i < 9 ==> #[trigger] r.first.forward[i] == forward[i],
            r.first.illuminant == 21,
            r.second is None,
    {
        ProfileMatrices {
            first: IlluminantMatrices { color, forward, illuminant: CALIB_ILLUMINANT_D65 },
            second: None,
        }
    }
}

/// A color and a forward matrix, as binary32 bit patterns row by row.
#[derive(Clone, Copy, Debug, PartialEq, Eq)]
pub struct MatrixPair {
    pub color: [u32; 9],
    pub forward: [u32; 9],
}

/// The matrices that a profile can start from.
#[derive(Clone, Copy, Debug, PartialEq, Eq)]
pub struct Bases {
    /// Matrices from [`ILLUMINANT_A_PRESET`], where its matrix and gains are there.
    pub incandescent: Option<MatrixPair>,
    /// Matrices from [`ILLUMINANT_D65_PRESET`], where its matrix and gains are there.
    pub overcast: Option<MatrixPair>,
    /// Matrices of the body's calibration for the white balance of the shot, where the
    /// file has one.
    pub body: Option<MatrixPair>,
    /// Matrices over the Adobe RGB working space, which every file has.
    pub adobe_rgb: MatrixPair,
}

/// What a raw file gives for one profile.
pub struct ProfileInputs {
    /// Whether the file has the entry that the profile requires.
    pub has_required: bool,
    /// The matrices without a color correction.
    pub plain: Bases,
    /// The matrices with the profile's color correction folded in, where the file has the
    /// entry that holds it.
    pub corrected: Option<Bases>,
    /// The forward matrix to gray, by the weights of the profile's mix. Only a profile with
    /// a mix uses it.
    pub gray_forward: [u32; 9],
    /// Tone curve for the profile's contrast, unless it is the identity.
    pub tone_curve: Option<Vec<u32>>,
    /// Hue/saturation map of the profile's table, unless it is the identity.
    pub hue_sat_map: Option<Vec<u32>>,
}

/// One matrix pair for the white balance of the shot.
pub open spec fn single_matrices(pair: MatrixPair) -> ProfileMatrices {
    ProfileMatrices {
        first: IlluminantMatrices {
            color: pair.color,
            forward: pair.forward,
            illuminant: CALIB_ILLUMINANT_D65,
        },
        second: None,
    }
}

/// Matrix pairs for Standard Illuminant A and for D65.
pub open spec fn dual_matrices(a: MatrixPair, d65: MatrixPair) -> ProfileMatrices {
    ProfileMatrices {
        first: IlluminantMatrices {
            color: a.color,
            forward: a.forward,
            illuminant: CALIB_ILLUMINANT_STANDARD_A,
        },
        second: Some(
            IlluminantMatrices {
                color: d65.color,
                forward: d65.forward,
                illuminant: CALIB_ILLUMINANT_D65,
            },
        ),
    }
}

/// The matrices that a profile starts from: with its color correction, if it names one
/// and the file has it.
pub open spec fn bases_of(profile: CameraProfile, inputs: ProfileInputs) -> Bases {
    match (profile.cmcm_camf, inputs.corrected) {
        (Some(name), Some(corrected)) => corrected,
        _ => inputs.plain,
    }
}

/// The single matrix pair that a profile starts from.
pub open spec fn base_pair(source: BmtSource, bases: Bases) -> Option<MatrixPair> {
    match source {
        BmtSource::Default => bases.body,
        BmtSource::AdobeRgb => Some(bases.adobe_rgb),
    }
}

/// A matrix pair as a profile stores it: one with a gray mix takes every color to gray.
pub open spec fn mixed_pair(
    profile: CameraProfile,
    pair: MatrixPair,
    gray_forward: [u32; 9],
) -> MatrixPair {
    if profile.grayscale_mix is Some {
        MatrixPair { color: pair.color, forward: gray_forward }
    } else {
        pair
    }
}

/// The matrices of a profile, if the file gets it.
pub open spec fn matrices_of(
    profile: CameraProfile,
    inputs: ProfileInputs,
    dual_illuminant: bool,
) -> Option<ProfileMatrices> {
    let bases = bases_of(profile, inputs);
    if profile.requires_camf is Some && !inputs.has_required {
        None
    } else if dual_illuminant && profile.bmt_source is Default && bases.incandescent is Some
        && bases.overcast is Some {
        Some(dual_matrices(bases.incandescent->0, bases.overcast->0))
    } else {
        match base_pair(profile.bmt_source, bases) {
            Some(pair) => Some(single_matrices(mixed_pair(profile, pair, inputs.gray_forward))),
            None => None,
        }
    }
}

/// Matrix pairs for Standard Illuminant A and D65 from the body's two presets.
/// `None` where either preset is missing.
pub fn dual_illuminant_matrices(
    incandescent: Option<MatrixPair>,
    overcast: Option<MatrixPair>,
) -> (r: Option<ProfileMatrices>)
    ensures
        r == (match (incandescent, overcast) {
            (Some(a), Some(d65)) => Some(dual_matrices(a, d65)),
            _ => None,
        }),
        r is Some <==> incandescent is Some && overcast is Some,
        r matches Some(m) ==> m.second is Some,
        r matches Some(m) ==> m.first.illuminant == 17,
        r matches Some(m) ==> m.second->0.illuminant == 21,
        r matches Some(m) ==> forall|i: int|
            0 <= i < 9 ==> #[trigger] m.first.color[i] == incandescent->0.color[i],
        r matches Some(m) ==> forall|i: int|
            0 <= i < 9 ==> #[trigger] m.first.forward[i] == incandescent->0.forward[i],
        r matches Some(m) ==> forall|i: int|
            0 <= i < 9 ==> #[trigger] m.second->0.color[i] == overcast->0.color[i],
        r matches Some(m) ==> forall|i: int|
            0 <= i < 9 ==> #[trigger] m.second->0.forward[i] == overcast->0.forward[i],
{
    match (incandescent, overcast) {
        (Some(a), Some(d65)) => Some(
            ProfileMatrices {
                first: IlluminantMatrices {
                    color: a.color,
                    forward: a.forward,
                    illuminant: CALIB_ILLUMINANT_STANDARD_A,
                },
                second: Some(
                    IlluminantMatrices {
                        color: d65.color,
                        forward: d65.forward,
                        illuminant: CALIB_ILLUMINANT_D65,
                    },
                ),
            },
        ),
        _ => None,
    }
}

/// The matrices of one profile. `None` where the file lacks the entry that the
/// profile requires, or where a profile of the body's own calibration finds no matrix
/// for the white balance of the shot and none from the presets to take its place. Only
/// such a profile is given two illuminants.
pub fn compute_matrices(
    profile: &CameraProfile,
    inputs: &ProfileInputs,
    dual_illuminant: bool,
) -> (r: Option<ProfileMatrices>)
    ensures
        r == matrices_of(*profile, *inputs, dual_illuminant),
{
    if profile.requires_camf.is_some() && !inputs.has_required {
        return None;
    }
    let bases = match (profile.cmcm_camf, inputs.corrected) {
        (Some(_), Some(corrected)) => corrected,
        _ => inputs.plain,
    };
    if dual_illuminant && profile.bmt_source == BmtSource::Default {
        if let Some(matrices) = dual_illuminant_matrices(bases.incandescent, bases.overcast) {
            return Some(matrices);
        }
    }
    let base = match profile.bmt_source {
        BmtSource::Default => bases.body,
        BmtSource::AdobeRgb => Some(bases.adobe_rgb),
    };
    match base {
        Some(pair) => {
            let forward = if profile.grayscale_mix.is_some() {
                inputs.gray_forward
            } else {
                pair.forward
            };
            Some(ProfileMatrices::single(pair.color, forward))
        },
        None => None,
    }
}

/// A profile of the body's own calibration, asked for with two illuminants of a file that
/// has both presets, stores the presets' matrices element by element: those of
/// [`ILLUMINANT_A_PRESET`] first, those of [`ILLUMINANT_D65_PRESET`] second. `bases` are the
/// matrices with the profile's correction, where it names one and the file has it, and
/// without one otherwise.
pub proof fn law_two_illuminants_keep_the_presets(
    profile: CameraProfile,
    inputs: ProfileInputs,
    bases: Bases,
    i: int,
)
    requires
        profile.cmcm_camf is Some && inputs.corrected is Some ==> inputs.corrected == Some(bases),
        profile.cmcm_camf is None || inputs.corrected is None ==> inputs.plain == bases,
        profile.requires_camf is None || inputs.has_required,
        profile.bmt_source is Default,
        bases.incandescent is Some,
        bases.overcast is Some,
        0 <= i < 9,
    ensures
        matrices_of(profile, inputs, true) is Some,
        matrices_of(profile, inputs, true) matches Some(m) ==> ({
            &&& m.second is Some
            &&& m.first.illuminant == 17
            &&& m.second->0.illuminant == 21
            &&& m.first.color[i] == bases.incandescent->0.color[i]
            &&& m.first.forward[i] == bases.incandescent->0.forward[i]
            &&& m.second->0.color[i] == bases.overcast->0.color[i]
            &&& m.second->0.forward[i] == bases.overcast->0.forward[i]
        }),
{
}

/// A profile that stores one illuminant stores one matrix pair of the file element by
/// element, that of the working space or that of the body's calibration for the shot, under
/// D65; with a gray mix its forward matrix is the one to gray. It stores one where two are
/// not asked for, where the file lacks a preset, and where it is over the working space.
pub proof fn law_one_illuminant_keeps_the_pair(
    profile: CameraProfile,
    inputs: ProfileInputs,
    dual_illuminant: bool,
    bases: Bases,
    pair: MatrixPair,
    i: int,
)
    requires
        profile.cmcm_camf is Some && inputs.corrected is Some ==> inputs.corrected == Some(bases),
        profile.cmcm_camf is None || inputs.corrected is None ==> inputs.plain == bases,
        profile.requires_camf is None || inputs.has_required,
        profile.bmt_source is AdobeRgb ==> pair == bases.adobe_rgb,
        profile.bmt_source is Default ==> bases.body == Some(pair) && (!dual_illuminant
            || bases.incandescent is None || bases.overcast is None),
        0 <= i < 9,
    ensures
        matrices_of(profile, inputs, dual_illuminant) is Some,
        matrices_of(profile, inputs, dual_illuminant) matches Some(m) ==> ({
            &&& m.second is None
            &&& m.first.illuminant == 21
            &&& m.first.color[i] == pair.color[i]
            &&& profile.grayscale_mix is None ==> m.first.forward[i] == pair.forward[i]
            &&& profile.grayscale_mix is Some ==> m.first.forward[i] == inputs.gray_forward[i]
        }),
{
}

/// A profile has no matrices exactly where the file lacks the entry that it requires, or
/// where it is one of the body's own calibration, the file has no matrix for the shot, and
/// two illuminants are not asked for or a preset is missing. `bases` are the matrices that
/// it starts from.
pub proof fn law_profiles_without_matrices(
    profile: CameraProfile,
    inputs: ProfileInputs,
    dual_illuminant: bool,
    bases: Bases,
)
    requires
        profile.cmcm_camf is Some && inputs.corrected is Some ==> inputs.corrected == Some(bases),
        profile.cmcm_camf is None || inputs.corrected is None ==> inputs.plain == bases,
    ensures
        matrices_of(profile, inputs, dual_illuminant) is None <==> (profile.requires_camf is Some
            && !inputs.has_required) || (profile.bmt_source is Default && bases.body is None && (
        !dual_illuminant || bases.incandescent is None || bases.overcast is None)),
{
}

/// A profile over the Adobe RGB working space that requires no entry of the file always
/// has matrices: those over the working space, with one illuminant, D65, whatever else
/// the file gives and whether or not two illuminants are asked for.
pub proof fn law_adobe_rgb_profiles_are_always_there(
    profile: CameraProfile,
    inputs: ProfileInputs,
    dual_illuminant: bool,
)
    requires
        profile.bmt_source is AdobeRgb,
        profile.requires_camf is None,
    ensures
        matrices_of(profile, inputs, dual_illuminant) == Some(
            single_matrices(
                mixed_pair(
                    profile,
                    bases_of(profile, inputs).adobe_rgb,
                    inputs.gray_forward,
                ),
            ),
        ),
        matrices_of(profile, inputs, dual_illuminant) matches Some(m) && m.second is None
            && m.first.illuminant == CALIB_ILLUMINANT_D65,
{
}

/// Where two illuminants are stored, the first is Standard Illuminant A and the
/// second is D65; where one is stored, it is D65.
pub proof fn law_illuminants_are_anchored(
    profile: CameraProfile,
    inputs: ProfileInputs,
    dual_illuminant: bool,
)
    ensures
        matrices_of(profile, inputs, dual_illuminant) matches Some(m) ==> (match m.second {
            Some(second) => m.first.illuminant == CALIB_ILLUMINANT_STANDARD_A && second.illuminant
                == CALIB_ILLUMINANT_D65,
            None => m.first.illuminant == CALIB_ILLUMINANT_D65,
        }),
{
}

/// A profile without a color correction of its own takes none from the file, and a file
/// without the correction that a profile names leaves the profile its plain matrices.
pub proof fn law_no_correction_leaves_the_plain_matrices(
    profile: CameraProfile,
    inputs: ProfileInputs,
    dual_illuminant: bool,
)
    requires
        profile.cmcm_camf is None || inputs.corrected is None,
    ensures
        matrices_of(profile, inputs, dual_illuminant) == matrices_of(
            profile,
            ProfileInputs { corrected: None, ..inputs },
            dual_illuminant,
        ),
{
}

/// Every stored matrix pair of a profile with a gray mix takes colors to gray by it,
/// unless two illuminants are stored.
pub proof fn law_gray_profiles_store_their_mix(
    profile: CameraProfile,
    inputs: ProfileInputs,
    dual_illuminant: bool,
)
    requires
        profile.grayscale_mix is Some,
    ensures
        matrices_of(profile, inputs, dual_illuminant) matches Some(m) ==> m.second is Some
            || m.first.forward == inputs.gray_forward,
{
}

} // verus!
