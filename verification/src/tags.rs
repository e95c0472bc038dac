//! TIFF field types and the DNG tags of a camera profile.
use vstd::prelude::*;

verus! {

pub const TIFF_TYPE_ASCII: u16 = 2;

pub const TIFF_TYPE_SHORT: u16 = 3;

pub const TIFF_TYPE_LONG: u16 = 4;

pub const TIFF_TYPE_SRATIONAL: u16 = 10;

pub const TIFF_TYPE_FLOAT: u16 = 11;

pub const COMPRESSION: u16 = 259;

pub const COLOR_MATRIX1: u16 = 50721;

pub const COLOR_MATRIX2: u16 = 50722;

pub const CALIBRATION_ILLUMINANT1: u16 = 50778;

pub const CALIBRATION_ILLUMINANT2: u16 = 50779;

pub const AS_SHOT_PROFILE_NAME: u16 = 50934;

pub const PROFILE_NAME: u16 = 50936;

pub const PROFILE_HUE_SAT_MAP_DIMS: u16 = 50937;

pub const PROFILE_HUE_SAT_MAP_DATA1: u16 = 50938;

pub const PROFILE_TONE_CURVE: u16 = 50940;

pub const FORWARD_MATRIX1: u16 = 50964;

pub const FORWARD_MATRIX2: u16 = 50965;

pub const PROFILE_HUE_SAT_MAP_ENCODING: u16 = 51107;

pub const DEFAULT_BLACK_RENDER: u16 = 51110;

/// EXIF light-source code of Standard Illuminant A.
pub const CALIB_ILLUMINANT_STANDARD_A: u16 = 17;

/// EXIF light-source code of D65.
pub const CALIB_ILLUMINANT_D65: u16 = 21;

/// Denominator of every stored matrix element.
pub const MATRIX_DENOMINATOR: i32 = 10_000;

/// Hue divisions of a hue/saturation map.
pub const HUE_DIVISIONS: u32 = 21;

/// Saturation divisions of a hue/saturation map.
pub const SATURATION_DIVISIONS: u32 = 2;

/// Value divisions of a hue/saturation map.
pub const VALUE_DIVISIONS: u32 = 1;

/// Encoding code of a linear hue/saturation map.
pub const HUE_SAT_MAP_ENCODING: u32 = 0;

/// The three divisions of a hue/saturation map.
pub open spec fn hue_sat_map_dims() -> Seq<u32> {
    seq![HUE_DIVISIONS, SATURATION_DIVISIONS, VALUE_DIVISIONS]
}

} // verus!
