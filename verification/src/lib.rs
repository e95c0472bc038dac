//! The camera-profile and preview parts of a DNG file.
//!
//! A file carries one default profile as tags of its first directory, see
//! [`profiles::write_default_profile`], and the others as `MMCR` records, see
//! [`profiles::build_extra_profiles_blob`] and [`mmcr::build_mmcr_profile`]. Its
//! preview is made from the camera's own JPEG, see [`preview::from_camera_jpeg`].

pub mod bits;
pub mod camera;
pub mod chroma;
pub mod directory;
pub mod downsample;
pub mod encoded;
pub mod endian;
pub mod jpeg;
pub mod layered;
pub mod matrices;
pub mod mirror;
pub mod mmcr;
pub mod plain;
pub mod preview;
pub mod profiles;
pub mod progressive;
pub mod rational;
pub mod reading;
pub mod sequential;
pub mod skipping;
pub mod standard;
pub mod stream;
pub mod tags;
pub mod telling;
pub mod text;
