# dng_profiles

The camera-profile and preview parts of a DNG writer for Sigma raw files, verified
with Verus.

- `camera`, `matrices`, `profiles`: the table of camera profiles, which matrices a
  profile gets, the default profile's tags, and the `ExtraCameraProfiles` blob.
- `mmcr`: the big-endian `MMCR` record of one extra profile.
- `reading`, `mirror`: what a reader finds in a record, and that a default profile
  and a record of the same profile agree.
- `rational`, `endian`, `directory`, `tags`, `text`: numbers by their bit patterns,
  byte order, tag values, names.
- `chroma`: white points and forward matrices in exact integers.
- `preview`, `downsample`, `jpeg`, `encoded`: the preview image made from the camera's
  own JPEG.
- `stream`, `bits`, `sequential`, `progressive`, `standard`: which JPEG streams the
  decoder gets through. They are read block by block, so that the decoder is handed none
  that it panics on, in a build with debug assertions and overflow checks or without.

Matrix elements, tone curves and hue/saturation maps are held as IEEE 754 bit
patterns. The floating-point arithmetic that yields them is in `app/`.
