//! The preview image of a DNG's first directory.
//!
//! Viewers show this preview in place of the raw plane whenever it is large
//! enough. It is the camera's own JPEG rendering, decoded, averaged down to at
//! most [`MAX_LONG_EDGE`] pixels on the long edge and encoded again as a plain
//! baseline JFIF stream. A preview rendered from the raw data stands in for it
//! where there is no JPEG that decodes. The pixels keep the orientation of the
//! sensor, so the `Orientation` tag applies to the preview as it does to the raw
//! plane.
use crate::downsample::box_downsample;
use crate::jpeg::{decode_stream, encode_rgb};
use crate::stream::is_decodable;
use crate::text::{same_text, trim};
use vstd::prelude::*;

verus! {

/// Longest edge of the embedded preview, in pixels: sharp thumbnails on dense
/// displays for well under a megabyte.
pub const MAX_LONG_EDGE: u32 = 1600;

/// Baseline JPEG quality of the preview.
pub const QUALITY: u8 = 90;

/// Horizontal density of luma against chroma. The `YCbCrSubSampling` tag of the
/// directory that holds the preview says the same.
pub const HORIZONTAL_SAMPLING: u8 = 2;

/// Vertical density of luma against chroma.
pub const VERTICAL_SAMPLING: u8 = 2;

/// A JPEG-compressed preview, to be written as a single strip.
pub struct JpegPreview {
    /// Complete JFIF stream, from its start-of-image to its end-of-image marker.
    pub bytes: Vec<u8>,
    pub width: u32,
    pub height: u32,
}

/// The preview that a file gets: the camera's JPEG where it decodes, an RGB strip
/// rendered from the raw data where it does not.
pub enum PreviewImage {
    Jpeg(JpegPreview),
    /// Uncompressed 8-bit interleaved RGB, one strip.
    Rgb { bytes: Vec<u8>, width: u32, height: u32 },
}

impl PreviewImage {
    /// The bytes of the strip.
    pub open spec fn strip(self) -> Seq<u8> {
        match self {
            PreviewImage::Jpeg(p) => p.bytes@,
            PreviewImage::Rgb { bytes, .. } => bytes@,
        }
    }

    /// Width and height in pixels.
    pub open spec fn size(self) -> (u32, u32) {
        match self {
            PreviewImage::Jpeg(p) => (p.width, p.height),
            PreviewImage::Rgb { width, height, .. } => (width, height),
        }
    }

    pub fn bytes(&self) -> (r: &[u8])
        ensures
            r@ == self.strip(),
            self matches PreviewImage::Jpeg(p) ==> r@ == p.bytes@,
            self matches PreviewImage::Rgb { bytes, .. } ==> r@ == bytes@,
    {
        match self {
            PreviewImage::Jpeg(p) => p.bytes.as_slice(),
            PreviewImage::Rgb { bytes, .. } => bytes.as_slice(),
        }
    }

    pub fn dimensions(&self) -> (r: (u32, u32))
        ensures
            r == self.size(),
            self matches PreviewImage::Jpeg(p) ==> r.0 == p.width && r.1 == p.height,
            self matches PreviewImage::Rgb { width, height, .. } ==> r.0 == width && r.1 == height,
    {
        match self {
            PreviewImage::Jpeg(p) => (p.width, p.height),
            PreviewImage::Rgb { width, height, .. } => (*width, *height),
        }
    }
}

/// The bodies whose own JPEG serves as the preview.
pub open spec fn camera_jpeg_model(name: Seq<char>) -> bool {
    ||| name == "SIGMA DP1X"@
    ||| name == "SIGMA DP2X"@
    ||| name == "SIGMA SD15"@
}

/// Whether `model` gets the camera's JPEG as its preview: the TRUE II bodies do,
/// whose raw-rendered preview looks flat and magenta.
pub fn uses_camera_jpeg(model: Option<&str>) -> (r: bool)
    ensures
        r == (model matches Some(m) && camera_jpeg_model(crate::text::trimmed(m@))),
{
    match model {
        Some(m) => {
            let name = trim(m);
            same_text(name, "SIGMA DP1X") || same_text(name, "SIGMA DP2X") || same_text(
                name,
                "SIGMA SD15",
            )
        },
        None => false,
    }
}

/// Whether `rgb` holds the pixels of an image of this size.
pub open spec fn rgb_image(rgb: Seq<u8>, width: usize, height: usize) -> bool {
    width > 0 && height > 0 && rgb.len() == width * height * 3
}

/// The image in what a decoder gave back, if it is one.
pub open spec fn image_of(
    decoded: Option<(Seq<u8>, Option<(usize, usize)>)>,
) -> Option<(Seq<u8>, usize, usize)> {
    match decoded {
        Some((pixels, Some((width, height)))) => if rgb_image(pixels, width, height) {
            Some((pixels, width, height))
        } else {
            None
        },
        _ => None,
    }
}

/// The image in a stream, if the decoder gets through it and finds one.
pub open spec fn image_in(stream: Seq<u8>) -> Option<(Seq<u8>, usize, usize)> {
    if crate::stream::decodable(stream) {
        image_of(crate::jpeg::jpeg_decoded(stream))
    } else {
        None
    }
}

/// The image of decoded pixels and the dimensions that came with them: `None`
/// where the dimensions are missing or zero, or do not fit the pixels.
pub fn checked_image(pixels: Vec<u8>, dimensions: Option<(usize, usize)>) -> (r: Option<
    (Vec<u8>, usize, usize),
>)
    ensures
        match r {
            Some((rgb, width, height)) => image_of(Some((pixels@, dimensions))) == Some(
                (rgb@, width, height),
            ),
            None => image_of(Some((pixels@, dimensions))) is None,
        },
{
    let len: usize = pixels.len();
    let (width, height) = match dimensions {
        Some(d) => d,
        None => return None,
    };
    if width == 0 || height == 0 {
        return None;
    }
    let area = match width.checked_mul(height) {
        Some(a) => a,
        None => return None,
    };
    match area.checked_mul(3) {
        Some(size) => if len == size {
            Some((pixels, width, height))
        } else {
            None
        },
        None => None,
    }
}

/// Decodes a JPEG stream to interleaved 8-bit RGB. A stream that the decoder does not get
/// through, see [`crate::stream::decodable`], has no image. What decodes of a stream that
/// begins with a baseline frame has the size that the frame advertises.
pub fn decode_rgb(jpeg: &[u8]) -> (r: Option<(Vec<u8>, usize, usize)>)
    ensures
        match r {
            Some((rgb, width, height)) => image_in(jpeg@) == Some((rgb@, width, height)),
            None => image_in(jpeg@) is None,
        },
        !crate::jpeg::starts_image(jpeg@) ==> r is None,
        forall|width: u16, height: u16, horizontal: u8, vertical: u8| #[trigger]
            crate::jpeg::starts_frame(jpeg@, width, height, horizontal, vertical) && r is Some ==> (
            r->0).1 == width && (r->0).2 == height,
{
    if !is_decodable(jpeg) {
        return None;
    }
    match decode_stream(jpeg) {
        Some((pixels, dimensions)) => checked_image(pixels, dimensions),
        None => None,
    }
}

/// The larger of two numbers.
pub open spec fn larger(a: nat, b: nat) -> nat {
    if a >= b {
        a
    } else {
        b
    }
}

/// By how much an image is scaled down so that its long edge has at most `edge`
/// pixels: the long edge divided by `edge`, rounded up.
pub open spec fn scale_factor(width: nat, height: nat, edge: nat) -> nat {
    let limit = larger(edge, 1);
    larger(((larger(width, height) + limit - 1) / limit as int) as nat, 1)
}

/// Width and height of the preview.
pub open spec fn preview_size(width: nat, height: nat, edge: nat) -> (nat, nat) {
    let factor = scale_factor(width, height, edge);
    (width / factor, height / factor)
}

/// The pixels of the preview.
pub open spec fn preview_pixels(rgb: Seq<u8>, width: nat, height: nat, edge: nat) -> Seq<u8> {
    let (out_w, out_h) = preview_size(width, height, edge);
    crate::downsample::averaged(rgb, width, scale_factor(width, height, edge), out_w, out_h)
}

/// Whether a preview has pixels and is small enough for a JPEG stream.
pub open spec fn encodable(width: nat, height: nat, edge: nat) -> bool {
    let (out_w, out_h) = preview_size(width, height, edge);
    0 < out_w <= u16::MAX && 0 < out_h <= u16::MAX
}

/// Whether `p` is the preview of an image.
pub open spec fn is_preview(
    p: JpegPreview,
    rgb: Seq<u8>,
    width: nat,
    height: nat,
    edge: nat,
) -> bool {
    let (out_w, out_h) = preview_size(width, height, edge);
    &&& p.width == out_w
    &&& p.height == out_h
    &&& p.bytes@ == crate::jpeg::jpeg_stream(
        preview_pixels(rgb, width, height, edge),
        out_w as u16,
        out_h as u16,
        QUALITY,
        HORIZONTAL_SAMPLING,
        VERTICAL_SAMPLING,
    )
    &&& crate::jpeg::framed(
        p.bytes@,
        out_w as u16,
        out_h as u16,
        HORIZONTAL_SAMPLING,
        VERTICAL_SAMPLING,
    )
}

/// The factor by which an image is scaled down.
fn scale_factor_of(width: usize, height: usize, max_long_edge: u32) -> (r: usize)
    ensures
        r == scale_factor(width as nat, height as nat, max_long_edge as nat),
        r > 0,
{
    let edge: usize = if width >= height { width } else { height };
    let limit: usize = if max_long_edge >= 1 { max_long_edge as usize } else { 1 };
    let whole: usize = edge / limit;
    let rest: usize = edge % limit;
    proof {
        vstd::arithmetic::div_mod::lemma_fundamental_div_mod(edge as int, limit as int);
        assert(whole * limit == limit * whole) by (nonlinear_arith);
        if rest == 0 {
            vstd::arithmetic::div_mod::lemma_fundamental_div_mod_converse(
                edge + limit - 1,
                limit as int,
                whole as int,
                limit - 1,
            );
        } else {
            assert((whole + 1) * limit == whole * limit + limit) by (nonlinear_arith);
            vstd::arithmetic::div_mod::lemma_fundamental_div_mod_converse(
                edge + limit - 1,
                limit as int,
                whole + 1,
                rest - 1,
            );
        }
    }
    if rest != 0 {
        assert(limit >= 2 ==> whole < usize::MAX) by (nonlinear_arith)
            requires
                whole * limit <= edge <= usize::MAX,
                0 <= whole,
        ;
        whole + 1
    } else if whole == 0 {
        1
    } else {
        whole
    }
}

/// The preview of a decoded image: averaged down to `max_long_edge` pixels on the
/// long edge and encoded. `None` where nothing is left of an edge, or where an edge
/// is too long for a JPEG stream.
pub fn encode_preview(rgb: Vec<u8>, width: usize, height: usize, max_long_edge: u32) -> (r: Option<
    JpegPreview,
>)
    requires
        rgb_image(rgb@, width, height),
    ensures
        (r is Some) == encodable(width as nat, height as nat, max_long_edge as nat),
        r matches Some(p) ==> is_preview(
            p,
            rgb@,
            width as nat,
            height as nat,
            max_long_edge as nat,
        ),
{
    let len: usize = rgb.len();
    let ghost image = rgb@;
    let factor = scale_factor_of(width, height, max_long_edge);
    let (pixels, out_w, out_h) = if factor == 1 {
        proof {
            assert(width * 3 * height == width * height * 3) by (nonlinear_arith);
            assert(width as nat / 1 == width && height as nat / 1 == height);
            crate::downsample::law_unit_blocks_keep_the_image(image, width as nat, height as nat);
        }
        (rgb, width, height)
    } else {
        proof {
            vstd::arithmetic::div_mod::lemma_fundamental_div_mod(height as int, factor as int);
            assert(height as int / factor as int * factor * width * 3 <= width * height * 3)
                by (nonlinear_arith)
                requires
                    height == factor * (height as int / factor as int) + height as int
                        % factor as int,
                    0 <= height as int % factor as int,
                    0 <= width,
            ;
        }
        box_downsample(rgb.as_slice(), width, height, factor)
    };
    if out_w == 0 || out_h == 0 || out_w > u16::MAX as usize || out_h > u16::MAX as usize {
        return None;
    }
    assert(out_w * 3 * out_h == out_w * out_h * 3) by (nonlinear_arith);
    let pixel_len: usize = pixels.len();
    let stream = encode_rgb(
        pixels.as_slice(),
        out_w as u16,
        out_h as u16,
        QUALITY,
        HORIZONTAL_SAMPLING,
        VERTICAL_SAMPLING,
    );
    match stream {
        Some(bytes) => Some(JpegPreview { bytes, width: out_w as u32, height: out_h as u32 }),
        None => None,
    }
}

/// Builds the preview from the camera's embedded JPEG. `None` where the stream does
/// not decode, by [`decode_rgb`], so that the preview rendered from the raw data takes its
/// place.
pub fn from_camera_jpeg(jpeg: &[u8], max_long_edge: u32) -> (r: Option<JpegPreview>)
    ensures
        match image_in(jpeg@) {
            Some((rgb, width, height)) => {
                &&& (r is Some) == encodable(width as nat, height as nat, max_long_edge as nat)
                &&& r matches Some(p) ==> is_preview(
                    p,
                    rgb,
                    width as nat,
                    height as nat,
                    max_long_edge as nat,
                )
            },
            None => r is None,
        },
        !crate::jpeg::starts_image(jpeg@) ==> r is None,
{
    match decode_rgb(jpeg) {
        Some((rgb, width, height)) => encode_preview(rgb, width, height, max_long_edge),
        None => None,
    }
}

/// Neither edge of a preview is longer than the limit (or than one pixel, where
/// the limit is zero), and the image is not scaled down further than it takes.
pub proof fn law_long_edge_is_limited(width: nat, height: nat, edge: nat)
    ensures
        preview_size(width, height, edge).0 <= larger(edge, 1),
        preview_size(width, height, edge).1 <= larger(edge, 1),
        scale_factor(width, height, edge) > 1 ==> (scale_factor(width, height, edge) - 1) * larger(
            edge,
            1,
        ) < larger(width, height),
{
    let limit = larger(edge, 1);
    let long = larger(width, height);
    let factor = scale_factor(width, height, edge);
    let up = (long + limit - 1) / limit as int;
    vstd::arithmetic::div_mod::lemma_fundamental_div_mod(long + limit - 1, limit as int);
    assert(long <= factor * limit && (factor == up ==> (factor - 1) * limit < long))
        by (nonlinear_arith)
        requires
            long + limit - 1 == limit * up + (long + limit - 1) % limit as int,
            0 <= (long + limit - 1) % limit as int,
            (long + limit - 1) % limit as int <= limit - 1,
            up <= factor,
            limit >= 1,
    ;
    lemma_quotient_is_limited(width, factor, limit);
    lemma_quotient_is_limited(height, factor, limit);
}

proof fn lemma_quotient_is_limited(n: nat, factor: nat, limit: nat)
    requires
        factor > 0,
        n <= factor * limit,
    ensures
        n / factor <= limit,
{
    vstd::arithmetic::div_mod::lemma_fundamental_div_mod(n as int, factor as int);
    assert(n / factor <= limit) by (nonlinear_arith)
        requires
            factor > 0,
            n <= factor * limit,
            n == factor * (n / factor) + n % factor,
            0 <= n % factor,
    ;
}

/// An image within the limit keeps its size and its pixels.
pub proof fn law_small_images_keep_their_size(
    rgb: Seq<u8>,
    width: usize,
    height: usize,
    edge: nat,
)
    requires
        rgb_image(rgb, width, height),
        width <= edge,
        height <= edge,
    ensures
        preview_size(width as nat, height as nat, edge) == (width as nat, height as nat),
        preview_pixels(rgb, width as nat, height as nat, edge) == rgb,
{
    let limit = larger(edge, 1);
    let long = larger(width as nat, height as nat);
    vstd::arithmetic::div_mod::lemma_fundamental_div_mod_converse(
        long + limit - 1,
        limit as int,
        1,
        long - 1,
    );
    assert(width * 3 * height == width * height * 3) by (nonlinear_arith);
    assert(width as nat / 1 == width && height as nat / 1 == height);
    crate::downsample::law_unit_blocks_keep_the_image(rgb, width as nat, height as nat);
}

/// A body's own JPEG serves as the preview for three names exactly, whatever white space
/// stands around the name.
pub proof fn law_three_bodies_use_their_jpeg(front: Seq<char>, name: Seq<char>, back: Seq<char>)
    requires
        forall|i: int| 0 <= i < front.len() ==> crate::text::white_space(#[trigger] front[i]),
        forall|i: int| 0 <= i < back.len() ==> crate::text::white_space(#[trigger] back[i]),
        name.len() > 0,
        !crate::text::white_space(name.first()),
        !crate::text::white_space(name.last()),
    ensures
        camera_jpeg_model(crate::text::trimmed(front + name + back)) <==> (name
            == seq!['S', 'I', 'G', 'M', 'A', ' ', 'D', 'P', '1', 'X'] || name
            == seq!['S', 'I', 'G', 'M', 'A', ' ', 'D', 'P', '2', 'X'] || name
            == seq!['S', 'I', 'G', 'M', 'A', ' ', 'S', 'D', '1', '5']),
{
    crate::text::law_trimming_leaves_the_text(front, name, back);
    reveal_strlit("SIGMA DP1X");
    reveal_strlit("SIGMA DP2X");
    reveal_strlit("SIGMA SD15");
    assert("SIGMA DP1X"@ =~= seq!['S', 'I', 'G', 'M', 'A', ' ', 'D', 'P', '1', 'X']);
    assert("SIGMA DP2X"@ =~= seq!['S', 'I', 'G', 'M', 'A', ' ', 'D', 'P', '2', 'X']);
    assert("SIGMA SD15"@ =~= seq!['S', 'I', 'G', 'M', 'A', ' ', 'S', 'D', '1', '5']);
}

/// Decoded pixels are an image exactly where their dimensions are there, neither is zero,
/// and three bytes stand for each pixel; the image is then these pixels, of this size.
pub proof fn law_images_have_three_bytes_a_pixel(
    pixels: Seq<u8>,
    dimensions: Option<(usize, usize)>,
)
    ensures
        image_of(Some((pixels, dimensions))) is Some <==> (dimensions matches Some(d) && d.0 >= 1
            && d.1 >= 1 && pixels.len() == 3 * (d.0 * d.1)),
        image_of(Some((pixels, dimensions))) matches Some(image) ==> image.0 == pixels
            && dimensions == Some((image.1, image.2)),
        image_of(None) is None,
{
}

/// The factor of a preview is the least with which neither edge is longer than the limit, so
/// every factor with these bounds is it.
proof fn lemma_factor_is_least(width: nat, height: nat, edge: nat, factor: nat)
    requires
        factor >= 1,
        width <= factor * larger(edge, 1),
        height <= factor * larger(edge, 1),
        factor > 1 ==> (factor - 1) * larger(edge, 1) < larger(width, height),
    ensures
        scale_factor(width, height, edge) == factor,
{
    let limit = larger(edge, 1);
    let long = larger(width, height);
    let up = (long + limit - 1) / limit as int;
    let rest = (long + limit - 1) % limit as int;
    vstd::arithmetic::div_mod::lemma_fundamental_div_mod(long + limit - 1, limit as int);
    assert(up <= factor && (factor > 1 ==> up >= factor)) by (nonlinear_arith)
        requires
            long + limit - 1 == limit * up + rest,
            0 <= rest,
            rest <= limit - 1,
            long <= factor * limit,
            factor > 1 ==> (factor - 1) * limit < long,
            limit >= 1,
    ;
    assert(up >= 0) by (nonlinear_arith)
        requires
            long + limit - 1 == limit * up + rest,
            0 <= rest,
            rest <= limit - 1,
            limit >= 1,
            long >= 0,
    ;
}

/// A preview is the image averaged by the least factor with which neither edge is longer
/// than the limit, encoded at a quality of 90 with the luma twice as dense as the chroma
/// either way. There is one exactly where either edge keeps 1 to 65535 pixels. A limit of
/// zero counts as one pixel.
pub proof fn law_preview_is_scaled_by_the_least_factor(
    p: JpegPreview,
    rgb: Seq<u8>,
    width: nat,
    height: nat,
    edge: nat,
    limit: nat,
    factor: nat,
)
    requires
        limit == edge || (edge == 0 && limit == 1),
        limit >= 1,
        factor >= 1,
        width <= factor * limit,
        height <= factor * limit,
        factor > 1 ==> (factor - 1) * limit < width || (factor - 1) * limit < height,
        is_preview(p, rgb, width, height, edge),
    ensures
        encodable(width, height, edge) <==> 1 <= width / factor <= 65535 && 1 <= height / factor
            <= 65535,
        p.width == width / factor,
        p.height == height / factor,
        p.bytes@ == crate::jpeg::jpeg_stream(
            crate::downsample::averaged(rgb, width, factor, width / factor, height / factor),
            (width / factor) as u16,
            (height / factor) as u16,
            90,
            2,
            2,
        ),
{
    lemma_factor_is_least(width, height, edge, factor);
}

/// The embedded preview has at most 1600 pixels on either edge, and an image within that
/// keeps its size.
pub proof fn law_embedded_previews_are_limited(width: nat, height: nat)
    ensures
        preview_size(width, height, MAX_LONG_EDGE as nat).0 <= 1600,
        preview_size(width, height, MAX_LONG_EDGE as nat).1 <= 1600,
        width <= 1600 && height <= 1600 ==> preview_size(width, height, MAX_LONG_EDGE as nat) == (
            width,
            height,
        ),
{
    law_long_edge_is_limited(width, height, 1600);
    if width <= 1600 && height <= 1600 {
        lemma_factor_is_least(width, height, 1600, 1);
        assert(width / 1 == width && height / 1 == height);
    }
}

/// There is a preview of every image that a JPEG stream can hold and whose short
/// edge has a pixel for each step of the scale.
pub proof fn law_preview_exists(width: nat, height: nat, edge: nat)
    requires
        scale_factor(width, height, edge) <= width <= u16::MAX,
        scale_factor(width, height, edge) <= height <= u16::MAX,
    ensures
        encodable(width, height, edge),
{
    let factor = scale_factor(width, height, edge);
    vstd::arithmetic::div_mod::lemma_div_non_zero(width as int, factor as int);
    vstd::arithmetic::div_mod::lemma_div_non_zero(height as int, factor as int);
    vstd::arithmetic::div_mod::lemma_div_is_ordered_by_denominator(width as int, 1, factor as int);
    vstd::arithmetic::div_mod::lemma_div_is_ordered_by_denominator(height as int, 1, factor as int);
    assert(width as int / 1 == width && height as int / 1 == height);
}

/// The stream of a preview advertises the preview's size and its sampling, and is
/// delimited as a JPEG stream. By the contract of [`decode_rgb`], what decodes of it
/// has that size.
pub proof fn law_preview_advertises_its_size(
    p: JpegPreview,
    rgb: Seq<u8>,
    width: nat,
    height: nat,
    edge: nat,
)
    requires
        encodable(width, height, edge),
        is_preview(p, rgb, width, height, edge),
    ensures
        crate::jpeg::framed(
            p.bytes@,
            p.width as u16,
            p.height as u16,
            HORIZONTAL_SAMPLING,
            VERTICAL_SAMPLING,
        ),
        p.bytes@.take(2) == crate::jpeg::start_of_image(),
{
    let (out_w, out_h) = preview_size(width, height, edge);
    let head = crate::jpeg::stream_head(
        out_w as u16,
        out_h as u16,
        HORIZONTAL_SAMPLING,
        VERTICAL_SAMPLING,
    );
    assert(p.bytes@.take(2) =~= p.bytes@.take(head.len() as int).take(2));
    assert(head.take(2) =~= crate::jpeg::start_of_image());
}

/// Where the length of the frame header is in the stream of a preview.
pub const FRAME_PLACE: usize = 22;

/// The decoder can lay out the frame of every preview that is not larger than it takes.
pub proof fn law_preview_frames_are_taken(
    p: JpegPreview,
    rgb: Seq<u8>,
    width: nat,
    height: nat,
    edge: nat,
    transformed: bool,
)
    requires
        encodable(width, height, edge),
        is_preview(p, rgb, width, height, edge),
        p.width <= 0x4000,
        p.height <= 0x4000,
    ensures
        crate::stream::in_frame(p.bytes@, FRAME_PLACE as int),
        crate::stream::frame_width(p.bytes@, FRAME_PLACE as int) == p.width,
        crate::stream::frame_height(p.bytes@, FRAME_PLACE as int) == p.height,
        crate::stream::ordinary(p.bytes@, FRAME_PLACE as int),
        crate::stream::frame_taken(p.bytes@, FRAME_PLACE as int, transformed),
{
    law_preview_advertises_its_size(p, rgb, width, height, edge);
    let b = p.bytes@;
    let (w, h) = (p.width as u16, p.height as u16);
    let head = crate::jpeg::stream_head(w, h, HORIZONTAL_SAMPLING, VERTICAL_SAMPLING);
    let frame = crate::jpeg::baseline_frame(w, h, HORIZONTAL_SAMPLING, VERTICAL_SAMPLING);
    assert(head.len() == 39 && frame.len() == 19);
    assert forall|i: int| 0 <= i < 19 implies b[20 + i] == #[trigger] frame[i] by {
        assert(b.take(39)[20 + i] == head[20 + i]);
    }
    assert(frame[2] == 0 && frame[3] == 17 && frame[9] == 3);
    assert(frame[5] == crate::endian::be16(h)[0] && frame[6] == crate::endian::be16(h)[1]);
    assert(frame[7] == crate::endian::be16(w)[0] && frame[8] == crate::endian::be16(w)[1]);
    assert(frame[11] == 0x22 && frame[14] == 0x11 && frame[17] == 0x11);
    assert(crate::stream::horizontal(b, 22, 0) == 2);
    assert(crate::stream::horizontal(b, 22, 1) == 1);
    assert(crate::stream::horizontal(b, 22, 2) == 1);
    crate::stream::law_ordinary_frames_are_taken(b, 22, transformed);
}

} // verus!
