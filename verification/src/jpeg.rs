//! Decoding and encoding JPEG streams.
use vstd::prelude::*;

verus! {

/// What `zune_jpeg` makes of a stream when asked for interleaved RGB: the
/// decoded bytes and the dimensions it reports, or `None` where it reports an
/// error.
pub uninterp spec fn jpeg_decoded(stream: Seq<u8>) -> Option<(Seq<u8>, Option<(usize, usize)>)>;

/// The stream that `jpeg_encoder` writes for interleaved RGB `pixels`.
pub uninterp spec fn jpeg_stream(
    pixels: Seq<u8>,
    width: u16,
    height: u16,
    quality: u8,
    horizontal: u8,
    vertical: u8,
) -> Seq<u8>;

/// The two bytes that begin a JPEG stream.
pub open spec fn start_of_image() -> Seq<u8> {
    seq![0xff, 0xd8]
}

/// The two bytes that end a JPEG stream.
pub open spec fn end_of_image() -> Seq<u8> {
    seq![0xff, 0xd9]
}

/// The JFIF header segment of a stream with square pixels.
pub open spec fn jfif_segment() -> Seq<u8> {
    seq![0xff, 0xe0, 0, 16, 0x4a, 0x46, 0x49, 0x46, 0, 1, 2, 0, 0, 1, 0, 1, 0, 0]
}

/// The header of a baseline frame with three components of eight bits, of which
/// the first is sampled `horizontal` by `vertical` times as densely as the others.
pub open spec fn baseline_frame(width: u16, height: u16, horizontal: u8, vertical: u8) -> Seq<u8> {
    seq![0xff, 0xc0, 0, 17, 8] + crate::endian::be16(height) + crate::endian::be16(width) + seq![
        3,
        0,
        (horizontal * 16 + vertical) as u8,
        0,
        1,
        0x11,
        1,
        2,
        0x11,
        1,
    ]
}

/// How a baseline JFIF stream begins.
pub open spec fn stream_head(width: u16, height: u16, horizontal: u8, vertical: u8) -> Seq<u8> {
    start_of_image() + jfif_segment() + baseline_frame(width, height, horizontal, vertical)
}

/// Whether `stream` begins as a baseline JFIF stream of an image of this size.
pub open spec fn starts_frame(
    stream: Seq<u8>,
    width: u16,
    height: u16,
    horizontal: u8,
    vertical: u8,
) -> bool {
    let head = stream_head(width, height, horizontal, vertical);
    stream.len() >= head.len() && stream.take(head.len() as int) == head
}

/// The first bytes of the segment with quantization table `place`, of 64 bytes.
pub open spec fn quant_head(place: u8) -> Seq<u8> {
    seq![0xff, 0xdb, 0, 67, place]
}

/// The segment that defines one Huffman table.
pub open spec fn huffman_segment(table: Seq<u8>) -> Seq<u8> {
    seq![0xff, 0xc4] + crate::endian::be16((table.len() + 2) as u16) + table
}

/// The header of a scan of all three components, of which the first has tables of its
/// own.
pub open spec fn scan_header() -> Seq<u8> {
    seq![0xff, 0xda, 0, 12, 3, 0, 0, 1, 0x11, 2, 0x11, 0, 63, 0]
}

/// The Huffman tables and the scan header.
pub open spec fn tables_and_scan() -> Seq<u8> {
    huffman_segment(crate::standard::dc_luma()) + huffman_segment(crate::standard::ac_luma())
        + huffman_segment(crate::standard::dc_chroma()) + huffman_segment(
        crate::standard::ac_chroma(),
    ) + scan_header()
}

/// Whether two quantization tables, the standard Huffman tables and a scan header stand
/// behind the frame header.
pub open spec fn tabled(stream: Seq<u8>) -> bool {
    &&& stream.len() >= 623
    &&& stream.subrange(39, 44) == quant_head(0)
    &&& stream.subrange(108, 113) == quant_head(1)
    &&& stream.subrange(177, 623) == tables_and_scan()
}

/// Whether `stream` begins as a baseline JFIF stream of an image of this size, up to the
/// data of its one scan, and ends as a JPEG stream does.
pub open spec fn framed(
    stream: Seq<u8>,
    width: u16,
    height: u16,
    horizontal: u8,
    vertical: u8,
) -> bool {
    &&& starts_frame(stream, width, height, horizontal, vertical)
    &&& tabled(stream)
    &&& stream.len() >= 625
    &&& stream.skip(stream.len() - 2) == end_of_image()
}

/// Whether decoded bytes and dimensions are those of an RGB image of this size.
pub open spec fn sized(
    pixels: Seq<u8>,
    dimensions: Option<(usize, usize)>,
    width: u16,
    height: u16,
) -> bool {
    dimensions == Some((width as usize, height as usize)) && pixels.len() == width * height * 3
}

/// Whether `stream` begins as a JPEG stream does.
pub open spec fn starts_image(stream: Seq<u8>) -> bool {
    stream.len() >= 2 && stream.take(2) == start_of_image()
}

/// Calls `zune_jpeg::JpegDecoder::decode` on a stream, with default options but
/// for interleaved RGB as the output, and then `dimensions`.
///
/// Streams on which `decode` panics are left out, see [`crate::stream::decodable`]: that
/// covers the debug assertions and overflow checks of a development build too. On the
/// others it returns.
///
/// The result is named [`jpeg_decoded`]: it is computed from the stream alone.
/// The contract adds that a stream decodes only where it begins with the
/// start-of-image marker, that after a successful `decode` the dimensions are
/// there, and that they are those of the frame header, with three bytes for each
/// pixel, where the stream begins with a baseline frame of three components. Which
/// streams decode is left unsaid, and so is the number of bytes for any other frame.
#[verifier::external_body]
pub(crate) fn decode_stream(jpeg: &[u8]) -> (r: Option<(Vec<u8>, Option<(usize, usize)>)>)
    requires
        crate::stream::decodable(jpeg@),
    ensures
        r is None <==> jpeg_decoded(jpeg@) is None,
        r matches Some((pixels, dimensions)) ==> jpeg_decoded(jpeg@) == Some((pixels@, dimensions)),
        r matches Some((pixels, dimensions)) ==> dimensions is Some && starts_image(jpeg@),
        forall|width: u16, height: u16, horizontal: u8, vertical: u8| #[trigger]
            starts_frame(jpeg@, width, height, horizontal, vertical) && r is Some ==> sized(
                (r->0).0@,
                (r->0).1,
                width,
                height,
            ),
{
    let options = zune_jpeg::zune_core::options::DecoderOptions::default().jpeg_set_out_colorspace(
        zune_jpeg::zune_core::colorspace::ColorSpace::RGB,
    );
    let mut decoder = zune_jpeg::JpegDecoder::new_with_options(jpeg, options);
    let pixels = decoder.decode().ok()?;
    Some((pixels, decoder.dimensions()))
}

/// Calls `jpeg_encoder::Encoder::encode` on interleaved RGB, with the quality and
/// the sampling factors given and every other setting at its default.
///
/// The stream is named [`jpeg_stream`]: it is computed from the arguments alone.
/// The contract adds when there is one (the image has pixels, and `pixels` holds
/// at least three bytes for each), what its headers are but for the quantization values,
/// and that it ends with the end-of-image marker. The entropy-coded data between the scan
/// header and that marker are left unsaid.
#[verifier::external_body]
pub(crate) fn encode_rgb(
    pixels: &[u8],
    width: u16,
    height: u16,
    quality: u8,
    horizontal: u8,
    vertical: u8,
) -> (r: Option<Vec<u8>>)
    requires
        1 <= quality <= 100,
        1 <= horizontal <= 2,
        1 <= vertical <= 2,
        width * height * 3 <= usize::MAX,
    ensures
        (r is Some) == (0 < width && 0 < height && width * height * 3 <= pixels@.len()),
        r matches Some(stream) ==> stream@ == jpeg_stream(
            pixels@,
            width,
            height,
            quality,
            horizontal,
            vertical,
        ),
        r matches Some(stream) ==> framed(stream@, width, height, horizontal, vertical),
{
    let mut stream = Vec::new();
    let mut encoder = jpeg_encoder::Encoder::new(&mut stream, quality);
    encoder.set_sampling_factor(jpeg_encoder::SamplingFactor::from_factors(horizontal, vertical)?);
    encoder.encode(pixels, width, height, jpeg_encoder::ColorType::Rgb).ok()?;
    Some(stream)
}

} // verus!
