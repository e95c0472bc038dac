//! What the stream test makes of the headers of a preview.
use crate::jpeg::{framed, huffman_segment, tables_and_scan};
use crate::preview::{
    encodable, is_preview, law_preview_advertises_its_size, law_preview_frames_are_taken,
    JpegPreview, FRAME_PLACE, HORIZONTAL_SAMPLING, VERTICAL_SAMPLING,
};
use crate::sequential::{part, parts, scans_read, walk_begun};
use crate::stream::{
    decodable, headers_from, huffman_tables, no_headers, quant_tables, segment, segment_end,
    symbols, word, Headers, Tables,
};
use vstd::prelude::*;

verus! {

/// Where the length of the scan header is in the stream of a preview.
pub const SCAN_PLACE: usize = 611;

/// What the segments of a preview say.
pub open spec fn preview_headers() -> Headers {
    Headers {
        frame: Some(FRAME_PLACE),
        quant: Tables { first: Some(43), second: Some(112), third: None, fourth: None },
        dc: Tables { first: Some(182), second: Some(398), third: None, fourth: None },
        ac: Tables { first: Some(215), second: Some(431), third: None, fourth: None },
        ..no_headers()
    }
}

proof fn lemma_one_segment(b: Seq<u8>, p: int, w: Headers, next: Headers)
    requires
        0 <= p,
        p + 2 <= b.len(),
        b[p] == 0xff,
        b[p + 1] != 0xff,
        b[p + 1] != 0,
        b[p + 1] != 0xda,
        segment(b, b[p + 1], p + 2, w) == Some(next),
        p + 1 < segment_end(b, b[p + 1], p + 2) <= b.len(),
    ensures
        headers_from(b, p, false, w) == headers_from(
            b,
            segment_end(b, b[p + 1], p + 2),
            false,
            next,
        ),
{
    reveal_with_fuel(headers_from, 3);
}

proof fn lemma_same_symbols(b: Seq<u8>, p: int, t: Seq<u8>, k: nat)
    requires
        0 <= p,
        p + t.len() <= b.len(),
        1 + k <= t.len(),
        forall|i: int| 0 <= i < t.len() ==> b[p + i] == #[trigger] t[i],
    ensures
        symbols(b, p + 1, k) == symbols(t, 1, k),
    decreases k,
{
    if k > 0 {
        lemma_same_symbols(b, p, t, (k - 1) as nat);
        assert(b[p + k] == t[k as int]);
    }
}

/// One Huffman table in a segment of its own.
proof fn lemma_one_table(b: Seq<u8>, p: int, t: Seq<u8>, w: Headers, next: Headers)
    requires
        0 <= p,
        p + 4 + t.len() <= b.len() <= usize::MAX,
        b.subrange(p, p + 4 + t.len()) == huffman_segment(t),
        17 <= t.len() <= 273,
        symbols(t, 1, 16) == t.len() - 17,
        t[0] as int / 16 <= 1,
        t[0] as int % 16 <= 3,
        next == (if t[0] as int / 16 == 0 {
            Headers { dc: w.dc.with(t[0] as int % 16, p + 5), ..w }
        } else {
            Headers { ac: w.ac.with(t[0] as int % 16, p + 5), ..w }
        }),
    ensures
        headers_from(b, p, false, w) == headers_from(b, p + 4 + t.len(), false, next),
{
    let whole = huffman_segment(t);
    assert(forall|i: int|
        0 <= i < whole.len() ==> b[p + i] == #[trigger] b.subrange(p, p + 4 + t.len())[i]);
    assert(whole[0] == 0xff && whole[1] == 0xc4);
    assert(b[p] == whole[0] && b[p + 1] == whole[1]);
    assert(b[p + 2] == whole[2] && b[p + 3] == whole[3]);
    assert(word(b, p + 2) == t.len() + 2);
    assert forall|i: int| 0 <= i < t.len() implies b[p + 4 + i] == #[trigger] t[i] by {
        assert(whole[4 + i] == t[i]);
        assert(b[p + (4 + i)] == whole[4 + i]);
    }
    lemma_same_symbols(b, p + 4, t, 16);
    assert(b[p + 4] == t[0]);
    reveal_with_fuel(huffman_tables, 2);
    lemma_one_segment(b, p, w, next);
}

proof fn lemma_table_sizes()
    ensures
        crate::standard::dc_luma().len() == 29,
        crate::standard::dc_chroma().len() == 29,
        crate::standard::ac_luma().len() == 179,
        crate::standard::ac_chroma().len() == 179,
        symbols(crate::standard::dc_luma(), 1, 16) == 12,
        symbols(crate::standard::dc_chroma(), 1, 16) == 12,
        symbols(crate::standard::ac_luma(), 1, 16) == 162,
        symbols(crate::standard::ac_chroma(), 1, 16) == 162,
        crate::standard::dc_luma()[0] == 0,
        crate::standard::dc_chroma()[0] == 1,
        crate::standard::ac_luma()[0] == 0x10,
        crate::standard::ac_chroma()[0] == 0x11,
{
    reveal_with_fuel(symbols, 17);
}

/// The quantization table in the segment at `p`.
proof fn lemma_one_quant(b: Seq<u8>, p: int, place: u8, w: Headers, next: Headers)
    requires
        0 <= p,
        p + 69 <= b.len() <= usize::MAX,
        b.subrange(p, p + 5) == crate::jpeg::quant_head(place),
        place <= 3,
        next == (Headers { quant: w.quant.with(place as int, p + 4), ..w }),
    ensures
        headers_from(b, p, false, w) == headers_from(b, p + 69, false, next),
{
    let head = b.subrange(p, p + 5);
    assert(head[0] == b[p] && head[1] == b[p + 1] && head[2] == b[p + 2] && head[3] == b[p + 3]
        && head[4] == b[p + 4]);
    assert(word(b, p + 2) == 67);
    reveal_with_fuel(quant_tables, 2);
    lemma_one_segment(b, p, w, next);
}

/// The segments in front of the tables.
proof fn lemma_first_segments(b: Seq<u8>, width: u16, height: u16)
    requires
        b.len() <= usize::MAX,
        framed(b, width, height, HORIZONTAL_SAMPLING, VERTICAL_SAMPLING),
        crate::stream::frame_whole(b, 22),
        crate::stream::components(b, 22) == 3,
    ensures
        b[0] == 0xff,
        b[1] == 0xd8,
        headers_from(b, 2, false, no_headers()) == headers_from(
            b,
            39,
            false,
            Headers { frame: Some(22), ..no_headers() },
        ),
{
    let head = crate::jpeg::stream_head(width, height, HORIZONTAL_SAMPLING, VERTICAL_SAMPLING);
    assert(head.len() == 39);
    assert forall|i: int| 0 <= i < 39 implies b[i] == #[trigger] head[i] by {
        assert(b.take(39)[i] == head[i]);
    }
    assert(head[0] == 0xff && head[1] == 0xd8 && head[2] == 0xff && head[3] == 0xe0);
    assert(head[4] == 0 && head[5] == 16 && head[6] == 0x4a);
    lemma_one_segment(b, 2, no_headers(), no_headers());
    assert(head[20] == 0xff && head[21] == 0xc0 && head[22] == 0 && head[23] == 17);
    assert(word(b, 22) == 17);
    let framed = Headers { frame: Some(22usize), ..no_headers() };
    assert(segment(b, 0xc0, 22, no_headers()) == Some(framed));
    lemma_one_segment(b, 20, no_headers(), framed);
}

/// The segments of a preview say what [`preview_headers`] says.
proof fn lemma_preview_headers(b: Seq<u8>, width: u16, height: u16)
    requires
        b.len() <= usize::MAX,
        framed(b, width, height, HORIZONTAL_SAMPLING, VERTICAL_SAMPLING),
        crate::stream::frame_whole(b, 22),
        crate::stream::components(b, 22) == 3,
    ensures
        b[0] == 0xff,
        b[1] == 0xd8,
        headers_from(b, 2, false, no_headers()) == Some((preview_headers(), 611int)),
        b.subrange(609, 623) == crate::jpeg::scan_header(),
{
    lemma_first_segments(b, width, height);
    lemma_table_sizes();
    let (dc0, ac0) = (crate::standard::dc_luma(), crate::standard::ac_luma());
    let (dc1, ac1) = (crate::standard::dc_chroma(), crate::standard::ac_chroma());
    let rest = tables_and_scan();
    assert(b.subrange(177, 210) =~= b.subrange(177, 623).subrange(0, 33));
    assert(rest.subrange(0, 33) =~= huffman_segment(dc0));
    assert(b.subrange(210, 393) =~= b.subrange(177, 623).subrange(33, 216));
    assert(rest.subrange(33, 216) =~= huffman_segment(ac0));
    assert(b.subrange(393, 426) =~= b.subrange(177, 623).subrange(216, 249));
    assert(rest.subrange(216, 249) =~= huffman_segment(dc1));
    assert(b.subrange(426, 609) =~= b.subrange(177, 623).subrange(249, 432));
    assert(rest.subrange(249, 432) =~= huffman_segment(ac1));
    assert(b.subrange(609, 623) =~= b.subrange(177, 623).subrange(432, 446));
    assert(rest.subrange(432, 446) =~= crate::jpeg::scan_header());

    let w1 = Headers { frame: Some(22usize), ..no_headers() };
    let w2 = Headers { quant: w1.quant.with(0, 43), ..w1 };
    lemma_one_quant(b, 39, 0, w1, w2);
    let w3 = Headers { quant: w2.quant.with(1, 112), ..w2 };
    lemma_one_quant(b, 108, 1, w2, w3);
    let w4 = Headers { dc: w3.dc.with(0, 182), ..w3 };
    lemma_one_table(b, 177, dc0, w3, w4);
    let w5 = Headers { ac: w4.ac.with(0, 215), ..w4 };
    lemma_one_table(b, 210, ac0, w4, w5);
    let w6 = Headers { dc: w5.dc.with(1, 398), ..w5 };
    lemma_one_table(b, 393, dc1, w5, w6);
    let w7 = Headers { ac: w6.ac.with(1, 431), ..w6 };
    lemma_one_table(b, 426, ac1, w6, w7);
    let head = b.subrange(609, 623);
    assert(head[0] == b[609] && head[1] == b[610]);
    reveal_with_fuel(headers_from, 3);
    assert(w7 == preview_headers());
}

/// The headers of a preview give the decoder no trouble: it gets through the preview
/// exactly where it gets through the data of its scan.
pub proof fn law_previews_decode_by_their_data(
    p: JpegPreview,
    rgb: Seq<u8>,
    width: nat,
    height: nat,
    edge: nat,
)
    requires
        encodable(width, height, edge),
        is_preview(p, rgb, width, height, edge),
        p.bytes@.len() <= usize::MAX,
        p.width <= 0x4000,
        p.height <= 0x4000,
    ensures
        parts(p.bytes@, FRAME_PLACE as int, preview_headers(), SCAN_PLACE as int, 3) is Some,
        decodable(p.bytes@) == scans_read(
            p.bytes@,
            FRAME_PLACE as int,
            preview_headers(),
            SCAN_PLACE as int,
            walk_begun(preview_headers()),
            true,
            crate::progressive::across(p.bytes@, FRAME_PLACE as int) as nat,
            crate::progressive::down(p.bytes@, FRAME_PLACE as int) as nat,
        ),
{
    let b = p.bytes@;
    law_preview_advertises_its_size(p, rgb, width, height, edge);
    law_preview_frames_are_taken(p, rgb, width, height, edge, true);
    lemma_preview_headers(b, p.width as u16, p.height as u16);
    let head = b.subrange(609, 623);
    assert(forall|i: int| 0 <= i < 14 ==> #[trigger] head[i] == b[609 + i]);
    assert(head[2] == 0 && head[3] == 12 && head[4] == 3);
    assert(b[611] == 0 && b[612] == 12 && b[613] == 3);
    assert(head[5] == b[614] && head[6] == b[615] && head[7] == b[616] && head[8] == b[617]
        && head[9] == b[618] && head[10] == b[619]);
    lemma_parts(b, p.width as u16, p.height as u16);
}

/// The scan of a preview finds its components and tables.
proof fn lemma_parts(b: Seq<u8>, width: u16, height: u16)
    requires
        framed(b, width, height, HORIZONTAL_SAMPLING, VERTICAL_SAMPLING),
        crate::stream::components(b, 22) == 3,
        b[614] == 0,
        b[615] == 0,
        b[616] == 1,
        b[617] == 0x11,
        b[618] == 2,
        b[619] == 0x11,
    ensures
        parts(b, 22, preview_headers(), 611, 3) is Some,
{
    let head = crate::jpeg::stream_head(width, height, HORIZONTAL_SAMPLING, VERTICAL_SAMPLING);
    assert(head.len() == 39);
    assert forall|i: int| 0 <= i < 39 implies b[i] == #[trigger] head[i] by {
        assert(b.take(39)[i] == head[i]);
    }
    assert(head[30] == 0 && head[33] == 1 && head[36] == 2);
    assert(head[32] == 0 && head[35] == 1 && head[38] == 1);
    reveal_with_fuel(crate::sequential::named, 4);
    let w = preview_headers();
    assert(part(b, 22, w, 611, 0) is Some);
    assert(part(b, 22, w, 611, 1) is Some);
    assert(part(b, 22, w, 611, 2) is Some);
    reveal_with_fuel(parts, 4);
}

} // verus!
