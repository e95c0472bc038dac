//! Streams that are decodable whatever their size, their tables and their names.
use crate::sequential::{named, part, part_blank, parts, zero_first};
use crate::stream::{
    components, decodable, frame_height, frame_taken, frame_whole, frame_width, h_max,
    headers_from, horizontal, huffman_tables, no_headers, quant_tables, row_blocks, scalable,
    scan_components, scan_whole, segment, symbols, tallest, v_max, vertical, widest, word, Headers,
};
use vstd::prelude::*;

verus! {

/// A quantization table, of bytes or of 16-bit values.
pub struct QuantTable {
    pub place: u8,
    pub wide: bool,
    pub values: Seq<u8>,
}

/// A Huffman table: the number of its codes of each length, and its symbols.
pub struct CodeTable {
    pub place: u8,
    pub counts: Seq<u8>,
    pub values: Seq<u8>,
}

/// A further scan of a progressive frame: the AC coefficients `start` to `end` of one
/// component without their `low` lowest bits, and `zeros` zero bytes for its data.
pub struct Pass {
    pub component: nat,
    pub start: u8,
    pub end: u8,
    pub low: u8,
    pub zeros: nat,
}

/// A stream of the simplest kind: perhaps an Adobe segment with a color transform, two
/// quantization tables in one segment, perhaps a restart interval, a frame, two Huffman tables
/// in one segment, and one scan of `zeros` zero bytes. The first component has the sampling
/// factors `h` and `v` and the first quantization table, the others the factors 1 and 1 and
/// the second table. The scan of a progressive frame holds the DC coefficients without their
/// `low` lowest bits; further scans and the end of the image follow it.
pub struct Plain {
    pub adobe: Option<u8>,
    pub first: QuantTable,
    pub second: QuantTable,
    pub restart: Option<u16>,
    pub marker: u8,
    pub ids: Seq<u8>,
    pub width: u16,
    pub height: u16,
    pub h: u8,
    pub v: u8,
    pub dc: CodeTable,
    pub ac: CodeTable,
    pub low: u8,
    pub zeros: nat,
    pub passes: Seq<Pass>,
}

/// A segment: its marker, the length of its contents and of the length itself, and the
/// contents.
pub open spec fn segment_bytes(marker: u8, contents: Seq<u8>) -> Seq<u8> {
    let n = contents.len() + 2;
    seq![0xff, marker, (n / 256) as u8, (n % 256) as u8] + contents
}

/// The contents of an Adobe segment with a color transform.
pub open spec fn adobe_contents(transform: u8) -> Seq<u8> {
    seq![0x41, 0x64, 0x6f, 0x62, 0x65, 0, 100, 0, 0, 0, 0, transform]
}

/// The bytes of a quantization table.
pub open spec fn quant_bytes(t: QuantTable) -> Seq<u8> {
    seq![
        if t.wide {
            (16 + t.place) as u8
        } else {
            t.place
        },
    ] + t.values
}

/// The bytes of a Huffman table, of class 0 for DC and of class 1 for AC coefficients.
pub open spec fn code_bytes(class: int, t: CodeTable) -> Seq<u8> {
    seq![(16 * class + t.place) as u8] + (t.counts + t.values)
}

/// The contents of the frame header.
pub open spec fn frame_contents(x: Plain) -> Seq<u8> {
    seq![
        8,
        (x.height / 256) as u8,
        (x.height % 256) as u8,
        (x.width / 256) as u8,
        (x.width % 256) as u8,
        x.ids.len() as u8,
    ] + Seq::new(
        3 * x.ids.len(),
        |k: int|
            if k % 3 == 0 {
                x.ids[k / 3]
            } else if k % 3 == 1 {
                if k / 3 == 0 {
                    (16 * x.h + x.v) as u8
                } else {
                    0x11
                }
            } else if k / 3 == 0 {
                x.first.place
            } else {
                x.second.place
            },
    )
}

/// The contents of the scan header.
pub open spec fn scan_contents(x: Plain) -> Seq<u8> {
    seq![x.ids.len() as u8] + (Seq::new(
        2 * x.ids.len(),
        |k: int|
            if k % 2 == 0 {
                x.ids[k / 2]
            } else {
                (16 * x.dc.place + x.ac.place) as u8
            },
    ) + if x.marker == 0xc2 {
        seq![0, 0, x.low]
    } else {
        seq![0, 63, 0]
    })
}

/// The contents of the header of a further scan.
pub open spec fn pass_contents(x: Plain, i: int) -> Seq<u8> {
    let pass = x.passes[i];
    seq![
        1,
        x.ids[pass.component as int],
        (16 * x.dc.place + x.ac.place) as u8,
        pass.start,
        pass.end,
        pass.low,
    ]
}

/// Zero bytes.
pub open spec fn zero_bytes(n: nat) -> Seq<u8> {
    Seq::new(n, |i: int| 0u8)
}

/// The further scans from the `i`th on, and the end of the image.
pub open spec fn passes_part(x: Plain, i: int) -> Seq<u8>
    decreases x.passes.len() - i,
{
    if i < 0 || i >= x.passes.len() {
        seq![0xff, 0xd9]
    } else {
        segment_bytes(0xda, pass_contents(x, i)) + (zero_bytes(x.passes[i].zeros) + passes_part(
            x,
            i + 1,
        ))
    }
}

/// What follows the scan header.
pub open spec fn data_part(x: Plain) -> Seq<u8> {
    zero_bytes(x.zeros) + if x.marker == 0xc2 {
        passes_part(x, 0)
    } else {
        seq![]
    }
}

/// Whether a further scan is of a component that is there, of AC coefficients, and has one to
/// three zero bytes.
pub open spec fn pass_fits(x: Plain, i: int) -> bool {
    let pass = x.passes[i];
    &&& pass.component < x.ids.len()
    &&& 1 <= pass.start <= 63
    &&& pass.end <= 63
    &&& pass.low <= 13
    &&& 1 <= pass.zeros <= 3
}

/// The segment of an Adobe marker, if the stream has one.
pub open spec fn adobe_part(x: Plain) -> Seq<u8> {
    match x.adobe {
        Some(transform) => segment_bytes(0xee, adobe_contents(transform)),
        None => seq![],
    }
}

/// The segment of a restart interval, if the stream has one.
pub open spec fn restart_part(x: Plain) -> Seq<u8> {
    match x.restart {
        Some(n) => segment_bytes(0xdd, seq![(n / 256) as u8, (n % 256) as u8]),
        None => seq![],
    }
}

/// The bytes of a plain stream.
#[verifier::opaque]
pub open spec fn plain_bytes(x: Plain) -> Seq<u8> {
    seq![0xffu8, 0xd8] + (adobe_part(x) + (segment_bytes(
        0xdb,
        quant_bytes(x.first) + quant_bytes(x.second),
    ) + (restart_part(x) + (segment_bytes(x.marker, frame_contents(x)) + (segment_bytes(
        0xc4,
        code_bytes(0, x.dc) + code_bytes(1, x.ac),
    ) + (segment_bytes(0xda, scan_contents(x)) + data_part(x)))))))
}

/// Whether a quantization table has one of four places and 64 values.
pub open spec fn quant_fits(t: QuantTable) -> bool {
    &&& t.place <= 3
    &&& t.values.len() == (if t.wide {
        128int
    } else {
        64
    })
}

/// Whether a Huffman table has one of four places and as many symbols as it has codes, at
/// most 256, and whether its one-bit code stands for zero.
pub open spec fn zero_coded(t: CodeTable) -> bool {
    &&& t.place <= 3
    &&& t.counts.len() == 16
    &&& t.counts[0] >= 1
    &&& t.values.len() == t.counts.fold_left(0int, |sum: int, n: u8| sum + n)
    &&& t.values.len() <= 256
    &&& t.values[0] == 0
}

/// Whether a stream has two to four components with a name each, tables that fit, a
/// transform that an Adobe segment can name, and the marker of a sequential frame, or three or
/// four components, few zeros, the marker of a progressive frame and up to 99 further scans.
pub open spec fn plain_fits(x: Plain) -> bool {
    &&& x.adobe matches Some(transform) ==> transform <= 2
    &&& quant_fits(x.first)
    &&& quant_fits(x.second)
    &&& x.marker == 0xc0 || x.marker == 0xc1 || x.marker == 0xc2
    &&& x.low <= 13
    &&& x.marker == 0xc2 ==> x.ids.len() >= 3 && x.zeros <= 3
    &&& x.passes.len() <= 99
    &&& x.passes.len() > 0 ==> x.zeros >= 1 && x.restart is None
    &&& forall|i: int| 0 <= i < x.passes.len() ==> #[trigger] pass_fits(x, i)
    &&& 2 <= x.ids.len() <= 4
    &&& forall|i: int, j: int| 0 <= i < j < x.ids.len() ==> x.ids[i] != x.ids[j]
    &&& x.h <= 15
    &&& x.v <= 15
    &&& zero_coded(x.dc)
    &&& zero_coded(x.ac)
    &&& x.zeros + 4000 <= usize::MAX
}

/// Whether `s` stands at `p`.
spec fn stands(b: Seq<u8>, p: int, s: Seq<u8>) -> bool {
    &&& 0 <= p
    &&& p + s.len() <= b.len()
    &&& forall|i: int| 0 <= i < s.len() ==> #[trigger] s[i] == b[p + i]
}

proof fn lemma_split(b: Seq<u8>, p: int, x: Seq<u8>, y: Seq<u8>)
    requires
        stands(b, p, x + y),
    ensures
        stands(b, p, x),
        stands(b, p + x.len(), y),
{
    let whole = x + y;
    assert forall|i: int| 0 <= i < x.len() implies #[trigger] x[i] == b[p + i] by {
        assert(whole[i] == x[i]);
    }
    assert forall|i: int| 0 <= i < y.len() implies #[trigger] y[i] == b[p + x.len() + i] by {
        assert(whole[x.len() + i] == y[i]);
    }
}

/// One segment.
proof fn lemma_over(b: Seq<u8>, p: int, m: u8, contents: Seq<u8>, w: Headers)
    requires
        stands(b, p, segment_bytes(m, contents)),
        contents.len() <= 0xfffd,
        m != 0xff,
        m != 0,
        m != 0xda,
        m != 0xe0,
    ensures
        word(b, p + 2) == contents.len() + 2,
        stands(b, p + 4, contents),
        headers_from(b, p, false, w) == (match segment(b, m, p + 2, w) {
            Some(next) => headers_from(b, p + 4 + contents.len(), false, next),
            None => None,
        }),
{
    let n = contents.len() + 2;
    let head = seq![0xff, m, (n / 256) as u8, (n % 256) as u8];
    lemma_split(b, p, head, contents);
    assert(head[0] == b[p] && head[1] == b[p + 1] && head[2] == b[p + 2] && head[3] == b[p + 3]);
    reveal_with_fuel(headers_from, 3);
}

proof fn lemma_fold(counts: Seq<u8>, b: Seq<u8>, p: int, k: nat)
    requires
        stands(b, p, counts),
        k <= counts.len(),
    ensures
        symbols(b, p, k) == counts.take(k as int).fold_left(0int, |sum: int, n: u8| sum + n),
    decreases k,
{
    let part = counts.take(k as int);
    if k > 0 {
        lemma_fold(counts, b, p, (k - 1) as nat);
        assert(part.drop_last() =~= counts.take(k - 1));
        assert(part.last() == counts[k - 1]);
        assert(counts[k - 1] == b[p + (k - 1)]);
    }
}

/// The sum of numbers is at least the first of them.
proof fn lemma_fold_grows(counts: Seq<u8>)
    requires
        counts.len() >= 1,
    ensures
        counts.fold_left(0int, |sum: int, n: u8| sum + n) >= counts[0],
    decreases counts.len(),
{
    let part = counts.drop_last();
    if counts.len() > 1 {
        lemma_fold_grows(part);
        assert(part[0] == counts[0]);
    } else {
        assert(part =~= seq![]);
        reveal_with_fuel(Seq::fold_left, 2);
    }
}

/// The counts and the first symbol of a table that stands at `p`.
proof fn lemma_table(b: Seq<u8>, p: int, class: int, t: CodeTable)
    requires
        0 <= class <= 1,
        stands(b, p, code_bytes(class, t)),
        zero_coded(t),
    ensures
        b[p] == 16 * class + t.place,
        symbols(b, p + 1, 16) == t.values.len(),
        zero_first(b, p + 1),
        t.values.len() >= 1,
{
    let name = seq![(16 * class + t.place) as u8];
    lemma_split(b, p, name, t.counts + t.values);
    lemma_split(b, p + 1, t.counts, t.values);
    assert(name[0] == b[p + 0]);
    lemma_fold(t.counts, b, p + 1, 16);
    assert(t.counts.take(16) =~= t.counts);
    lemma_fold_grows(t.counts);
    assert(t.counts[0] == b[p + 1 + 0]);
    assert(t.values[0] == b[p + 1 + 16 + 0]);
}

/// The segment of an Adobe marker.
proof fn lemma_adobe(b: Seq<u8>, x: Plain) -> (w: Headers)
    requires
        b.len() <= usize::MAX,
        plain_fits(x),
        stands(b, 2, adobe_part(x)),
        adobe_part(x).len() + 2 < b.len(),
    ensures
        headers_from(b, 2, false, no_headers()) == headers_from(
            b,
            2int + adobe_part(x).len(),
            false,
            w,
        ),
        w.frame is None,
        !w.motion,
        w.todo == 0x7fff_ffff,
        w.interval == 0,
{
    match x.adobe {
        Some(transform) => {
            let contents = adobe_contents(transform);
            let w = Headers { transform, ..no_headers() };
            lemma_over(b, 2, 0xee, contents, no_headers());
            assert(contents[0] == b[6] && contents[1] == b[7] && contents[2] == b[8] && contents[3]
                == b[9] && contents[4] == b[10] && contents[11] == b[17]);
            assert(segment(b, 0xee, 4, no_headers()) == Some(w));
            w
        },
        None => no_headers(),
    }
}

/// The segment of the quantization tables.
proof fn lemma_quants(b: Seq<u8>, p: int, x: Plain, v: Headers) -> (w: Headers)
    requires
        b.len() <= usize::MAX,
        plain_fits(x),
        stands(b, p, segment_bytes(0xdb, quant_bytes(x.first) + quant_bytes(x.second))),
    ensures
        headers_from(b, p, false, v) == headers_from(
            b,
            p + 6 + x.first.values.len() + x.second.values.len(),
            false,
            w,
        ),
        w == (Headers { quant: w.quant, ..v }),
        w.quant.at(x.first.place as int) is Some,
        w.quant.at(x.second.place as int) is Some,
{
    let (one, two) = (quant_bytes(x.first), quant_bytes(x.second));
    lemma_over(b, p, 0xdb, one + two, v);
    lemma_split(b, p + 4, one, two);
    let q = p + 4 + one.len();
    assert(one[0] == b[p + 4 + 0] && two[0] == b[q + 0]);
    let quant = v.quant.with(x.first.place as int, p + 4).with(x.second.place as int, q);
    reveal_with_fuel(quant_tables, 3);
    assert(quant_tables(b, p + 4, (one.len() + two.len()) as int, v.quant) == Some(quant));
    Headers { quant, ..v }
}

/// The segment of a restart interval.
proof fn lemma_restart(b: Seq<u8>, p: int, x: Plain, v: Headers) -> (w: Headers)
    requires
        b.len() <= usize::MAX,
        stands(b, p, restart_part(x)),
    ensures
        headers_from(b, p, false, v) == headers_from(b, p + restart_part(x).len(), false, w),
        w == (Headers { interval: w.interval, todo: w.todo, ..v }),
        w.todo == (match x.restart {
            Some(n) => n as u64,
            None => v.todo,
        }),
        w.interval == (match x.restart {
            Some(n) => n as u64,
            None => v.interval,
        }),
{
    match x.restart {
        Some(n) => {
            let contents = seq![(n / 256) as u8, (n % 256) as u8];
            lemma_over(b, p, 0xdd, contents, v);
            assert(contents[0] == b[p + 4 + 0] && contents[1] == b[p + 4 + 1]);
            let w = Headers { interval: n as u64, todo: n as u64, ..v };
            assert(segment(b, 0xdd, p + 2, v) == Some(w));
            w
        },
        None => v,
    }
}

/// Whether a plain stream is one that the decoder takes the frame header of.
pub open spec fn frame_fits(x: Plain) -> bool {
    &&& 1 <= x.width <= 16384
    &&& 1 <= x.height <= 16384
    &&& x.h == 1 || x.h == 2 || x.h == 4 || x.h == 8
    &&& x.v == 1 || x.v == 2 || x.v == 4 || x.v == 8
}

/// What the frame header at `f` says of a plain stream.
spec fn frame_says(b: Seq<u8>, f: int, x: Plain) -> bool {
    &&& 0 <= f
    &&& f + 8 + 3 * x.ids.len() <= b.len()
    &&& components(b, f) == x.ids.len()
    &&& frame_width(b, f) == x.width
    &&& frame_height(b, f) == x.height
    &&& horizontal(b, f, 0) == x.h
    &&& vertical(b, f, 0) == x.v
    &&& forall|i: int|
        1 <= i < x.ids.len() ==> #[trigger] horizontal(b, f, i) == 1 && vertical(b, f, i) == 1
    &&& forall|i: int| 0 <= i < x.ids.len() ==> b[f + 8 + 3 * i] == #[trigger] x.ids[i]
    &&& b[f + 10] == x.first.place
    &&& forall|i: int| 1 <= i < x.ids.len() ==> #[trigger] b[f + 10 + 3 * i] == x.second.place
}

proof fn lemma_frame_says(b: Seq<u8>, f: int, x: Plain)
    requires
        plain_fits(x),
        2 <= f,
        stands(b, f + 2, frame_contents(x)),
    ensures
        frame_says(b, f, x),
{
    let c = frame_contents(x);
    let n = x.ids.len() as int;
    assert(c[1] == b[f + 2 + 1] && c[2] == b[f + 2 + 2] && c[3] == b[f + 2 + 3] && c[4] == b[f + 2
        + 4] && c[5] == b[f + 2 + 5]);
    assert forall|i: int| 0 <= i < n implies b[f + 8 + 3 * i] == x.ids[i] && b[f + 9 + 3 * i] == (
    if i == 0 {
        (16 * x.h + x.v) as u8
    } else {
        0x11u8
    }) && b[f + 10 + 3 * i] == (if i == 0 {
        x.first.place
    } else {
        x.second.place
    }) by {
        assert(c[6 + 3 * i] == b[f + 2 + (6 + 3 * i)]);
        assert(c[7 + 3 * i] == b[f + 2 + (7 + 3 * i)]);
        assert(c[8 + 3 * i] == b[f + 2 + (8 + 3 * i)]);
        assert((3 * i) / 3 == i && (3 * i + 1) / 3 == i && (3 * i + 2) / 3 == i);
    }
    assert(b[f + 8 + 3 * 0] == x.ids[0]);
    assert forall|i: int| 1 <= i < n implies #[trigger] horizontal(b, f, i) == 1 && vertical(
        b,
        f,
        i,
    ) == 1 by {
        assert(b[f + 8 + 3 * i] == x.ids[i]);
    }
    assert forall|i: int| 1 <= i < n implies #[trigger] b[f + 10 + 3 * i] == x.second.place by {
        assert(b[f + 8 + 3 * i] == x.ids[i]);
    }
}

/// The segment of the frame header.
proof fn lemma_frame(b: Seq<u8>, p: int, x: Plain, v: Headers)
    requires
        b.len() <= usize::MAX,
        plain_fits(x),
        0 <= p,
        v.frame is None,
        stands(b, p, segment_bytes(x.marker, frame_contents(x))),
    ensures
        frame_whole(b, p + 2) == frame_fits(x),
        frame_says(b, p + 2, x),
        !frame_fits(x) ==> headers_from(b, p, false, v) is None,
        frame_fits(x) ==> headers_from(b, p, false, v) == headers_from(
            b,
            p + 10 + 3 * x.ids.len(),
            false,
            Headers {
                frame: Some((p + 2) as usize),
                progressive: x.marker == 0xc2,
                transform: if x.ids.len() == 4 && v.transform == 1 {
                    0
                } else {
                    v.transform
                },
                ..v
            },
        ),
{
    let f = p + 2;
    lemma_over(b, p, x.marker, frame_contents(x), v);
    lemma_frame_says(b, f, x);
    assert(crate::stream::factors_taken(b, f) ==> crate::stream::factor_taken(
        horizontal(b, f, 0),
    ));
    assert forall|i: int| frame_fits(x) && 0 <= i < components(b, f) implies
        crate::stream::factor_taken(#[trigger] horizontal(b, f, i)) && crate::stream::factor_taken(
        vertical(b, f, i),
    ) by {
        if i > 0 {
            assert(horizontal(b, f, i) == 1);
        }
    }
}

/// The segment of the Huffman tables.
proof fn lemma_codes(b: Seq<u8>, p: int, x: Plain, v: Headers) -> (w: Headers)
    requires
        b.len() <= usize::MAX,
        plain_fits(x),
        stands(b, p, segment_bytes(0xc4, code_bytes(0, x.dc) + code_bytes(1, x.ac))),
    ensures
        headers_from(b, p, false, v) == headers_from(
            b,
            p + 38 + x.dc.values.len() + x.ac.values.len(),
            false,
            w,
        ),
        w == (Headers { dc: w.dc, ac: w.ac, ..v }),
        w.dc.at(x.dc.place as int) matches Some(t) && zero_first(b, t as int),
        w.ac.at(x.ac.place as int) matches Some(t) && zero_first(b, t as int),
{
    let (one, two) = (code_bytes(0, x.dc), code_bytes(1, x.ac));
    lemma_over(b, p, 0xc4, one + two, v);
    lemma_split(b, p + 4, one, two);
    let q = p + 4 + one.len();
    lemma_table(b, p + 4, 0, x.dc);
    lemma_table(b, q, 1, x.ac);
    let dc = v.dc.with(x.dc.place as int, p + 5);
    let ac = v.ac.with(x.ac.place as int, q + 1);
    reveal_with_fuel(huffman_tables, 3);
    assert(huffman_tables(b, p + 4, (one.len() + two.len()) as int, v.dc, v.ac) == Some((dc, ac)));
    Headers { dc, ac, ..v }
}

/// What the scan header at `s` says of a plain stream.
spec fn scan_says(b: Seq<u8>, s: int, x: Plain) -> bool {
    &&& scan_whole(b, s)
    &&& scan_components(b, s) == x.ids.len()
    &&& word(b, s) == 6 + 2 * x.ids.len()
    &&& forall|i: int| 0 <= i < x.ids.len() ==> b[s + 3 + 2 * i] == #[trigger] x.ids[i]
    &&& forall|i: int|
        0 <= i < x.ids.len() ==> #[trigger] b[s + 4 + 2 * i] == 16 * x.dc.place + x.ac.place
    &&& b[s + 3 + 2 * x.ids.len()] == 0
    &&& x.marker == 0xc2 ==> b[s + 4 + 2 * x.ids.len()] == 0 && b[s + 5 + 2 * x.ids.len()] == x.low
}

/// The scan header.
proof fn lemma_scan(b: Seq<u8>, p: int, x: Plain, v: Headers)
    requires
        plain_fits(x),
        stands(b, p, segment_bytes(0xda, scan_contents(x))),
    ensures
        headers_from(b, p, false, v) == Some((v, p + 2)),
        scan_says(b, p + 2, x),
{
    let c = scan_contents(x);
    let n = c.len() + 2;
    let head = seq![0xff, 0xda, (n / 256) as u8, (n % 256) as u8];
    lemma_split(b, p, head, c);
    assert(head[0] == b[p] && head[1] == b[p + 1] && head[2] == b[p + 2] && head[3] == b[p + 3]);
    assert(c[0] == b[p + 4 + 0]);
    let k = 2 * x.ids.len() as int;
    assert(c[1 + k] == b[p + 4 + (1 + k)]);
    assert(c[2 + k] == b[p + 4 + (2 + k)]);
    assert(c[3 + k] == b[p + 4 + (3 + k)]);
    reveal_with_fuel(headers_from, 3);
    assert forall|i: int| 0 <= i < x.ids.len() implies b[p + 5 + 2 * i] == x.ids[i] && b[p + 6 + 2
        * i] == 16 * x.dc.place + x.ac.place by {
        assert(c[1 + 2 * i] == b[p + 4 + (1 + 2 * i)]);
        assert(c[2 + 2 * i] == b[p + 4 + (2 + 2 * i)]);
        assert((2 * i) / 2 == i && (2 * i + 1) / 2 == i);
    }
    assert forall|i: int| 0 <= i < x.ids.len() implies b[p + 2 + 3 + 2 * i]
        == #[trigger] x.ids[i] by {
        assert(b[p + 5 + 2 * i] == x.ids[i]);
    }
    assert forall|i: int| 0 <= i < x.ids.len() implies #[trigger] b[p + 2 + 4 + 2 * i] == 16
        * x.dc.place + x.ac.place by {
        assert(b[p + 5 + 2 * i] == x.ids[i]);
    }
}

/// A component is found by its name.
proof fn lemma_named(b: Seq<u8>, f: int, x: Plain, k: int, i: int)
    requires
        plain_fits(x),
        frame_says(b, f, x),
        0 <= i <= k < x.ids.len(),
    ensures
        named(b, f, x.ids[k], i) == Some(k),
    decreases k - i,
{
    assert(b[f + 8 + 3 * i] == x.ids[i]);
    if i < k {
        lemma_named(b, f, x, k, i + 1);
    }
}

/// The scan finds its first `n` components and their tables.
proof fn lemma_parts(b: Seq<u8>, f: int, s: int, x: Plain, w: Headers, n: nat)
    requires
        b.len() <= usize::MAX,
        plain_fits(x),
        frame_says(b, f, x),
        0 <= s,
        scan_says(b, s, x),
        w.quant.at(x.first.place as int) is Some,
        w.quant.at(x.second.place as int) is Some,
        w.dc.at(x.dc.place as int) matches Some(t) && zero_first(b, t as int),
        w.ac.at(x.ac.place as int) matches Some(t) && zero_first(b, t as int),
        n <= x.ids.len(),
    ensures
        parts(b, f, w, s, n) matches Some(found) && found.len() == n && forall|i: int|
            0 <= i < found.len() ==> part_blank(b, #[trigger] found[i]),
    decreases n,
{
    if n > 0 {
        let k = n - 1;
        lemma_parts(b, f, s, x, w, k as nat);
        lemma_named(b, f, x, k, 0);
        assert(b[s + 3 + 2 * k] == x.ids[k]);
        assert(b[s + 4 + 2 * k] == 16 * x.dc.place + x.ac.place);
        assert(k > 0 ==> b[f + 10 + 3 * k] == x.second.place);
        assert(k == 0 ==> b[f + 10 + 3 * k] == x.first.place);
        assert(part(b, f, w, s, k) matches Some(y) && part_blank(b, y));
    }
}

/// The decoder can lay out the frame of a plain stream whose first component is sampled at
/// most twice as densely as the others.
proof fn lemma_plain_frames_are_taken(b: Seq<u8>, f: int, x: Plain, transformed: bool)
    requires
        plain_fits(x),
        frame_says(b, f, x),
        1 <= x.h <= 2,
        1 <= x.v <= 2,
    ensures
        frame_taken(b, f, transformed),
        h_max(b, f) == x.h,
        v_max(b, f) == x.v,
        forall|i: int|
            0 <= i < x.ids.len() ==> #[trigger] row_blocks(b, f, i as nat) == horizontal(b, f, i)
                * crate::progressive::across(b, f),
{
    let (h, v) = (x.h as int, x.v as int);
    assert forall|i: nat| i < x.ids.len() implies #[trigger] widest(b, f, i) == h && tallest(
        b,
        f,
        i,
    ) == v by {
        lemma_first_is_densest(b, f, x, i);
    }
    assert(h / h == 1 && h / 1 == h && v / v == 1 && v / 1 == v);
    let last = (x.ids.len() - 1) as nat;
    assert(widest(b, f, last) == h);
    assert forall|i: nat| i < components(b, f) implies #[trigger] scalable(b, f, i) by {
        assert(widest(b, f, i) == h && widest(b, f, 0) == h);
        if i > 0 {
            assert(horizontal(b, f, i as int) == 1);
        }
        assert(h == 1 || h == 2);
        assert(v == 1 || v == 2);
    }
    assert forall|i: int| 0 <= i < x.ids.len() implies #[trigger] row_blocks(b, f, i as nat)
        == horizontal(b, f, i) * crate::progressive::across(b, f) by {
        assert(widest(b, f, i as nat) == h);
    }
}

proof fn lemma_first_is_densest(b: Seq<u8>, f: int, x: Plain, i: nat)
    requires
        plain_fits(x),
        frame_says(b, f, x),
        1 <= x.h,
        1 <= x.v,
        i < x.ids.len(),
    ensures
        widest(b, f, i) == x.h,
        tallest(b, f, i) == x.v,
    decreases i,
{
    if i > 0 {
        lemma_first_is_densest(b, f, x, (i - 1) as nat);
        assert(horizontal(b, f, i as int) == 1);
    }
}

/// How many steps of the scan a frame takes in one direction.
pub open spec fn step_count(pixels: int, factor: int) -> int {
    (pixels + 8 * factor - 1) / (8 * factor)
}

/// Whether no restart is due within the scan of a plain stream.
pub open spec fn no_restart_is_due(x: Plain) -> bool {
    x.restart matches Some(n) ==> n == 0 || n > step_count(x.width as int, x.h as int) * step_count(
        x.height as int,
        x.v as int,
    )
}

/// What the headers of a plain stream have said in front of its scan.
spec fn headers_say(b: Seq<u8>, f: int, x: Plain, w: Headers) -> bool {
    &&& frame_whole(b, f)
    &&& frame_says(b, f, x)
    &&& w.frame == Some(f as usize)
    &&& w.progressive == (x.marker == 0xc2)
    &&& !w.motion
    &&& x.ids.len() == 4 ==> w.transform != 1
    &&& w.interval == (match x.restart {
        Some(n) => n as u64,
        None => 0,
    })
    &&& w.todo == (match x.restart {
        Some(n) => n as u64,
        None => 0x7fff_ffff,
    })
    &&& w.quant.at(x.first.place as int) is Some
    &&& w.quant.at(x.second.place as int) is Some
    &&& w.dc.at(x.dc.place as int) matches Some(t) && zero_first(b, t as int)
    &&& w.ac.at(x.ac.place as int) matches Some(t) && zero_first(b, t as int)
}

/// The scan of a plain sequential stream.
proof fn lemma_sequential_scan(b: Seq<u8>, f: int, s: int, x: Plain, w: Headers)
    requires
        b.len() <= usize::MAX,
        plain_fits(x),
        frame_fits(x),
        x.h <= 2,
        x.v <= 2,
        x.marker != 0xc2,
        no_restart_is_due(x),
        0 <= s,
        scan_says(b, s, x),
        headers_say(b, f, x, w),
        stands(b, s + 6 + 2 * x.ids.len(), data_part(x)),
        b.len() == s + 6 + 2 * x.ids.len() + data_part(x).len(),
    ensures
        crate::stream::sequential_taken(b, f, w, s),
{
    lemma_parts(b, f, s, x, w, x.ids.len());
    lemma_plain_frames_are_taken(b, f, x, w.transform != 0);
    crate::progressive::lemma_area(b, f, 0);
    let (wide, high) = (crate::progressive::across(b, f), crate::progressive::down(b, f));
    assert(wide == step_count(x.width as int, x.h as int));
    assert(high == step_count(x.height as int, x.v as int));
    crate::stream::lemma_product(wide, high, 2055, 2055);
    let data = data_part(x);
    let q = s + word(b, s);
    assert forall|i: int| q <= i < b.len() implies #[trigger] b[i] == 0 by {
        assert(data[i - q] == b[q + (i - q)]);
    }
    crate::sequential::law_blank_scans_are_read(b, f, w, s, true, wide as nat, high as nat);
}

proof fn lemma_zeros_stand(b: Seq<u8>, p: int, n: nat)
    requires
        stands(b, p, zero_bytes(n)),
    ensures
        forall|i: int| p <= i < p + n ==> #[trigger] b[i] == 0,
{
    assert forall|i: int| p <= i < p + n implies #[trigger] b[i] == 0 by {
        assert(zero_bytes(n)[i - p] == b[p + (i - p)]);
    }
}

/// The further scans of a plain progressive stream, from the `i`th on.
proof fn lemma_passes(b: Seq<u8>, f: int, w: Headers, p: int, x: Plain, i: int)
    requires
        b.len() <= usize::MAX,
        plain_fits(x),
        headers_say(b, f, x, w),
        0 <= i <= x.passes.len(),
        stands(b, p, passes_part(x, i)),
    ensures
        p + 2 <= b.len(),
        b[p] == 0xff,
        b[p + 1] == (if i == x.passes.len() {
            0xd9u8
        } else {
            0xda
        }),
        i < x.passes.len() ==> crate::layered::ac_passes(
            b,
            f,
            w,
            p + 2,
            Seq::new(x.passes.len(), |j: int| x.passes[j].zeros).skip(i),
        ),
    decreases x.passes.len() - i,
{
    let part = passes_part(x, i);
    if i == x.passes.len() {
        assert(part[0] == b[p + 0] && part[1] == b[p + 1]);
    } else {
        let zeros = Seq::new(x.passes.len(), |j: int| x.passes[j].zeros).skip(i);
        let pass = x.passes[i];
        let c = pass_contents(x, i);
        let head = seq![0xffu8, 0xda, 0, 8];
        assert(pass_fits(x, i));
        assert(segment_bytes(0xda, c) =~= head + c);
        lemma_split(
            b,
            p,
            segment_bytes(0xda, c),
            zero_bytes(pass.zeros) + passes_part(x, i + 1),
        );
        lemma_split(b, p, head, c);
        lemma_split(b, p + 10, zero_bytes(pass.zeros), passes_part(x, i + 1));
        lemma_zeros_stand(b, p + 10, pass.zeros);
        lemma_passes(b, f, w, p + 10 + pass.zeros, x, i + 1);
        assert(head[0] == b[p + 0] && head[1] == b[p + 1] && head[2] == b[p + 2] && head[3] == b[p
            + 3]);
        assert(c[0] == b[p + 4 + 0] && c[1] == b[p + 4 + 1] && c[2] == b[p + 4 + 2] && c[3] == b[p
            + 4 + 3] && c[4] == b[p + 4 + 4] && c[5] == b[p + 4 + 5]);
        lemma_named(b, f, x, pass.component as int, 0);
        assert(zeros[0] == pass.zeros);
        assert(zeros.drop_first() =~= Seq::new(
            x.passes.len(),
            |j: int| x.passes[j].zeros,
        ).skip(i + 1));
        assert(crate::layered::ac_header(b, f, w, p + 2));
    }
}

/// The scan of a plain progressive stream.
proof fn lemma_progressive_scan(b: Seq<u8>, f: int, s: int, x: Plain, w: Headers)
    requires
        b.len() <= usize::MAX,
        plain_fits(x),
        frame_fits(x),
        x.h <= 2,
        x.v <= 2,
        x.marker == 0xc2,
        no_restart_is_due(x),
        0 <= s,
        scan_says(b, s, x),
        headers_say(b, f, x, w),
        stands(b, s + 6 + 2 * x.ids.len(), data_part(x)),
    ensures
        crate::stream::progressive_taken(b, f, w, s),
{
    lemma_plain_frames_are_taken(b, f, x, w.transform != 0);
    crate::progressive::lemma_area(b, f, 0);
    let (wide, high) = (crate::progressive::across(b, f), crate::progressive::down(b, f));
    assert(wide == step_count(x.width as int, x.h as int));
    assert(high == step_count(x.height as int, x.v as int));
    let q = s + word(b, s);
    let zeros = Seq::new(x.passes.len(), |i: int| x.passes[i].zeros);
    lemma_split(b, q, zero_bytes(x.zeros), passes_part(x, 0));
    lemma_zeros_stand(b, q, x.zeros);
    lemma_passes(b, f, w, q + x.zeros, x, 0);
    assert(zeros.skip(0) =~= zeros);
    assert forall|k: int| 0 <= k < components(b, f) implies named(
        b,
        f,
        #[trigger] b[s + 3 + 2 * k],
        0,
    ) == Some(k) by {
        assert(b[s + 3 + 2 * k] == x.ids[k]);
        lemma_named(b, f, x, k, 0);
    }
    assert forall|k: int| 0 <= k < components(b, f) implies (w.dc.at(
        #[trigger] b[s + 4 + 2 * k] as int / 16,
    ) matches Some(t) && zero_first(b, t as int)) by {
        assert(b[s + 4 + 2 * k] == 16 * x.dc.place + x.ac.place);
    }
    assert forall|k: int| 0 <= k < components(b, f) implies (#[trigger] b[f + 10 + 3 * k]) <= 3
        && w.quant.at(b[f + 10 + 3 * k] as int) is Some by {
        if k == 0 {
            assert(b[f + 10 + 3 * k] == x.first.place);
        }
    }
    crate::layered::law_blank_layers_are_read(b, f, w, s, x.zeros, zeros);
}

/// A stream of the simplest kind, sequential or progressive, is decodable whatever its size
/// within the decoder's limit of 16384 pixels either way, the number of its components and
/// their names, the places, values and widths of its quantization tables, the places of its
/// Huffman tables and what they hold besides a one-bit code for zero, the number of zeros in
/// its scan, and whether or not an Adobe segment names a color transform or a restart interval
/// is given that is zero or does not end within the scan. A progressive one may have up to a
/// hundred scans. The first component may be sampled twice as densely as the others, across or
/// down or both. Beyond the limit, or with a sampling factor other than 1, 2, 4 and 8, a stream
/// is not decodable.
pub proof fn law_plain_streams_are_decodable(x: Plain)
    requires
        plain_fits(x),
        no_restart_is_due(x),
    ensures
        frame_fits(x) && x.h <= 2 && x.v <= 2 ==> decodable(plain_bytes(x)),
        !frame_fits(x) ==> !decodable(plain_bytes(x)),
{
    let b = plain_bytes(x);
    lemma_plain_stands(x);
    let w = lemma_up_to_the_frame(x);
    if frame_fits(x) && x.h <= 2 && x.v <= 2 {
        lemma_behind_the_frame(b, frame_place(x) + 2, x, w);
    }
}

/// Where the frame header of a plain stream stands.
spec fn frame_place(x: Plain) -> int {
    8int + adobe_part(x).len() + x.first.values.len() + x.second.values.len() + restart_part(x).len()
}

/// The headers of a plain stream, up to its frame and with it.
proof fn lemma_up_to_the_frame(x: Plain) -> (w: Headers)
    requires
        plain_fits(x),
    ensures
        ({
            let b = plain_bytes(x);
            let f = frame_place(x) + 2;
            &&& !frame_fits(x) ==> headers_from(b, 2, false, no_headers()) is None
            &&& frame_fits(x) ==> headers_from(b, 2, false, no_headers()) == headers_from(
                b,
                f + 8 + 3 * x.ids.len(),
                false,
                w,
            )
            &&& frame_whole(b, f) == frame_fits(x)
            &&& frame_says(b, f, x)
            &&& w.frame == Some(f as usize)
            &&& w.progressive == (x.marker == 0xc2)
            &&& !w.motion
            &&& x.ids.len() == 4 ==> w.transform != 1
            &&& w.interval == (match x.restart {
                Some(n) => n as u64,
                None => 0,
            })
            &&& w.todo == (match x.restart {
                Some(n) => n as u64,
                None => 0x7fff_ffff,
            })
            &&& w.quant.at(x.first.place as int) is Some
            &&& w.quant.at(x.second.place as int) is Some
        }),
{
    let b = plain_bytes(x);
    lemma_plain_stands(x);
    let p1 = 2int + adobe_part(x).len();
    let p2 = p1 + 6 + x.first.values.len() + x.second.values.len();
    let w0 = lemma_adobe(b, x);
    let w1 = lemma_quants(b, p1, x, w0);
    let w2 = lemma_restart(b, p2, x, w1);
    lemma_frame(b, frame_place(x), x, w2);
    Headers {
        frame: Some((frame_place(x) + 2) as usize),
        progressive: x.marker == 0xc2,
        transform: if x.ids.len() == 4 && w2.transform == 1 {
            0
        } else {
            w2.transform
        },
        ..w2
    }
}

/// The Huffman tables and the scan of a plain stream with its frame header at `f`.
proof fn lemma_behind_the_frame(b: Seq<u8>, f: int, x: Plain, w: Headers)
    requires
        b.len() <= usize::MAX,
        plain_fits(x),
        no_restart_is_due(x),
        frame_fits(x),
        x.h <= 2,
        x.v <= 2,
        b[0] == 0xff,
        b[1] == 0xd8,
        stands(
            b,
            f + 8 + 3 * x.ids.len(),
            segment_bytes(0xc4, code_bytes(0, x.dc) + code_bytes(1, x.ac)),
        ),
        stands(
            b,
            f + 46 + 3 * x.ids.len() + x.dc.values.len() + x.ac.values.len(),
            segment_bytes(0xda, scan_contents(x)),
        ),
        stands(
            b,
            f + 54 + 5 * x.ids.len() + x.dc.values.len() + x.ac.values.len(),
            data_part(x),
        ),
        b.len() == f + 54 + 5 * x.ids.len() + x.dc.values.len() + x.ac.values.len() + data_part(
            x,
        ).len(),
        headers_from(b, 2, false, no_headers()) == headers_from(
            b,
            f + 8 + 3 * x.ids.len(),
            false,
            w,
        ),
        frame_whole(b, f),
        frame_says(b, f, x),
        w.frame == Some(f as usize),
        w.progressive == (x.marker == 0xc2),
        !w.motion,
        x.ids.len() == 4 ==> w.transform != 1,
        w.interval == (match x.restart {
            Some(n) => n as u64,
            None => 0,
        }),
        w.todo == (match x.restart {
            Some(n) => n as u64,
            None => 0x7fff_ffff,
        }),
        w.quant.at(x.first.place as int) is Some,
        w.quant.at(x.second.place as int) is Some,
    ensures
        decodable(b),
{
    let p = f + 8 + 3 * x.ids.len();
    let q = p + 38 + x.dc.values.len() + x.ac.values.len();
    let v = lemma_codes(b, p, x, w);
    lemma_scan(b, q, x, v);
    assert(headers_say(b, f, x, v));
    if x.marker == 0xc2 {
        lemma_progressive_scan(b, f, q + 2, x, v);
    } else {
        lemma_sequential_scan(b, f, q + 2, x, v);
    }
}

/// The further scans take thirteen bytes each at most.
proof fn lemma_passes_length(x: Plain, i: int)
    requires
        plain_fits(x),
        0 <= i <= x.passes.len(),
    ensures
        passes_part(x, i).len() <= 2 + 13 * (x.passes.len() - i),
    decreases x.passes.len() - i,
{
    if i < x.passes.len() {
        assert(pass_fits(x, i));
        lemma_passes_length(x, i + 1);
    }
}

/// Where the parts of a plain stream stand.
proof fn lemma_plain_stands(x: Plain)
    requires
        plain_fits(x),
    ensures
        ({
            let b = plain_bytes(x);
            let p1 = 2int + adobe_part(x).len();
            let p2 = p1 + 6 + x.first.values.len() + x.second.values.len();
            let p3 = p2 + restart_part(x).len();
            let p4 = p3 + 10 + 3 * x.ids.len();
            let p5 = p4 + 38 + x.dc.values.len() + x.ac.values.len();
            let p6 = p5 + 8 + 2 * x.ids.len();
            &&& b[0] == 0xff
            &&& b[1] == 0xd8
            &&& stands(b, 2, adobe_part(x))
            &&& stands(
                b,
                p1,
                segment_bytes(0xdb, quant_bytes(x.first) + quant_bytes(x.second)),
            )
            &&& stands(b, p2, restart_part(x))
            &&& stands(b, p3, segment_bytes(x.marker, frame_contents(x)))
            &&& stands(b, p4, segment_bytes(0xc4, code_bytes(0, x.dc) + code_bytes(1, x.ac)))
            &&& stands(b, p5, segment_bytes(0xda, scan_contents(x)))
            &&& stands(b, p6, data_part(x))
            &&& b.len() == p6 + data_part(x).len()
            &&& b.len() <= usize::MAX
        }),
{
    reveal(plain_bytes);
    let b = plain_bytes(x);
    let start = seq![0xffu8, 0xd8];
    let end = data_part(x);
    let scan = segment_bytes(0xda, scan_contents(x));
    let codes = segment_bytes(0xc4, code_bytes(0, x.dc) + code_bytes(1, x.ac));
    let frame = segment_bytes(x.marker, frame_contents(x));
    let quants = segment_bytes(0xdb, quant_bytes(x.first) + quant_bytes(x.second));
    let (adobe, restart) = (adobe_part(x), restart_part(x));
    let from5 = scan + end;
    let from4 = codes + from5;
    let from3 = frame + from4;
    let from2 = restart + from3;
    let from1 = quants + from2;
    let from0 = adobe + from1;
    assert(b == start + from0);
    assert(stands(b, 0, b));
    lemma_split(b, 0, start, from0);
    assert(start[0] == b[0] && start[1] == b[1]);
    let p1 = 2int + adobe.len();
    lemma_split(b, 2, adobe, from1);
    lemma_split(b, p1, quants, from2);
    let p2 = p1 + quants.len();
    lemma_split(b, p2, restart, from3);
    let p3 = p2 + restart.len();
    lemma_split(b, p3, frame, from4);
    let p4 = p3 + frame.len();
    lemma_split(b, p4, codes, from5);
    lemma_split(b, p4 + codes.len(), scan, end);
    assert(quants.len() == 6 + x.first.values.len() + x.second.values.len());
    assert(frame.len() == 10 + 3 * x.ids.len());
    assert(codes.len() == 38 + x.dc.values.len() + x.ac.values.len());
    assert(scan.len() == 8 + 2 * x.ids.len());
    assert(adobe.len() <= 16);
    assert(restart.len() <= 6);
    lemma_passes_length(x, 0);
}

} // verus!
