//! The scans of a progressive frame, which fill in its coefficients bit by bit.
//!
//! The coefficients of all components stand in one sequence, plane by plane, block by
//! block. What a later scan holds depends on which of them are zero, so they are read as
//! the decoder reads them.
use crate::bits::{
    amount, byte, byte_from, find_marker, in_data, is_restart, next_marker, number, read_amount, read_number,
    read_symbol, reader_at, refill, refilled, restart, symbol, Reader,
};
use crate::sequential::{
    dc_value, distance, distance_of, do_restart, find_named, named, no_predictions, quant,
    quant_of, read_dc_value, restarted, walking, Predictions, Walk, BLOCK_LIMIT,
};
use crate::stream::{
    components, components_of, frame_height, frame_width, h_max, h_max_of, height_of, horizontal,
    horizontal_of, in_frame, is_scan_whole, lemma_product, row_blocks, row_blocks_of,
    scan_components, scan_whole, segment, segment_at, segment_end, steps, steps_of, v_max,
    v_max_of, vertical, vertical_of, width_of, word, word_at, Headers,
};
use vstd::prelude::*;

verus! {

/// What a progressive scan does to one component.
#[derive(Clone, Copy, Debug, PartialEq, Eq)]
pub struct Layer {
    pub component: usize,
    pub horizontal: u64,
    pub vertical: u64,
    /// Place of the component's first coefficient.
    pub base: u64,
    /// Number of its blocks.
    pub count: u64,
    /// Blocks in one of its rows.
    pub stride: u64,
    /// Places of the counts of its Huffman tables.
    pub dc: Option<usize>,
    pub ac: Option<usize>,
    /// First and last position that the scan holds.
    pub start: u64,
    pub end: u64,
    /// Whether the scan adds a bit to coefficients that are there.
    pub refines: bool,
    /// The weight of the bit.
    pub unit: i64,
}

/// Steps in one row of a frame.
pub open spec fn across(b: Seq<u8>, f: int) -> int {
    steps(frame_width(b, f), 8 * h_max(b, f))
}

/// Rows of steps in a frame.
pub open spec fn down(b: Seq<u8>, f: int) -> int {
    steps(frame_height(b, f), 8 * v_max(b, f))
}

/// Number of blocks of component `i`.
pub open spec fn area(b: Seq<u8>, f: int, i: int) -> int {
    across(b, f) * down(b, f) * horizontal(b, f, i) * vertical(b, f, i)
}

/// Where the coefficients of component `i` begin.
pub open spec fn plane(b: Seq<u8>, f: int, i: nat) -> int
    decreases i,
{
    if i == 0 {
        0
    } else {
        plane(b, f, (i - 1) as nat) + 64 * area(b, f, i - 1)
    }
}

/// The coefficients before the first scan.
pub open spec fn blank_planes(b: Seq<u8>, f: int) -> Seq<i16> {
    Seq::new(plane(b, f, components(b, f) as nat) as nat, |i: int| 0i16)
}

/// Whether a number has 16 bits.
pub open spec fn short(x: int) -> bool {
    -0x8000 <= x <= 0x7fff
}

/// A reader that has a bit to give.
pub open spec fn with_bit(b: Seq<u8>, r: Reader) -> Reader {
    if r.left < 1 {
        refilled(b, r)
    } else {
        r
    }
}

/// Reads the first bits of a DC coefficient.
pub open spec fn dc_first(b: Seq<u8>, x: Layer, walk: Walk, c: Seq<i16>, place: int) -> Option<
    (Walk, Seq<i16>),
> {
    let before = walk.predictions.at(x.component as int) as int;
    match x.dc {
        Some(t) => match dc_value(b, walk.reader, t as int, before) {
            Some((v, reader)) => if short(v * x.unit) {
                let predictions = walk.predictions.with(x.component as int, v);
                Some(
                    (
                        Walk { reader, predictions, ..walk },
                        c.update(place, (v * x.unit) as i16),
                    ),
                )
            } else {
                None
            },
            None => None,
        },
        None => None,
    }
}

/// Reads one bit more of a DC coefficient.
pub open spec fn dc_refined(b: Seq<u8>, x: Layer, walk: Walk, c: Seq<i16>, place: int) -> Option<
    (Walk, Seq<i16>),
> {
    match number(with_bit(b, walk.reader), 1) {
        Some((bit, reader)) => if bit != 1 {
            Some((Walk { reader, ..walk }, c))
        } else if short(c[place] + x.unit) {
            Some((Walk { reader, ..walk }, c.update(place, (c[place] + x.unit) as i16)))
        } else {
            None
        },
        None => None,
    }
}

/// Reads the first bits of the AC coefficients of a block, from position `k` on. Gives
/// back how many blocks behind this one hold nothing.
pub open spec fn ac_first(
    b: Seq<u8>,
    x: Layer,
    t: int,
    r: Reader,
    c: Seq<i16>,
    place: int,
    k: int,
) -> Option<(Reader, u64, Seq<i16>)>
    decreases 96 - k,
{
    match symbol(b, r, t) {
        Some((s, coded)) => if k < 0 || k > 63 {
            None
        } else if s % 16 != 0 {
            match amount(coded, (s % 16) as u64) {
                Some((v, rest)) => {
                    let p = k + s as int / 16;
                    if p > 63 || !short(v * x.unit) {
                        None
                    } else {
                        let filled = c.update(place + p, (v * x.unit) as i16);
                        if p + 1 > x.end {
                            Some((rest, 0, filled))
                        } else {
                            ac_first(b, x, t, rest, filled, place, p + 1)
                        }
                    }
                },
                None => None,
            }
        } else if s == 0xf0 {
            if k + 16 > x.end {
                Some((coded, 0, c))
            } else {
                ac_first(b, x, t, coded, c, place, k + 16)
            }
        } else {
            match number(coded, (s / 16) as u64) {
                Some((more, rest)) => Some(
                    (rest, ((1u64 << (s / 16) as u64) + more - 1) as u64, c),
                ),
                None => None,
            }
        },
        None => None,
    }
}

/// A coefficient with a bit of weight `unit` added, away from zero, where it is asked for
/// and not there yet. `None` where that passes 16 bits.
pub open spec fn corrected(y: i16, bit: u64, unit: i64) -> Option<i16> {
    if bit != 1 || (y + 0x1_0000) / unit as int % 2 != 0 {
        Some(y)
    } else if y >= 0 {
        if short(y + unit) {
            Some((y + unit) as i16)
        } else {
            None
        }
    } else {
        if short(y - unit) {
            Some((y - unit) as i16)
        } else {
            None
        }
    }
}

/// Reads the correction bits of the coefficients from position `k` on, up to the zero
/// that has `run` zeros before it.
pub open spec fn advanced(
    b: Seq<u8>,
    x: Layer,
    r: Reader,
    c: Seq<i16>,
    place: int,
    k: int,
    run: int,
) -> Option<(Reader, Seq<i16>, int)>
    decreases 64 - k,
{
    if k < 0 || k > 63 {
        None
    } else if c[place + k] != 0 {
        match number(r, 1) {
            Some((bit, rest)) => match corrected(c[place + k], bit, x.unit) {
                Some(y) => {
                    let (on, filled) = (with_bit(b, rest), c.update(place + k, y));
                    if k >= x.end {
                        Some((on, filled, k))
                    } else {
                        advanced(b, x, on, filled, place, k + 1, run)
                    }
                },
                None => None,
            },
            None => None,
        }
    } else if run <= 0 || k >= x.end {
        Some((r, c, k))
    } else {
        advanced(b, x, r, c, place, k + 1, run - 1)
    }
}

/// Reads new coefficients and correction bits from position `k` on, up to the end of the
/// block or a run of blank blocks. Gives back the length of the run, which counts this
/// block too, and the position.
pub open spec fn refined(
    b: Seq<u8>,
    x: Layer,
    t: int,
    r: Reader,
    c: Seq<i16>,
    place: int,
    k: int,
) -> Option<(Reader, u64, Seq<i16>, int)>
    decreases 65 - k,
{
    match symbol(b, r, t) {
        Some((s, coded)) => if k < 0 || k > 63 || s % 16 > 1 {
            None
        } else if s % 16 == 0 && s != 0xf0 {
            match number(coded, (s / 16) as u64) {
                Some((more, rest)) => Some((rest, ((1u64 << (s / 16) as u64) + more) as u64, c, k)),
                None => None,
            }
        } else {
            let sign = if s % 16 == 1 {
                number(coded, 1)
            } else {
                Some((2u64, coded))
            };
            match sign {
                Some((bit, signed)) => {
                    let passed = if k <= x.end {
                        advanced(b, x, signed, c, place, k, s as int / 16)
                    } else {
                        Some((signed, c, k))
                    };
                    match passed {
                        Some((on, kept, p)) => {
                            let filled = if bit == 1 {
                                kept.update(place + p, x.unit as i16)
                            } else if bit == 0 {
                                kept.update(place + p, (-x.unit) as i16)
                            } else {
                                kept
                            };
                            if p + 1 > x.end {
                                Some((on, 0, filled, p + 1))
                            } else if k <= p <= 63 {
                                refined(b, x, t, on, filled, place, p + 1)
                            } else {
                                None
                            }
                        },
                        None => None,
                    }
                },
                None => None,
            }
        },
        None => None,
    }
}

/// Reads the correction bits of the coefficients from position `k` on, in a blank block.
pub open spec fn trailing(
    b: Seq<u8>,
    x: Layer,
    r: Reader,
    c: Seq<i16>,
    place: int,
    k: int,
) -> Option<(Reader, Seq<i16>)>
    decreases 64 - k,
{
    if k > x.end || k > 63 || k < 0 {
        Some((r, c))
    } else if c[place + k] != 0 {
        match number(r, 1) {
            Some((bit, rest)) => match corrected(c[place + k], bit, x.unit) {
                Some(y) => trailing(b, x, with_bit(b, rest), c.update(place + k, y), place, k + 1),
                None => None,
            },
            None => None,
        }
    } else {
        trailing(b, x, with_bit(b, r), c, place, k + 1)
    }
}

/// Whether a block has an AC coefficient.
pub open spec fn any_ac(c: Seq<i16>, place: int) -> bool {
    exists|k: int| 1 <= k < 64 && #[trigger] c[place + k] != 0
}

/// Reads one bit more of the AC coefficients of a block.
pub open spec fn ac_refined(b: Seq<u8>, x: Layer, t: int, walk: Walk, c: Seq<i16>, place: int) -> Option<
    (Walk, Seq<i16>),
> {
    let read = if walk.blank == 0 {
        refined(b, x, t, walk.reader, c, place, x.start as int)
    } else {
        Some((walk.reader, walk.blank, c, x.start as int))
    };
    match read {
        Some((reader, blank, kept, k)) => if blank == 0 {
            Some((Walk { reader, blank, ..walk }, kept))
        } else if any_ac(kept, place) {
            match trailing(b, x, refilled(b, reader), kept, place, k) {
                Some((on, filled)) => Some(
                    (Walk { reader: on, blank: (blank - 1) as u64, ..walk }, filled),
                ),
                None => None,
            }
        } else {
            Some((Walk { reader, blank: (blank - 1) as u64, ..walk }, kept))
        },
        None => None,
    }
}

/// Reads what a scan holds of the DC coefficient of block `n`.
pub open spec fn dc_read(b: Seq<u8>, x: Layer, walk: Walk, c: Seq<i16>, n: int) -> Option<
    (Walk, Seq<i16>),
> {
    if n < 0 || n >= x.count {
        None
    } else if x.refines {
        dc_refined(b, x, walk, c, x.base + 64 * n)
    } else {
        dc_first(b, x, walk, c, x.base + 64 * n)
    }
}

/// Reads what a scan of one component holds of block `n`.
pub open spec fn layer_read(b: Seq<u8>, x: Layer, walk: Walk, c: Seq<i16>, n: int) -> Option<
    (Walk, Seq<i16>),
> {
    if x.start == 0 {
        dc_read(b, x, walk, c, n)
    } else if !x.refines && walk.blank > 0 {
        Some((Walk { blank: (walk.blank - 1) as u64, ..walk }, c))
    } else if n < 0 || n >= x.count {
        None
    } else {
        let place = x.base + 64 * n;
        match x.ac {
            Some(t) => if x.refines {
                ac_refined(b, x, t as int, walk, c, place)
            } else {
                match ac_first(b, x, t as int, walk.reader, c, place, x.start as int) {
                    Some((reader, blank, filled)) => Some((Walk { reader, blank, ..walk }, filled)),
                    None => None,
                }
            },
            None => None,
        }
    }
}

/// Counts one step, and restarts where a restart is due.
pub open spec fn counted(b: Seq<u8>, walk: Walk, interval: u64) -> Option<Walk> {
    if interval == 0 {
        Some(walk)
    } else if walk.todo <= 1 {
        restarted(b, walk, interval)
    } else {
        Some(Walk { todo: (walk.todo - 1) as u64, ..walk })
    }
}

/// Reads a scan of one component from block `j` of row `i` on.
pub open spec fn alone(
    b: Seq<u8>,
    x: Layer,
    interval: u64,
    walk: Walk,
    c: Seq<i16>,
    wide: int,
    high: int,
    i: int,
    j: int,
) -> Option<(Walk, Seq<i16>)>
    decreases high - i, wide - j,
{
    if i >= high {
        Some((walk, c))
    } else if j >= wide {
        alone(b, x, interval, walk, c, wide, high, i + 1, 0)
    } else {
        match layer_read(b, x, walk, c, j + i * x.stride) {
            Some((next, filled)) => match counted(b, next, interval) {
                Some(on) => alone(b, x, interval, on, filled, wide, high, i, j + 1),
                None => None,
            },
            None => None,
        }
    }
}

/// Reads the blocks of one component in step `j` of row `i`, from the `n`th on.
pub open spec fn group(
    b: Seq<u8>,
    x: Layer,
    walk: Walk,
    c: Seq<i16>,
    i: int,
    j: int,
    n: int,
) -> Option<(Walk, Seq<i16>)>
    decreases x.horizontal * x.vertical - n,
{
    if n < 0 || n >= x.horizontal * x.vertical {
        Some((walk, c))
    } else {
        let h = x.horizontal as int;
        let at = (j * h + n % h) + (i * x.vertical + n / h) * x.stride;
        match dc_read(b, x, walk, c, at) {
            Some((next, filled)) => group(b, x, next, filled, i, j, n + 1),
            None => None,
        }
    }
}

/// Reads step `j` of row `i`, from component `k` of the scan on.
pub open spec fn groups(
    b: Seq<u8>,
    xs: Seq<Layer>,
    walk: Walk,
    c: Seq<i16>,
    i: int,
    j: int,
    k: int,
) -> Option<(Walk, Seq<i16>)>
    decreases xs.len() - k,
{
    if k < 0 || k >= xs.len() {
        Some((walk, c))
    } else {
        match group(b, xs[k], walk, c, i, j, 0) {
            Some((next, filled)) => groups(b, xs, next, filled, i, j, k + 1),
            None => None,
        }
    }
}

/// Reads a scan of several components from step `j` of row `i` on.
pub open spec fn together(
    b: Seq<u8>,
    xs: Seq<Layer>,
    interval: u64,
    walk: Walk,
    c: Seq<i16>,
    wide: int,
    high: int,
    i: int,
    j: int,
) -> Option<(Walk, Seq<i16>)>
    decreases high - i, wide - j,
{
    if i >= high {
        Some((walk, c))
    } else if j >= wide {
        together(b, xs, interval, walk, c, wide, high, i + 1, 0)
    } else {
        match groups(b, xs, walk, c, i, j, 0) {
            Some((next, filled)) => match counted(b, next, interval) {
                Some(on) => together(b, xs, interval, on, filled, wide, high, i, j + 1),
                None => None,
            },
            None => None,
        }
    }
}

/// What the scan with its header at `s` does to its `k`th component. `None` where the
/// component is missing or a number in the header is too large.
pub open spec fn layer(b: Seq<u8>, f: int, w: Headers, s: int, k: int) -> Option<Layer> {
    let n = scan_components(b, s);
    let (start, end) = (byte(b, s + 3 + 2 * n), byte(b, s + 4 + 2 * n));
    let bits = byte(b, s + 5 + 2 * n);
    match named(b, f, byte(b, s + 3 + 2 * k), 0) {
        Some(i) => if start > 63 || end > 63 || bits as int / 16 > 13 || bits as int % 16 > 13 {
            None
        } else {
            let y = byte(b, s + 4 + 2 * k) as int;
            Some(
                Layer {
                    component: i as usize,
                    horizontal: horizontal(b, f, i) as u64,
                    vertical: vertical(b, f, i) as u64,
                    base: plane(b, f, i as nat) as u64,
                    count: area(b, f, i) as u64,
                    stride: row_blocks(b, f, i as nat) as u64,
                    dc: w.dc.at(y / 16),
                    ac: w.ac.at(y % 16),
                    start: start as u64,
                    end: end as u64,
                    refines: bits as int / 16 != 0,
                    unit: (1u64 << (bits % 16) as u64) as i64,
                },
            )
        },
        None => None,
    }
}

/// What the scan with its header at `s` does to its first `n` components.
pub open spec fn layers(b: Seq<u8>, f: int, w: Headers, s: int, n: nat) -> Option<Seq<Layer>>
    decreases n,
{
    if n == 0 {
        Some(seq![])
    } else {
        match (layers(b, f, w, s, (n - 1) as nat), layer(b, f, w, s, n - 1)) {
            (Some(before), Some(last)) => Some(before.push(last)),
            _ => None,
        }
    }
}

/// Whether the decoder lays a scan of this component alone out by the blocks of the
/// frame, and not by its steps.
pub open spec fn by_blocks(b: Seq<u8>, f: int, x: Layer) -> bool {
    (h_max(b, f) == 1 && v_max(b, f) == 1) || (x.component == 0 && (x.horizontal != 1 || x.vertical
        != 1))
}

/// Reads the scan with its header at `s`.
pub open spec fn scan_read(b: Seq<u8>, f: int, w: Headers, s: int, c: Seq<i16>) -> Option<
    (Walk, Seq<i16>),
> {
    if s < 0 || !scan_whole(b, s) {
        None
    } else {
        match layers(b, f, w, s, scan_components(b, s) as nat) {
            Some(xs) => {
                let walk = Walk {
                    reader: reader_at(s + word(b, s), false),
                    predictions: no_predictions(),
                    todo: w.interval,
                    blank: 0,
                };
                let x = xs[0];
                if xs.len() != 1 {
                    if x.end != 0 {
                        None
                    } else {
                        together(b, xs, w.interval, walk, c, across(b, f), down(b, f), 0, 0)
                    }
                } else if x.start == 0 && x.end != 0 {
                    None
                } else if by_blocks(b, f, x) {
                    let (wide, high) = (steps(frame_width(b, f), 8), steps(frame_height(b, f), 8));
                    alone(b, x, w.interval, walk, c, wide, high, 0, 0)
                } else {
                    alone(b, x, w.interval, walk, c, across(b, f), down(b, f), 0, 0)
                }
            },
            None => None,
        }
    }
}

/// Follows the markers up to the end of the image, from marker `m` on, which stands in
/// front of `p`. `n` scans have been read. Gives back what the segments have said and the
/// coefficients.
pub open spec fn read_on(
    b: Seq<u8>,
    f: int,
    w: Headers,
    c: Seq<i16>,
    m: u8,
    p: int,
    n: nat,
) -> Option<(Headers, Seq<i16>)>
    decreases b.len() - p,
{
    if m == 0xd9 {
        Some((w, c))
    } else if m == 0xda {
        match scan_read(b, f, w, p, c) {
            Some((walk, filled)) => {
                let at = walk.reader.at as int;
                let met = if walk.reader.marker != 0 {
                    Some((walk.reader.marker, at))
                } else {
                    next_marker(b, at)
                };
                match met {
                    Some((next, q)) => if n < 100 && p < q <= b.len() {
                        read_on(b, f, w, filled, next, q, n + 1)
                    } else {
                        None
                    },
                    None => None,
                }
            },
            None => None,
        }
    } else if restart(m) {
        match next_marker(b, p) {
            Some((next, q)) => if p < q <= b.len() {
                read_on(b, f, w, c, next, q, n)
            } else {
                None
            },
            None => None,
        }
    } else {
        match segment(b, m, p, w) {
            Some(said) => match next_marker(b, segment_end(b, m, p)) {
                Some((next, q)) => if p < q <= b.len() {
                    read_on(b, f, said, c, next, q, n)
                } else {
                    None
                },
                None => None,
            },
            None => None,
        }
    }
}

/// Comments, Exif data and the like between the scans of a progressive frame are passed over:
/// what follows is read as if they were not there.
pub proof fn law_segments_between_scans_are_skipped(
    b: Seq<u8>,
    f: int,
    w: Headers,
    c: Seq<i16>,
    m: u8,
    p: int,
    n: nat,
    next: u8,
    q: int,
)
    requires
        m == 0xe1 || m == 0xe2 || m == 0xed || m == 0xfe,
        0 <= p,
        p + 2 <= b.len(),
        b[p] * 256 + b[p + 1] >= 2,
        next_marker(b, p + b[p] * 256 + b[p + 1]) == Some((next, q)),
        p < q <= b.len(),
    ensures
        read_on(b, f, w, c, m, p, n) == read_on(b, f, w, c, next, q, n),
{
}

/// Reads all scans of a progressive frame, the first of which has its header at `s`. The
/// data of the first scan must end with a marker.
pub open spec fn planes_read(b: Seq<u8>, f: int, w: Headers, s: int) -> Option<
    (Headers, Seq<i16>),
> {
    match scan_read(b, f, w, s, blank_planes(b, f)) {
        Some((walk, c)) => if walk.reader.marker == 0 {
            None
        } else {
            read_on(b, f, w, c, walk.reader.marker, walk.reader.at as int, 1)
        },
        None => None,
    }
}

/// The sizes of the first `k` coefficients at `place`, each times its quantization value.
pub open spec fn block_size(b: Seq<u8>, q: int, c: Seq<i16>, place: int, k: nat) -> int
    decreases k,
{
    if k == 0 {
        0
    } else {
        block_size(b, q, c, place, (k - 1) as nat) + distance(c[place + k - 1] as int) * quant(
            b,
            q,
            k - 1,
        )
    }
}

/// Whether block `n` of the plane at `base` stays within [`BLOCK_LIMIT`].
pub open spec fn block_tame(b: Seq<u8>, q: int, c: Seq<i16>, base: int, n: int) -> bool {
    block_size(b, q, c, base + 64 * n, 64) <= BLOCK_LIMIT
}

/// Whether the `count` blocks of the plane at `base` stay within [`BLOCK_LIMIT`].
pub open spec fn blocks_tame(b: Seq<u8>, q: int, c: Seq<i16>, base: int, count: int) -> bool {
    forall|n: int| 0 <= n < count ==> #[trigger] block_tame(b, q, c, base, n)
}

/// Whether every block of component `i` stays within [`BLOCK_LIMIT`].
pub open spec fn plane_tame(b: Seq<u8>, f: int, w: Headers, c: Seq<i16>, i: int) -> bool {
    let id = byte(b, f + 10 + 3 * i);
    match w.quant.at(id as int) {
        Some(q) => id <= 3 && blocks_tame(
            b,
            q as int,
            c,
            plane(b, f, i as nat),
            area(b, f, i),
        ),
        None => false,
    }
}

/// Whether every block of every component stays within [`BLOCK_LIMIT`].
pub open spec fn planes_tame(b: Seq<u8>, f: int, w: Headers, c: Seq<i16>) -> bool {
    forall|i: int| 0 <= i < components(b, f) ==> #[trigger] plane_tame(b, f, w, c, i)
}

/// A layer whose numbers are in range, of coefficients that are all there.
pub open spec fn sound(x: Layer, c: Seq<i16>) -> bool {
    &&& 1 <= x.unit <= 0x2000
    &&& x.start <= 63
    &&& x.end <= 63
    &&& x.base + 64 * x.count <= c.len()
    &&& x.stride <= 0x8_0000
    &&& 1 <= x.horizontal <= 8
    &&& 1 <= x.vertical <= 8
}

fn is_short(x: i64) -> (r: bool)
    ensures
        r == short(x as int),
{
    -0x8000 <= x && x <= 0x7fff
}

fn have_bit(b: &[u8], r: Reader) -> (s: Reader)
    requires
        in_data(b@, r),
    ensures
        s == with_bit(b@, r),
        in_data(b@, s),
{
    if r.left < 1 {
        refill(b, r)
    } else {
        r
    }
}

proof fn lemma_scaled(v: int, unit: int)
    requires
        -0x1_0000 <= v <= 0x1_0000,
        0 <= unit <= 0x2000,
    ensures
        -0x2000_0000 <= v * unit <= 0x2000_0000,
{
    assert(-0x2000_0000 <= v * unit <= 0x2000_0000) by (nonlinear_arith)
        requires
            -0x1_0000 <= v <= 0x1_0000,
            0 <= unit <= 0x2000,
    ;
}

fn read_dc_first(b: &[u8], x: Layer, walk: Walk, c: &mut Vec<i16>, place: usize) -> (r: Option<Walk>)
    requires
        walking(b@, walk),
        sound(x, old(c)@),
        place < old(c)@.len(),
    ensures
        final(c)@.len() == old(c)@.len(),
        r is None ==> dc_first(b@, x, walk, old(c)@, place as int) is None,
        r matches Some(next) ==> dc_first(b@, x, walk, old(c)@, place as int) == Some(
            (next, final(c)@),
        ),
        r matches Some(next) ==> walking(b@, next),
{
    let t = match x.dc {
        Some(t) => t,
        None => return None,
    };
    let before = walk.predictions.of(x.component);
    let (v, reader) = match read_dc_value(b, walk.reader, t, before) {
        Some(found) => found,
        None => return None,
    };
    proof {
        lemma_scaled(v as int, x.unit as int);
    }
    let y: i64 = v * x.unit;
    if !is_short(y) {
        return None;
    }
    c[place] = y as i16;
    Some(Walk { reader, predictions: walk.predictions.changed(x.component, v), ..walk })
}

fn read_dc_refined(b: &[u8], x: Layer, walk: Walk, c: &mut Vec<i16>, place: usize) -> (r: Option<
    Walk,
>)
    requires
        walking(b@, walk),
        sound(x, old(c)@),
        place < old(c)@.len(),
    ensures
        final(c)@.len() == old(c)@.len(),
        r is None ==> dc_refined(b@, x, walk, old(c)@, place as int) is None,
        r matches Some(next) ==> dc_refined(b@, x, walk, old(c)@, place as int) == Some(
            (next, final(c)@),
        ),
        r matches Some(next) ==> walking(b@, next),
{
    let (bit, reader) = match read_number(have_bit(b, walk.reader), 1) {
        Some(found) => found,
        None => return None,
    };
    if bit == 1 {
        let y: i64 = c[place] as i64 + x.unit;
        if !is_short(y) {
            return None;
        }
        c[place] = y as i16;
    }
    Some(Walk { reader, ..walk })
}

fn read_run(r: Reader, n: u64) -> (s: Option<(u64, Reader)>)
    requires
        r.left <= 63,
        n <= 14,
    ensures
        match s {
            Some((run, rest)) => number(r, n) matches Some((more, other)) && run == (1u64 << n)
                + more && other == rest && 1 <= run <= 0x2_0000 && rest.at == r.at && rest.left
                <= r.left,
            None => number(r, n) is None,
        },
{
    match read_number(r, n) {
        Some((more, rest)) => {
            assert(1 <= 1u64 << n <= 0x4000) by (bit_vector)
                requires
                    n <= 14,
            ;
            Some(((1u64 << n) + more, rest))
        },
        None => None,
    }
}

fn read_ac_first(
    b: &[u8],
    x: Layer,
    t: usize,
    start: Reader,
    c: &mut Vec<i16>,
    place: usize,
) -> (r: Option<(Reader, u64)>)
    requires
        in_data(b@, start),
        sound(x, old(c)@),
        place + 64 <= old(c)@.len(),
    ensures
        final(c)@.len() == old(c)@.len(),
        r is None ==> ac_first(b@, x, t as int, start, old(c)@, place as int, x.start as int) is None,
        r matches Some((reader, blank)) ==> ac_first(
            b@,
            x,
            t as int,
            start,
            old(c)@,
            place as int,
            x.start as int,
        ) == Some((reader, blank, final(c)@)),
        r matches Some((reader, blank)) ==> in_data(b@, reader),
{
    let len: usize = c.len();
    let mut reader = start;
    let mut k: usize = x.start as usize;
    loop
        invariant
            k <= 63,
            in_data(b@, reader),
            sound(x, c@),
            c@.len() == old(c)@.len(),
            len == c@.len(),
            place + 64 <= c@.len(),
            ac_first(b@, x, t as int, start, old(c)@, place as int, x.start as int) == ac_first(
                b@,
                x,
                t as int,
                reader,
                c@,
                place as int,
                k as int,
            ),
        decreases 96 - k,
    {
        let (s, coded) = match read_symbol(b, reader, t) {
            Some(found) => found,
            None => return None,
        };
        if s % 16 != 0 {
            let (v, rest) = match read_amount(coded, (s % 16) as u64) {
                Some(found) => found,
                None => return None,
            };
            proof {
                lemma_scaled(v as int, x.unit as int);
            }
            let p: usize = k + (s / 16) as usize;
            let y: i64 = v * x.unit;
            if p > 63 || !is_short(y) {
                return None;
            }
            c[place + p] = y as i16;
            if p as u64 + 1 > x.end {
                return Some((rest, 0));
            }
            reader = rest;
            k = p + 1;
        } else if s == 0xf0 {
            if k as u64 + 16 > x.end {
                return Some((coded, 0));
            }
            reader = coded;
            k = k + 16;
        } else {
            return match read_run(coded, (s / 16) as u64) {
                Some((run, rest)) => Some((rest, run - 1)),
                None => None,
            };
        }
    }
}

fn correct(y: i16, bit: u64, unit: i64) -> (r: Option<i16>)
    requires
        1 <= unit <= 0x2000,
    ensures
        r == corrected(y, bit, unit),
{
    if bit != 1 || (y as i64 + 0x1_0000) / unit % 2 != 0 {
        return Some(y);
    }
    let z: i64 = if y >= 0 {
        y as i64 + unit
    } else {
        y as i64 - unit
    };
    if is_short(z) {
        Some(z as i16)
    } else {
        None
    }
}

fn advance(
    b: &[u8],
    x: Layer,
    start: Reader,
    c: &mut Vec<i16>,
    place: usize,
    from: usize,
    zeros: u64,
) -> (r: Option<(Reader, usize)>)
    requires
        in_data(b@, start),
        sound(x, old(c)@),
        place + 64 <= old(c)@.len(),
        from <= x.end,
    ensures
        final(c)@.len() == old(c)@.len(),
        r is None ==> advanced(
            b@,
            x,
            start,
            old(c)@,
            place as int,
            from as int,
            zeros as int,
        ) is None,
        r matches Some((reader, k)) ==> advanced(
            b@,
            x,
            start,
            old(c)@,
            place as int,
            from as int,
            zeros as int,
        ) == Some((reader, final(c)@, k as int)),
        r matches Some((reader, k)) ==> in_data(b@, reader) && from <= k <= 63,
{
    let len: usize = c.len();
    let mut reader = start;
    let mut k: usize = from;
    let mut run: u64 = zeros;
    loop
        invariant
            from <= k <= x.end,
            in_data(b@, reader),
            sound(x, c@),
            c@.len() == old(c)@.len(),
            len == c@.len(),
            place + 64 <= c@.len(),
            advanced(b@, x, start, old(c)@, place as int, from as int, zeros as int) == advanced(
                b@,
                x,
                reader,
                c@,
                place as int,
                k as int,
                run as int,
            ),
        decreases 64 - k,
    {
        let y: i16 = c[place + k];
        if y != 0 {
            let (bit, rest) = match read_number(reader, 1) {
                Some(found) => found,
                None => return None,
            };
            let z = match correct(y, bit, x.unit) {
                Some(z) => z,
                None => return None,
            };
            c[place + k] = z;
            reader = have_bit(b, rest);
            if k as u64 >= x.end {
                return Some((reader, k));
            }
        } else {
            if run == 0 || k as u64 >= x.end {
                return Some((reader, k));
            }
            run = run - 1;
        }
        k = k + 1;
    }
}

fn read_refined(
    b: &[u8],
    x: Layer,
    t: usize,
    start: Reader,
    c: &mut Vec<i16>,
    place: usize,
) -> (r: Option<(Reader, u64, usize)>)
    requires
        in_data(b@, start),
        sound(x, old(c)@),
        place + 64 <= old(c)@.len(),
    ensures
        final(c)@.len() == old(c)@.len(),
        r is None ==> refined(b@, x, t as int, start, old(c)@, place as int, x.start as int) is None,
        r matches Some((reader, blank, k)) ==> refined(
            b@,
            x,
            t as int,
            start,
            old(c)@,
            place as int,
            x.start as int,
        ) == Some((reader, blank, final(c)@, k as int)),
        r matches Some((reader, blank, k)) ==> in_data(b@, reader) && k <= 64,
{
    let len: usize = c.len();
    let mut reader = start;
    let mut k: usize = x.start as usize;
    loop
        invariant
            k <= 63,
            in_data(b@, reader),
            sound(x, c@),
            c@.len() == old(c)@.len(),
            len == c@.len(),
            place + 64 <= c@.len(),
            refined(b@, x, t as int, start, old(c)@, place as int, x.start as int) == refined(
                b@,
                x,
                t as int,
                reader,
                c@,
                place as int,
                k as int,
            ),
        decreases 64 - k,
    {
        let (s, coded) = match read_symbol(b, reader, t) {
            Some(found) => found,
            None => return None,
        };
        if s % 16 > 1 {
            return None;
        }
        if s % 16 == 0 && s != 0xf0 {
            return match read_run(coded, (s / 16) as u64) {
                Some((run, rest)) => Some((rest, run, k)),
                None => None,
            };
        }
        let (bit, signed): (u64, Reader) = if s % 16 == 1 {
            match read_number(coded, 1) {
                Some(found) => found,
                None => return None,
            }
        } else {
            (2, coded)
        };
        let (on, p) = if k as u64 <= x.end {
            match advance(b, x, signed, c, place, k, (s / 16) as u64) {
                Some(passed) => passed,
                None => return None,
            }
        } else {
            (signed, k)
        };
        if bit == 1 {
            c[place + p] = x.unit as i16;
        } else if bit == 0 {
            c[place + p] = (-x.unit) as i16;
        }
        if p as u64 + 1 > x.end {
            return Some((on, 0, p + 1));
        }
        reader = on;
        k = p + 1;
    }
}

fn read_trailing(
    b: &[u8],
    x: Layer,
    start: Reader,
    c: &mut Vec<i16>,
    place: usize,
    from: usize,
) -> (r: Option<Reader>)
    requires
        in_data(b@, start),
        sound(x, old(c)@),
        place + 64 <= old(c)@.len(),
        from <= 64,
    ensures
        final(c)@.len() == old(c)@.len(),
        r is None ==> trailing(b@, x, start, old(c)@, place as int, from as int) is None,
        r matches Some(reader) ==> trailing(b@, x, start, old(c)@, place as int, from as int)
            == Some((reader, final(c)@)),
        r matches Some(reader) ==> in_data(b@, reader),
{
    let len: usize = c.len();
    let mut reader = start;
    let mut k: usize = from;
    while k as u64 <= x.end
        invariant
            k <= 64,
            in_data(b@, reader),
            sound(x, c@),
            c@.len() == old(c)@.len(),
            len == c@.len(),
            place + 64 <= c@.len(),
            trailing(b@, x, start, old(c)@, place as int, from as int) == trailing(
                b@,
                x,
                reader,
                c@,
                place as int,
                k as int,
            ),
        decreases 64 - k,
    {
        let y: i16 = c[place + k];
        if y != 0 {
            let (bit, rest) = match read_number(reader, 1) {
                Some(found) => found,
                None => return None,
            };
            let z = match correct(y, bit, x.unit) {
                Some(z) => z,
                None => return None,
            };
            c[place + k] = z;
            reader = have_bit(b, rest);
        } else {
            reader = have_bit(b, reader);
        }
        k = k + 1;
    }
    Some(reader)
}

fn has_ac(c: &Vec<i16>, place: usize) -> (r: bool)
    requires
        place + 64 <= c@.len(),
    ensures
        r == any_ac(c@, place as int),
{
    let len: usize = c.len();
    let mut k: usize = 1;
    while k < 64
        invariant
            1 <= k <= 64,
            len == c@.len(),
            place + 64 <= c@.len(),
            forall|j: int| 1 <= j < k ==> #[trigger] c@[place + j] == 0,
        decreases 64 - k,
    {
        if c[place + k] != 0 {
            assert(c@[place + k as int] != 0);
            return true;
        }
        k = k + 1;
    }
    false
}

fn read_ac_refined(
    b: &[u8],
    x: Layer,
    t: usize,
    walk: Walk,
    c: &mut Vec<i16>,
    place: usize,
) -> (r: Option<Walk>)
    requires
        walking(b@, walk),
        sound(x, old(c)@),
        place + 64 <= old(c)@.len(),
    ensures
        final(c)@.len() == old(c)@.len(),
        r is None ==> ac_refined(b@, x, t as int, walk, old(c)@, place as int) is None,
        r matches Some(next) ==> ac_refined(b@, x, t as int, walk, old(c)@, place as int) == Some(
            (next, final(c)@),
        ),
        r matches Some(next) ==> walking(b@, next),
{
    let (reader, blank, k): (Reader, u64, usize) = if walk.blank == 0 {
        match read_refined(b, x, t, walk.reader, c, place) {
            Some(found) => found,
            None => return None,
        }
    } else {
        (walk.reader, walk.blank, x.start as usize)
    };
    if blank == 0 {
        return Some(Walk { reader, blank, ..walk });
    }
    if has_ac(c, place) {
        match read_trailing(b, x, refill(b, reader), c, place, k) {
            Some(on) => Some(Walk { reader: on, blank: blank - 1, ..walk }),
            None => None,
        }
    } else {
        Some(Walk { reader, blank: blank - 1, ..walk })
    }
}

fn read_dc(b: &[u8], x: Layer, walk: Walk, c: &mut Vec<i16>, n: u64) -> (r: Option<Walk>)
    requires
        walking(b@, walk),
        sound(x, old(c)@),
    ensures
        final(c)@.len() == old(c)@.len(),
        r is None ==> dc_read(b@, x, walk, old(c)@, n as int) is None,
        r matches Some(next) ==> dc_read(b@, x, walk, old(c)@, n as int) == Some(
            (next, final(c)@),
        ),
        r matches Some(next) ==> walking(b@, next),
{
    let len: usize = c.len();
    if n >= x.count {
        return None;
    }
    let place: usize = (x.base + 64 * n) as usize;
    if x.refines {
        read_dc_refined(b, x, walk, c, place)
    } else {
        read_dc_first(b, x, walk, c, place)
    }
}

fn read_layer(b: &[u8], x: Layer, walk: Walk, c: &mut Vec<i16>, n: u64) -> (r: Option<Walk>)
    requires
        walking(b@, walk),
        sound(x, old(c)@),
    ensures
        final(c)@.len() == old(c)@.len(),
        r is None ==> layer_read(b@, x, walk, old(c)@, n as int) is None,
        r matches Some(next) ==> layer_read(b@, x, walk, old(c)@, n as int) == Some(
            (next, final(c)@),
        ),
        r matches Some(next) ==> walking(b@, next),
{
    let len: usize = c.len();
    if x.start == 0 {
        return read_dc(b, x, walk, c, n);
    }
    if !x.refines && walk.blank > 0 {
        return Some(Walk { blank: walk.blank - 1, ..walk });
    }
    if n >= x.count {
        return None;
    }
    let place: usize = (x.base + 64 * n) as usize;
    let t = match x.ac {
        Some(t) => t,
        None => return None,
    };
    if x.refines {
        read_ac_refined(b, x, t, walk, c, place)
    } else {
        match read_ac_first(b, x, t, walk.reader, c, place) {
            Some((reader, blank)) => Some(Walk { reader, blank, ..walk }),
            None => None,
        }
    }
}

fn count_step(b: &[u8], walk: Walk, interval: u64) -> (r: Option<Walk>)
    requires
        walking(b@, walk),
    ensures
        r == counted(b@, walk, interval),
        r matches Some(next) ==> walking(b@, next),
{
    if interval == 0 {
        Some(walk)
    } else if walk.todo <= 1 {
        do_restart(b, walk, interval)
    } else {
        Some(Walk { todo: walk.todo - 1, ..walk })
    }
}

fn read_alone(
    b: &[u8],
    x: Layer,
    interval: u64,
    start: Walk,
    c: &mut Vec<i16>,
    wide: u64,
    high: u64,
) -> (r: Option<Walk>)
    requires
        walking(b@, start),
        sound(x, old(c)@),
        wide <= 0x4000,
        high <= 0x4000,
    ensures
        final(c)@.len() == old(c)@.len(),
        r is None ==> alone(b@, x, interval, start, old(c)@, wide as int, high as int, 0, 0) is None,
        r matches Some(next) ==> alone(
            b@,
            x,
            interval,
            start,
            old(c)@,
            wide as int,
            high as int,
            0,
            0,
        ) == Some((next, final(c)@)),
        r matches Some(next) ==> walking(b@, next),
{
    let mut walk = start;
    let mut i: u64 = 0;
    while i < high
        invariant
            i <= high <= 0x4000,
            wide <= 0x4000,
            walking(b@, walk),
            sound(x, c@),
            c@.len() == old(c)@.len(),
            alone(b@, x, interval, start, old(c)@, wide as int, high as int, 0, 0) == alone(
                b@,
                x,
                interval,
                walk,
                c@,
                wide as int,
                high as int,
                i as int,
                0,
            ),
        decreases high - i,
    {
        let mut j: u64 = 0;
        while j < wide
            invariant
                i < high <= 0x4000,
                j <= wide <= 0x4000,
                walking(b@, walk),
                sound(x, c@),
                c@.len() == old(c)@.len(),
                alone(b@, x, interval, start, old(c)@, wide as int, high as int, 0, 0) == alone(
                    b@,
                    x,
                    interval,
                    walk,
                    c@,
                    wide as int,
                    high as int,
                    i as int,
                    j as int,
                ),
            decreases wide - j,
        {
            proof {
                lemma_product(i as int, x.stride as int, 0x4000, 0x8_0000);
            }
            let next = match read_layer(b, x, walk, c, j + i * x.stride) {
                Some(next) => next,
                None => return None,
            };
            walk = match count_step(b, next, interval) {
                Some(on) => on,
                None => return None,
            };
            j = j + 1;
        }
        i = i + 1;
    }
    Some(walk)
}

fn read_group(b: &[u8], x: Layer, start: Walk, c: &mut Vec<i16>, i: u64, j: u64) -> (r: Option<
    Walk,
>)
    requires
        walking(b@, start),
        sound(x, old(c)@),
        i <= 0x4000,
        j <= 0x4000,
    ensures
        final(c)@.len() == old(c)@.len(),
        r is None ==> group(b@, x, start, old(c)@, i as int, j as int, 0) is None,
        r matches Some(next) ==> group(b@, x, start, old(c)@, i as int, j as int, 0) == Some(
            (next, final(c)@),
        ),
        r matches Some(next) ==> walking(b@, next),
{
    let mut walk = start;
    let mut n: u64 = 0;
    let (h, v) = (x.horizontal, x.vertical);
    proof {
        lemma_product(h as int, v as int, 8, 8);
    }
    while n < h * v
        invariant
            h == x.horizontal,
            v == x.vertical,
            0 <= h * v <= 64,
            n <= 64,
            i <= 0x4000,
            j <= 0x4000,
            walking(b@, walk),
            sound(x, c@),
            c@.len() == old(c)@.len(),
            group(b@, x, start, old(c)@, i as int, j as int, 0) == group(
                b@,
                x,
                walk,
                c@,
                i as int,
                j as int,
                n as int,
            ),
        decreases 64 - n,
    {
        proof {
            lemma_product(j as int, h as int, 0x4000, 8);
            lemma_product(i as int, v as int, 0x4000, 8);
            vstd::arithmetic::div_mod::lemma_div_is_ordered_by_denominator(n as int, 1, h as int);
            lemma_product(i * v + n as int / h as int, x.stride as int, 0x4_0000, 0x8_0000);
        }
        let at: u64 = (j * h + n % h) + (i * v + n / h) * x.stride;
        walk = match read_dc(b, x, walk, c, at) {
            Some(next) => next,
            None => return None,
        };
        n = n + 1;
    }
    Some(walk)
}

fn read_groups(b: &[u8], xs: &Vec<Layer>, start: Walk, c: &mut Vec<i16>, i: u64, j: u64) -> (r:
    Option<Walk>)
    requires
        walking(b@, start),
        forall|k: int| 0 <= k < xs@.len() ==> sound(#[trigger] xs@[k], old(c)@),
        i <= 0x4000,
        j <= 0x4000,
    ensures
        final(c)@.len() == old(c)@.len(),
        r is None ==> groups(b@, xs@, start, old(c)@, i as int, j as int, 0) is None,
        r matches Some(next) ==> groups(b@, xs@, start, old(c)@, i as int, j as int, 0) == Some(
            (next, final(c)@),
        ),
        r matches Some(next) ==> walking(b@, next),
{
    let mut walk = start;
    let mut k: usize = 0;
    while k < xs.len()
        invariant
            k <= xs@.len(),
            i <= 0x4000,
            j <= 0x4000,
            walking(b@, walk),
            forall|k: int| 0 <= k < xs@.len() ==> sound(#[trigger] xs@[k], c@),
            c@.len() == old(c)@.len(),
            groups(b@, xs@, start, old(c)@, i as int, j as int, 0) == groups(
                b@,
                xs@,
                walk,
                c@,
                i as int,
                j as int,
                k as int,
            ),
        decreases xs@.len() - k,
    {
        walk = match read_group(b, xs[k], walk, c, i, j) {
            Some(next) => next,
            None => return None,
        };
        k = k + 1;
    }
    Some(walk)
}

fn read_together(
    b: &[u8],
    xs: &Vec<Layer>,
    interval: u64,
    start: Walk,
    c: &mut Vec<i16>,
    wide: u64,
    high: u64,
) -> (r: Option<Walk>)
    requires
        walking(b@, start),
        forall|k: int| 0 <= k < xs@.len() ==> sound(#[trigger] xs@[k], old(c)@),
        wide <= 0x4000,
        high <= 0x4000,
    ensures
        final(c)@.len() == old(c)@.len(),
        r is None ==> together(b@, xs@, interval, start, old(c)@, wide as int, high as int, 0, 0)
            is None,
        r matches Some(next) ==> together(
            b@,
            xs@,
            interval,
            start,
            old(c)@,
            wide as int,
            high as int,
            0,
            0,
        ) == Some((next, final(c)@)),
        r matches Some(next) ==> walking(b@, next),
{
    let mut walk = start;
    let mut i: u64 = 0;
    while i < high
        invariant
            i <= high <= 0x4000,
            wide <= 0x4000,
            walking(b@, walk),
            forall|k: int| 0 <= k < xs@.len() ==> sound(#[trigger] xs@[k], c@),
            c@.len() == old(c)@.len(),
            together(b@, xs@, interval, start, old(c)@, wide as int, high as int, 0, 0) == together(
                b@,
                xs@,
                interval,
                walk,
                c@,
                wide as int,
                high as int,
                i as int,
                0,
            ),
        decreases high - i,
    {
        let mut j: u64 = 0;
        while j < wide
            invariant
                i < high <= 0x4000,
                j <= wide <= 0x4000,
                walking(b@, walk),
                forall|k: int| 0 <= k < xs@.len() ==> sound(#[trigger] xs@[k], c@),
                c@.len() == old(c)@.len(),
                together(b@, xs@, interval, start, old(c)@, wide as int, high as int, 0, 0)
                    == together(
                    b@,
                    xs@,
                    interval,
                    walk,
                    c@,
                    wide as int,
                    high as int,
                    i as int,
                    j as int,
                ),
            decreases wide - j,
        {
            let next = match read_groups(b, xs, walk, c, i, j) {
                Some(next) => next,
                None => return None,
            };
            walk = match count_step(b, next, interval) {
                Some(on) => on,
                None => return None,
            };
            j = j + 1;
        }
        i = i + 1;
    }
    Some(walk)
}

/// No factor is larger than the largest.
proof fn lemma_largest(b: Seq<u8>, f: int, i: nat, n: nat)
    requires
        i <= n,
    ensures
        horizontal(b, f, i as int) <= crate::stream::widest(b, f, n),
        vertical(b, f, i as int) <= crate::stream::tallest(b, f, n),
    decreases n,
{
    if i < n {
        lemma_largest(b, f, i, (n - 1) as nat);
    }
}

/// The blocks of a component have few more pixels across than the frame.
proof fn lemma_span(n: int, h: int, most: int)
    requires
        1 <= n <= 0x4000,
        1 <= h <= most <= 8,
    ensures
        1 <= steps(n, 8 * most) * h <= 2055,
{
    let k = steps(n, 8 * most);
    vstd::arithmetic::div_mod::lemma_fundamental_div_mod(n + 8 * most - 1, 8 * most);
    assert(1 <= k * h <= 2055) by (nonlinear_arith)
        requires
            n + 8 * most - 1 == 8 * most * k + (n + 8 * most - 1) % (8 * most),
            0 <= (n + 8 * most - 1) % (8 * most) < 8 * most,
            1 <= n <= 0x4000,
            1 <= h <= most <= 8,
    ;
}

pub(crate) proof fn lemma_area(b: Seq<u8>, f: int, i: nat)
    requires
        in_frame(b, f),
        i < components(b, f),
    ensures
        1 <= area(b, f, i as int) <= 2055 * 2055,
        1 <= across(b, f) <= 2055,
        1 <= down(b, f) <= 2055,
{
    let (h, v) = (horizontal(b, f, i as int), vertical(b, f, i as int));
    let (a, d) = (across(b, f), down(b, f));
    let last = (components(b, f) - 1) as nat;
    lemma_factors(b, f, last);
    lemma_factors(b, f, i);
    lemma_largest(b, f, i, last);
    lemma_span(frame_width(b, f), h, h_max(b, f));
    lemma_span(frame_height(b, f), v, v_max(b, f));
    assert(a * d * h * v == (a * h) * (d * v)) by (nonlinear_arith);
    lemma_product(a * h, d * v, 2055, 2055);
    lemma_product(1, 1, a * h, d * v);
    assert(1 <= a <= a * h && 1 <= d <= d * v) by (nonlinear_arith)
        requires
            1 <= a * h,
            1 <= d * v,
            1 <= h,
            1 <= v,
    ;
}

proof fn lemma_factors(b: Seq<u8>, f: int, i: nat)
    requires
        in_frame(b, f),
        i < components(b, f),
    ensures
        1 <= horizontal(b, f, i as int) <= 8,
        1 <= vertical(b, f, i as int) <= 8,
        1 <= crate::stream::widest(b, f, i) <= 8,
        1 <= crate::stream::tallest(b, f, i) <= 8,
    decreases i,
{
    assert(crate::stream::factor_taken(horizontal(b, f, i as int)));
    if i > 0 {
        lemma_factors(b, f, (i - 1) as nat);
    }
}

/// The plane of a component ends where those behind it begin.
pub(crate) proof fn lemma_planes(b: Seq<u8>, f: int, i: nat, n: nat)
    requires
        in_frame(b, f),
        i < n <= components(b, f),
    ensures
        0 <= plane(b, f, i),
        plane(b, f, i) + 64 * area(b, f, i as int) <= plane(b, f, n) <= n * 270_273_600,
    decreases n,
{
    let k = (n - 1) as nat;
    lemma_area(b, f, k);
    if i < k {
        lemma_planes(b, f, i, k);
    } else if i > 0 {
        lemma_planes(b, f, (i - 1) as nat, i);
    }
}

fn across_of(b: &[u8], f: usize) -> (r: u64)
    requires
        in_frame(b@, f as int),
    ensures
        r == across(b@, f as int),
        1 <= r <= 2055,
{
    proof {
        lemma_area(b@, f as int, 0);
    }
    steps_of(width_of(b, f), 8 * h_max_of(b, f))
}

fn down_of(b: &[u8], f: usize) -> (r: u64)
    requires
        in_frame(b@, f as int),
    ensures
        r == down(b@, f as int),
        1 <= r <= 2055,
{
    proof {
        lemma_area(b@, f as int, 0);
    }
    steps_of(height_of(b, f), 8 * v_max_of(b, f))
}

/// Steps in one row of a frame, and rows of steps.
pub(crate) fn size_of(b: &[u8], f: usize) -> (r: (u64, u64))
    requires
        in_frame(b@, f as int),
    ensures
        r.0 == across(b@, f as int),
        r.1 == down(b@, f as int),
{
    (across_of(b, f), down_of(b, f))
}

fn area_of(b: &[u8], f: usize, i: usize) -> (r: u64)
    requires
        in_frame(b@, f as int),
        i < components(b@, f as int),
    ensures
        r == area(b@, f as int, i as int),
        1 <= r <= 2055 * 2055,
{
    let (a, d) = (across_of(b, f), down_of(b, f));
    let (h, v) = (horizontal_of(b, f, i), vertical_of(b, f, i));
    proof {
        lemma_area(b@, f as int, i as nat);
        lemma_product(a as int, d as int, 2055, 2055);
        lemma_product(a * d, h as int, 4_223_025, 8);
        lemma_product(a * d * h, v as int, 33_784_200, 8);
    }
    a * d * h * v
}

fn plane_of(b: &[u8], f: usize, i: usize) -> (r: u64)
    requires
        in_frame(b@, f as int),
        i <= components(b@, f as int),
    ensures
        r == plane(b@, f as int, i as nat),
        r <= i * 270_273_600,
    decreases i,
{
    if i == 0 {
        0
    } else {
        plane_of(b, f, i - 1) + 64 * area_of(b, f, i - 1)
    }
}

fn find_layer(b: &[u8], f: usize, w: Headers, s: usize, k: usize, Ghost(c): Ghost<Seq<i16>>) -> (r:
    Option<Layer>)
    requires
        in_frame(b@, f as int),
        scan_whole(b@, s as int),
        k < 4,
        c.len() == plane(b@, f as int, components(b@, f as int) as nat),
    ensures
        r == layer(b@, f as int, w, s as int, k as int),
        r matches Some(x) ==> sound(x, c),
{
    let n: usize = byte_from(b, s, 2) as usize;
    let start: u8 = byte_from(b, s, 3 + 2 * n);
    let end: u8 = byte_from(b, s, 4 + 2 * n);
    let bits: u8 = byte_from(b, s, 5 + 2 * n);
    let i = match find_named(b, f, byte_from(b, s, 3 + 2 * k)) {
        Some(i) => i,
        None => return None,
    };
    if start > 63 || end > 63 || bits / 16 > 13 || bits % 16 > 13 {
        return None;
    }
    let y: u8 = byte_from(b, s, 4 + 2 * k);
    let low: u64 = (bits % 16) as u64;
    assert(1 <= 1u64 << low <= 0x2000) by (bit_vector)
        requires
            low <= 13,
    ;
    proof {
        lemma_planes(b@, f as int, i as nat, components(b@, f as int) as nat);
    }
    Some(
        Layer {
            component: i,
            horizontal: horizontal_of(b, f, i),
            vertical: vertical_of(b, f, i),
            base: plane_of(b, f, i),
            count: area_of(b, f, i),
            stride: row_blocks_of(b, f, i),
            dc: w.dc.place(y / 16),
            ac: w.ac.place(y % 16),
            start: start as u64,
            end: end as u64,
            refines: bits / 16 != 0,
            unit: (1u64 << low) as i64,
        },
    )
}

fn find_layers(b: &[u8], f: usize, w: Headers, s: usize, n: usize, Ghost(c): Ghost<Seq<i16>>) -> (r:
    Option<Vec<Layer>>)
    requires
        in_frame(b@, f as int),
        scan_whole(b@, s as int),
        n <= 4,
        c.len() == plane(b@, f as int, components(b@, f as int) as nat),
    ensures
        match r {
            Some(xs) => layers(b@, f as int, w, s as int, n as nat) == Some(xs@) && xs@.len() == n
                && forall|k: int| 0 <= k < n ==> sound(#[trigger] xs@[k], c),
            None => layers(b@, f as int, w, s as int, n as nat) is None,
        },
    decreases n,
{
    if n == 0 {
        let none: Vec<Layer> = Vec::new();
        assert(none@ =~= seq![]);
        return Some(none);
    }
    match (find_layers(b, f, w, s, n - 1, Ghost(c)), find_layer(b, f, w, s, n - 1, Ghost(c))) {
        (Some(before), Some(last)) => {
            let mut all = before;
            all.push(last);
            Some(all)
        },
        _ => None,
    }
}

fn read_scan(b: &[u8], f: usize, w: Headers, s: usize, c: &mut Vec<i16>) -> (r: Option<Walk>)
    requires
        in_frame(b@, f as int),
        s <= b@.len(),
        old(c)@.len() == plane(b@, f as int, components(b@, f as int) as nat),
    ensures
        final(c)@.len() == old(c)@.len(),
        r is None ==> scan_read(b@, f as int, w, s as int, old(c)@) is None,
        r matches Some(walk) ==> scan_read(b@, f as int, w, s as int, old(c)@) == Some(
            (walk, final(c)@),
        ),
        r matches Some(walk) ==> walking(b@, walk),
{
    let len: usize = b.len();
    if !is_scan_whole(b, s) {
        return None;
    }
    let xs = match find_layers(b, f, w, s, b[s + 2] as usize, Ghost(c@)) {
        Some(xs) => xs,
        None => return None,
    };
    let walk = Walk {
        reader: Reader { at: s + word_at(b, s), held: 0, left: 0, marker: 0, over: false },
        predictions: Predictions { first: 0, second: 0, third: 0, fourth: 0 },
        todo: w.interval,
        blank: 0,
    };
    let (wide, high) = size_of(b, f);
    proof {
        lemma_area(b@, f as int, 0);
    }
    let x = xs[0];
    if xs.len() != 1 {
        if x.end != 0 {
            return None;
        }
        return read_together(b, &xs, w.interval, walk, c, wide, high);
    }
    if x.start == 0 && x.end != 0 {
        return None;
    }
    if (h_max_of(b, f) == 1 && v_max_of(b, f) == 1) || (x.component == 0 && (x.horizontal != 1
        || x.vertical != 1)) {
        let (columns, lines) = (steps_of(width_of(b, f), 8), steps_of(height_of(b, f), 8));
        read_alone(b, x, w.interval, walk, c, columns, lines)
    } else {
        read_alone(b, x, w.interval, walk, c, wide, high)
    }
}

/// Where the next marker is, behind the segment with marker `m` and its length at `q`.
fn marker_behind(b: &[u8], m: u8, q: usize) -> (r: Option<(u8, usize)>)
    requires
        q + 2 <= b@.len(),
    ensures
        match r {
            Some((next, p)) => next_marker(b@, segment_end(b@, m, q as int)) == Some(
                (next, p as int),
            ) && p <= b@.len(),
            None => next_marker(b@, segment_end(b@, m, q as int)) is None,
        },
{
    let len: usize = b.len();
    let length = word_at(b, q);
    let size: usize = if m == 0xe0 && length == 6 {
        7
    } else {
        length
    };
    if size > len - q {
        return None;
    }
    find_marker(b, q + size)
}

/// Reads the scans and segments behind the first scan. Gives back what the segments have
/// said.
fn read_rest(
    b: &[u8],
    f: usize,
    before: Headers,
    c: &mut Vec<i16>,
    marker: u8,
    place: usize,
) -> (r: Option<Headers>)
    requires
        in_frame(b@, f as int),
        place <= b@.len(),
        old(c)@.len() == plane(b@, f as int, components(b@, f as int) as nat),
    ensures
        final(c)@.len() == old(c)@.len(),
        r is None ==> read_on(b@, f as int, before, old(c)@, marker, place as int, 1) is None,
        r matches Some(w) ==> read_on(b@, f as int, before, old(c)@, marker, place as int, 1)
            == Some((w, final(c)@)),
{
    let mut w = before;
    let mut m: u8 = marker;
    let mut p: usize = place;
    let mut n: u64 = 1;
    while m != 0xd9
        invariant
            in_frame(b@, f as int),
            p <= b@.len(),
            1 <= n <= 100,
            c@.len() == old(c)@.len(),
            c@.len() == plane(b@, f as int, components(b@, f as int) as nat),
            read_on(b@, f as int, before, old(c)@, marker, place as int, 1) == read_on(
                b@,
                f as int,
                w,
                c@,
                m,
                p as int,
                n as nat,
            ),
        decreases b@.len() - p,
    {
        let met: Option<(u8, usize)>;
        if m == 0xda {
            let walk = match read_scan(b, f, w, p, c) {
                Some(walk) => walk,
                None => return None,
            };
            met = if walk.reader.marker != 0 {
                Some((walk.reader.marker, walk.reader.at))
            } else {
                find_marker(b, walk.reader.at)
            };
            if n >= 100 {
                return None;
            }
            n = n + 1;
        } else if is_restart(m) {
            met = find_marker(b, p);
        } else {
            w = match segment_at(b, m, p, w) {
                Some(said) => said,
                None => return None,
            };
            met = marker_behind(b, m, p);
        }
        match met {
            Some((next, q)) => {
                if q <= p {
                    return None;
                }
                m = next;
                p = q;
            },
            None => return None,
        }
    }
    Some(w)
}

/// Reads all scans of a progressive frame.
pub(crate) fn read_planes(b: &[u8], f: usize, w: Headers, s: usize) -> (r: Option<
    (Headers, Vec<i16>),
>)
    requires
        in_frame(b@, f as int),
        s <= b@.len(),
    ensures
        r is None ==> planes_read(b@, f as int, w, s as int) is None,
        r matches Some((said, c)) ==> planes_read(b@, f as int, w, s as int) == Some((said, c@))
            && c@.len() == plane(b@, f as int, components(b@, f as int) as nat),
{
    let n = components_of(b, f);
    let total = plane_of(b, f, n);
    let mut c: Vec<i16> = vec![0i16; total as usize];
    assert(c@ =~= blank_planes(b@, f as int));
    let walk = match read_scan(b, f, w, s, &mut c) {
        Some(walk) => walk,
        None => return None,
    };
    if walk.reader.marker == 0 {
        return None;
    }
    match read_rest(b, f, w, &mut c, walk.reader.marker, walk.reader.at) {
        Some(said) => Some((said, c)),
        None => None,
    }
}

fn is_block_tame(b: &[u8], q: usize, c: &Vec<i16>, place: usize) -> (r: bool)
    requires
        place + 64 <= c@.len(),
    ensures
        r == (block_size(b@, q as int, c@, place as int, 64) <= BLOCK_LIMIT),
{
    let len: usize = c.len();
    let mut sum: i64 = 0;
    let mut k: usize = 0;
    while k < 64
        invariant
            k <= 64,
            c@.len() == len,
            place + 64 <= c@.len(),
            sum == block_size(b@, q as int, c@, place as int, k as nat),
            0 <= sum <= k * 0x10_0000_0000,
        decreases 64 - k,
    {
        let (d, scale) = (distance_of(c[place + k] as i64), quant_of(b, q, k));
        proof {
            lemma_product(d as int, scale as int, 0x10_0000, 0xffff);
        }
        sum = sum + d * scale;
        k = k + 1;
    }
    sum <= BLOCK_LIMIT
}

fn are_blocks_tame(b: &[u8], q: usize, c: &Vec<i16>, base: u64, count: u64) -> (r: bool)
    requires
        base + 64 * count <= c@.len(),
        base + 64 * count <= 0x7fff_ffff,
    ensures
        r == blocks_tame(b@, q as int, c@, base as int, count as int),
{
    let mut n: u64 = 0;
    while n < count
        invariant
            n <= count,
            base + 64 * count <= c@.len(),
            base + 64 * count <= 0x7fff_ffff,
            forall|k: int|
                0 <= k < n ==> #[trigger] block_tame(b@, q as int, c@, base as int, k),
        decreases count - n,
    {
        if !is_block_tame(b, q, c, (base + 64 * n) as usize) {
            assert(!block_tame(b@, q as int, c@, base as int, n as int));
            return false;
        }
        n = n + 1;
    }
    true
}

fn is_plane_tame(b: &[u8], f: usize, w: Headers, c: &Vec<i16>, i: usize) -> (r: bool)
    requires
        in_frame(b@, f as int),
        i < components(b@, f as int),
        c@.len() == plane(b@, f as int, components(b@, f as int) as nat),
    ensures
        r == plane_tame(b@, f as int, w, c@, i as int),
{
    let id: u8 = byte_from(b, f, 10 + 3 * i);
    proof {
        lemma_planes(b@, f as int, i as nat, components(b@, f as int) as nat);
    }
    match w.quant.place(id) {
        Some(q) => id <= 3 && are_blocks_tame(b, q, c, plane_of(b, f, i), area_of(b, f, i)),
        None => false,
    }
}

/// Tests whether every block stays within [`BLOCK_LIMIT`].
pub(crate) fn are_planes_tame(b: &[u8], f: usize, w: Headers, c: &Vec<i16>) -> (r: bool)
    requires
        in_frame(b@, f as int),
        c@.len() == plane(b@, f as int, components(b@, f as int) as nat),
    ensures
        r == planes_tame(b@, f as int, w, c@),
{
    let n = components_of(b, f);
    let mut i: usize = 0;
    while i < n
        invariant
            i <= n,
            n == components(b@, f as int),
            in_frame(b@, f as int),
            c@.len() == plane(b@, f as int, components(b@, f as int) as nat),
            forall|k: int| 0 <= k < i ==> #[trigger] plane_tame(b@, f as int, w, c@, k),
        decreases n - i,
    {
        if !is_plane_tame(b, f, w, c, i) {
            assert(!plane_tame(b@, f as int, w, c@, i as int));
            return false;
        }
        i = i + 1;
    }
    true
}

} // verus!
