//! The scans of a sequential frame, block by block.
//!
//! A scan holds its blocks in steps, each with some blocks of every component that the
//! scan names. The blocks are read as the decoder reads them, to tell whether their data
//! suffice and their coefficients stay in range.
use crate::bits::{
    amount, byte, byte_from, find_marker, in_data, is_restart, next_marker, read_amount,
    read_symbol, reader_at, refill, refilled, restart, symbol, Reader,
};
use crate::stream::{
    components, components_of, horizontal, horizontal_of, in_frame, is_scan_whole,
    lemma_product, scan_components, scan_whole, vertical, vertical_of, word, word_at, Headers,
};
use vstd::prelude::*;

verus! {

/// How large the coefficients of a block, each times its quantization value, may be
/// together. The inverse transform has room for more than this in 32 bits, and the
/// coefficients of an image of 8-bit samples stay below two thirds of it.
pub const BLOCK_LIMIT: i64 = 27_000;

/// The last DC coefficients of up to four components.
#[derive(Clone, Copy, Debug, PartialEq, Eq)]
pub struct Predictions {
    pub first: i64,
    pub second: i64,
    pub third: i64,
    pub fourth: i64,
}

impl Predictions {
    pub open spec fn at(self, c: int) -> i64 {
        if c == 0 {
            self.first
        } else if c == 1 {
            self.second
        } else if c == 2 {
            self.third
        } else {
            self.fourth
        }
    }

    pub open spec fn with(self, c: int, x: int) -> Predictions {
        if c == 0 {
            Predictions { first: x as i64, ..self }
        } else if c == 1 {
            Predictions { second: x as i64, ..self }
        } else if c == 2 {
            Predictions { third: x as i64, ..self }
        } else {
            Predictions { fourth: x as i64, ..self }
        }
    }

    /// Whether all are 16-bit numbers.
    pub open spec fn bounded(self) -> bool {
        &&& -0x8000 <= self.first <= 0x7fff
        &&& -0x8000 <= self.second <= 0x7fff
        &&& -0x8000 <= self.third <= 0x7fff
        &&& -0x8000 <= self.fourth <= 0x7fff
    }
}

/// How far a scan has been read.
#[derive(Clone, Copy, Debug, PartialEq, Eq)]
pub struct Walk {
    pub reader: Reader,
    pub predictions: Predictions,
    /// Number of steps up to the next restart.
    pub todo: u64,
    /// Number of blocks to come that hold nothing more. Only a progressive scan has them.
    pub blank: u64,
}

/// What a sequential scan takes of one component.
#[derive(Clone, Copy, Debug, PartialEq, Eq)]
pub struct Part {
    pub component: usize,
    /// Place of the DC table's counts.
    pub dc: usize,
    /// Place of the AC table's counts.
    pub ac: usize,
    /// Place of the quantization table.
    pub quant: usize,
    /// Blocks in one step.
    pub blocks: u64,
}

pub open spec fn no_predictions() -> Predictions {
    Predictions { first: 0, second: 0, third: 0, fourth: 0 }
}

/// The distance of a number from zero.
pub open spec fn distance(x: int) -> int {
    if x < 0 {
        -x
    } else {
        x
    }
}

/// Value `i` of the quantization table at `q`.
pub open spec fn quant(b: Seq<u8>, q: int, i: int) -> int {
    if byte(b, q) as int / 16 == 0 {
        byte(b, q + 1 + i) as int
    } else {
        byte(b, q + 1 + 2 * i) as int * 256 + byte(b, q + 2 + 2 * i) as int
    }
}

/// The quantization value that a coefficient is taken times. One past the end of its
/// block takes the place of another: which one depends on its code.
pub open spec fn weight(b: Seq<u8>, q: int, p: int) -> int {
    if p < 64 {
        quant(b, q, p)
    } else if quant(b, q, 63) > quant(b, q, p % 64) {
        quant(b, q, 63)
    } else {
        quant(b, q, p % 64)
    }
}

/// Reads the AC coefficients of a block from position `k` on, where those before have
/// the given size together. `None` where the data break off or the sizes pass
/// [`BLOCK_LIMIT`].
pub open spec fn ac_block(b: Seq<u8>, r: Reader, t: int, q: int, k: int, sum: int) -> Option<Reader>
    decreases 80 - k,
{
    if k < 0 || k >= 64 {
        Some(r)
    } else {
        match symbol(b, r, t) {
            Some((x, coded)) => if x % 16 != 0 {
                match amount(coded, (x % 16) as u64) {
                    Some((v, rest)) => {
                        let p = k + x as int / 16;
                        let total = sum + distance(v) * weight(b, q, p);
                        if total > BLOCK_LIMIT {
                            None
                        } else {
                            ac_block(b, rest, t, q, p + 1, total)
                        }
                    },
                    None => None,
                }
            } else if x == 0xf0 {
                ac_block(b, coded, t, q, k + 16, sum)
            } else {
                Some(coded)
            },
            None => None,
        }
    }
}

/// Reads a DC coefficient, given as the difference to the one before. `None` where the
/// data break off or the coefficient is no 16-bit number.
pub open spec fn dc_value(b: Seq<u8>, r: Reader, t: int, before: int) -> Option<(int, Reader)> {
    match symbol(b, r, t) {
        Some((x, coded)) => if x > 15 {
            None
        } else {
            match amount(coded, x as u64) {
                Some((v, rest)) => if -0x8000 <= before + v <= 0x7fff {
                    Some((before + v, rest))
                } else {
                    None
                },
                None => None,
            }
        },
        None => None,
    }
}

/// Reads one block.
pub open spec fn block(b: Seq<u8>, part: Part, walk: Walk) -> Option<Walk> {
    let (c, q) = (part.component as int, part.quant as int);
    match dc_value(b, walk.reader, part.dc as int, walk.predictions.at(c) as int) {
        Some((v, rest)) => {
            let sum = distance(v) * quant(b, q, 0);
            if sum > BLOCK_LIMIT {
                None
            } else {
                match ac_block(b, rest, part.ac as int, q, 1, sum) {
                    Some(reader) => Some(
                        Walk { reader, predictions: walk.predictions.with(c, v), ..walk },
                    ),
                    None => None,
                }
            }
        },
        None => None,
    }
}

/// Reads `n` blocks of one component.
pub open spec fn blocks(b: Seq<u8>, part: Part, walk: Walk, n: nat) -> Option<Walk>
    decreases n,
{
    if n == 0 {
        Some(walk)
    } else {
        match block(b, part, walk) {
            Some(next) => blocks(b, part, next, (n - 1) as nat),
            None => None,
        }
    }
}

/// Reads one step, from part `k` on.
pub open spec fn one_step(b: Seq<u8>, parts: Seq<Part>, walk: Walk, k: int) -> Option<Walk>
    decreases parts.len() - k,
{
    if k < 0 || k >= parts.len() {
        Some(walk)
    } else {
        match blocks(b, parts[k], walk, parts[k].blocks as nat) {
            Some(next) => one_step(b, parts, next, k + 1),
            None => None,
        }
    }
}

/// Heeds the marker that ended the data where a restart is due. `None` where it is one
/// that the decoder takes for an error.
pub open spec fn heeded(walk: Walk, interval: u64) -> Option<Walk> {
    let m = walk.reader.marker;
    if restart(m) {
        Some(
            Walk {
                reader: reader_at(walk.reader.at as int, walk.reader.over),
                predictions: no_predictions(),
                todo: interval,
                blank: 0,
            },
        )
    } else if m == 0 || m == 0xd9 {
        Some(Walk { todo: interval, ..walk })
    } else {
        None
    }
}

/// Restarts: looks for the marker where the data do not end with one.
pub open spec fn restarted(b: Seq<u8>, walk: Walk, interval: u64) -> Option<Walk> {
    let full = refilled(b, walk.reader);
    if interval != 0 && full.marker == 0 && !full.over {
        match next_marker(b, full.at as int) {
            Some((m, p)) => heeded(
                Walk { reader: Reader { marker: m, at: p as usize, ..full }, ..walk },
                interval,
            ),
            None => None,
        }
    } else {
        heeded(Walk { reader: full, ..walk }, interval)
    }
}

/// Reads `n` steps of one row. The decoder leaves the row where the data have ended and
/// the window is empty.
pub open spec fn row(b: Seq<u8>, parts: Seq<Part>, interval: u64, walk: Walk, n: nat) -> Option<Walk>
    decreases n,
{
    if n == 0 {
        Some(walk)
    } else {
        match one_step(b, parts, walk, 0) {
            Some(next) => {
                let todo = if next.todo == 0 {
                    u64::MAX
                } else {
                    (next.todo - 1) as u64
                };
                let counted = Walk { todo, ..next };
                if todo == 0 {
                    match restarted(b, counted, interval) {
                        Some(again) => row(b, parts, interval, again, (n - 1) as nat),
                        None => None,
                    }
                } else if counted.reader.marker != 0 && counted.reader.left == 0 {
                    Some(counted)
                } else {
                    row(b, parts, interval, counted, (n - 1) as nat)
                }
            },
            None => None,
        }
    }
}

/// Heeds the marker at the end of a row. `None` where the decoder takes it for an error.
pub open spec fn row_ended(walk: Walk, interval: u64) -> Option<Walk> {
    let m = walk.reader.marker;
    if m == 0xd9 {
        Some(Walk { reader: Reader { marker: 0, over: true, ..walk.reader }, ..walk })
    } else if restart(m) && walk.todo == 0 {
        heeded(walk, interval)
    } else if restart(m) || m == 0 {
        Some(walk)
    } else {
        None
    }
}

/// Reads `n` rows of `wide` steps. Tells whether another scan came up.
pub open spec fn rows(
    b: Seq<u8>,
    parts: Seq<Part>,
    interval: u64,
    walk: Walk,
    wide: nat,
    n: nat,
) -> Option<(bool, Walk)>
    decreases n,
{
    if n == 0 {
        Some((false, walk))
    } else {
        match row(b, parts, interval, walk, wide) {
            Some(next) => if next.reader.marker == 0xda {
                Some((true, next))
            } else {
                match row_ended(next, interval) {
                    Some(on) => rows(b, parts, interval, on, wide, (n - 1) as nat),
                    None => None,
                }
            },
            None => None,
        }
    }
}

/// The first component from `i` on that has this identifier.
pub open spec fn named(b: Seq<u8>, f: int, id: u8, i: int) -> Option<int>
    decreases components(b, f) - i,
{
    if i < 0 || i >= components(b, f) {
        None
    } else if byte(b, f + 8 + 3 * i) == id {
        Some(i)
    } else {
        named(b, f, id, i + 1)
    }
}

/// What the scan with its header at `s` takes of its `k`th component. `None` where the
/// component or a table is missing.
pub open spec fn part(b: Seq<u8>, f: int, w: Headers, s: int, k: int) -> Option<Part> {
    match named(b, f, byte(b, s + 3 + 2 * k), 0) {
        Some(c) => {
            let y = byte(b, s + 4 + 2 * k) as int;
            let q = byte(b, f + 10 + 3 * c) as int;
            match (w.dc.at(y / 16), w.ac.at(y % 16), w.quant.at(q)) {
                (Some(dc), Some(ac), Some(quant)) => if q > 3 {
                    None
                } else {
                    Some(
                        Part {
                            component: c as usize,
                            dc,
                            ac,
                            quant,
                            blocks: (horizontal(b, f, c) * vertical(b, f, c)) as u64,
                        },
                    )
                },
                _ => None,
            }
        },
        None => None,
    }
}

/// What the scan with its header at `s` takes of its first `n` components.
pub open spec fn parts(b: Seq<u8>, f: int, w: Headers, s: int, n: nat) -> Option<Seq<Part>>
    decreases n,
{
    if n == 0 {
        Some(seq![])
    } else {
        match (parts(b, f, w, s, (n - 1) as nat), part(b, f, w, s, n - 1)) {
            (Some(before), Some(last)) => Some(before.push(last)),
            _ => None,
        }
    }
}

/// Whether the decoder gets through the scan with its header at `s` and, unless the first
/// scan holds all components, through those that it goes on with.
pub open spec fn scans_read(
    b: Seq<u8>,
    f: int,
    w: Headers,
    s: int,
    walk: Walk,
    whole: bool,
    wide: nat,
    high: nat,
) -> bool
    decreases b.len() - s,
{
    0 <= s && scan_whole(b, s) && match parts(b, f, w, s, scan_components(b, s) as nat) {
        Some(found) => {
            let begun = Walk { reader: reader_at(s + word(b, s), walk.reader.over), ..walk };
            match rows(b, found, w.interval, begun, wide, high) {
                Some((more, next)) => !more || whole || (s < next.reader.at <= b.len() && scans_read(
                    b,
                    f,
                    w,
                    next.reader.at as int,
                    next,
                    whole,
                    wide,
                    high,
                )),
                None => false,
            }
        },
        None => false,
    }
}

/// The state in front of the first scan.
pub open spec fn walk_begun(w: Headers) -> Walk {
    Walk { reader: reader_at(0, false), predictions: no_predictions(), todo: w.todo, blank: 0 }
}

/// Whether reading can go on.
pub open spec fn walking(b: Seq<u8>, walk: Walk) -> bool {
    in_data(b, walk.reader) && walk.predictions.bounded()
}

impl Predictions {
    pub(crate) fn of(&self, c: usize) -> (r: i64)
        requires
            self.bounded(),
        ensures
            r == self.at(c as int),
            -0x8000 <= r <= 0x7fff,
    {
        if c == 0 {
            self.first
        } else if c == 1 {
            self.second
        } else if c == 2 {
            self.third
        } else {
            self.fourth
        }
    }

    pub(crate) fn changed(&self, c: usize, x: i64) -> (r: Predictions)
        requires
            self.bounded(),
            -0x8000 <= x <= 0x7fff,
        ensures
            r == self.with(c as int, x as int),
            r.bounded(),
    {
        if c == 0 {
            Predictions { first: x, ..*self }
        } else if c == 1 {
            Predictions { second: x, ..*self }
        } else if c == 2 {
            Predictions { third: x, ..*self }
        } else {
            Predictions { fourth: x, ..*self }
        }
    }
}

pub(crate) fn distance_of(x: i64) -> (r: i64)
    requires
        -0x10_0000 <= x <= 0x10_0000,
    ensures
        r == distance(x as int),
        0 <= r <= 0x10_0000,
{
    if x < 0 {
        -x
    } else {
        x
    }
}

pub(crate) fn quant_of(b: &[u8], q: usize, i: usize) -> (r: i64)
    requires
        i < 64,
    ensures
        r == quant(b@, q as int, i as int),
        0 <= r <= 0xffff,
{
    if byte_from(b, q, 0) / 16 == 0 {
        byte_from(b, q, 1 + i) as i64
    } else {
        byte_from(b, q, 1 + 2 * i) as i64 * 256 + byte_from(b, q, 2 + 2 * i) as i64
    }
}

fn weight_of(b: &[u8], q: usize, p: usize) -> (r: i64)
    ensures
        r == weight(b@, q as int, p as int),
        0 <= r <= 0xffff,
{
    if p < 64 {
        return quant_of(b, q, p);
    }
    let (x, y) = (quant_of(b, q, 63), quant_of(b, q, p % 64));
    if x > y {
        x
    } else {
        y
    }
}

fn read_ac_block(b: &[u8], start: Reader, t: usize, q: usize, dc: i64) -> (r: Option<Reader>)
    requires
        in_data(b@, start),
        0 <= dc <= BLOCK_LIMIT,
    ensures
        r == ac_block(b@, start, t as int, q as int, 1, dc as int),
        r matches Some(reader) ==> in_data(b@, reader),
{
    let mut reader = start;
    let mut k: usize = 1;
    let mut sum: i64 = dc;
    while k < 64
        invariant
            k <= 80,
            in_data(b@, reader),
            0 <= sum <= BLOCK_LIMIT,
            ac_block(b@, start, t as int, q as int, 1, dc as int) == ac_block(
                b@,
                reader,
                t as int,
                q as int,
                k as int,
                sum as int,
            ),
        decreases 80 - k,
    {
        let (x, coded) = match read_symbol(b, reader, t) {
            Some(found) => found,
            None => return None,
        };
        if x % 16 != 0 {
            let (v, rest) = match read_amount(coded, (x % 16) as u64) {
                Some(found) => found,
                None => return None,
            };
            let p: usize = k + (x / 16) as usize;
            let (d, scale) = (distance_of(v), weight_of(b, q, p));
            proof {
                lemma_product(d as int, scale as int, 0x10_0000, 0xffff);
            }
            sum = sum + d * scale;
            if sum > BLOCK_LIMIT {
                return None;
            }
            reader = rest;
            k = p + 1;
        } else if x == 0xf0 {
            reader = coded;
            k = k + 16;
        } else {
            return Some(coded);
        }
    }
    Some(reader)
}

pub(crate) fn read_dc_value(b: &[u8], r: Reader, t: usize, before: i64) -> (s: Option<(i64, Reader)>)
    requires
        in_data(b@, r),
        -0x8000 <= before <= 0x7fff,
    ensures
        s is Some <==> dc_value(b@, r, t as int, before as int) is Some,
        s matches Some((v, rest)) ==> dc_value(b@, r, t as int, before as int) == Some(
            (v as int, rest),
        ),
        s matches Some((v, rest)) ==> in_data(b@, rest) && -0x8000 <= v <= 0x7fff,
{
    let (x, coded) = match read_symbol(b, r, t) {
        Some(found) => found,
        None => return None,
    };
    if x > 15 {
        return None;
    }
    let (v, rest) = match read_amount(coded, x as u64) {
        Some(found) => found,
        None => return None,
    };
    if before + v < -0x8000 || before + v > 0x7fff {
        return None;
    }
    Some((before + v, rest))
}

fn read_block(b: &[u8], part: Part, walk: Walk) -> (r: Option<Walk>)
    requires
        walking(b@, walk),
    ensures
        r == block(b@, part, walk),
        r matches Some(next) ==> walking(b@, next),
{
    let before = walk.predictions.of(part.component);
    let (v, rest) = match read_dc_value(b, walk.reader, part.dc, before) {
        Some(found) => found,
        None => return None,
    };
    let (d, scale) = (distance_of(v), quant_of(b, part.quant, 0));
    proof {
        lemma_product(d as int, scale as int, 0x10_0000, 0xffff);
    }
    let sum: i64 = d * scale;
    if sum > BLOCK_LIMIT {
        return None;
    }
    match read_ac_block(b, rest, part.ac, part.quant, sum) {
        Some(reader) => Some(
            Walk { reader, predictions: walk.predictions.changed(part.component, v), ..walk },
        ),
        None => None,
    }
}

fn read_step(b: &[u8], parts: &Vec<Part>, start: Walk) -> (r: Option<Walk>)
    requires
        walking(b@, start),
    ensures
        r == one_step(b@, parts@, start, 0),
        r matches Some(next) ==> walking(b@, next),
{
    let mut walk = start;
    let mut k: usize = 0;
    while k < parts.len()
        invariant
            k <= parts@.len(),
            walking(b@, walk),
            one_step(b@, parts@, start, 0) == one_step(b@, parts@, walk, k as int),
        decreases parts@.len() - k,
    {
        let part = parts[k];
        let ghost entry = walk;
        let mut n: u64 = part.blocks;
        while n > 0
            invariant
                k < parts@.len(),
                part == parts@[k as int],
                n <= part.blocks,
                walking(b@, walk),
                one_step(b@, parts@, start, 0) == one_step(b@, parts@, entry, k as int),
                blocks(b@, part, entry, part.blocks as nat) == blocks(b@, part, walk, n as nat),
            decreases n,
        {
            walk = match read_block(b, part, walk) {
                Some(next) => next,
                None => return None,
            };
            n = n - 1;
        }
        k = k + 1;
    }
    Some(walk)
}

pub(crate) fn heed(walk: Walk, interval: u64) -> (r: Option<Walk>)
    requires
        walk.predictions.bounded(),
        walk.reader.left <= 63,
    ensures
        r == heeded(walk, interval),
        r matches Some(next) ==> next.predictions.bounded() && next.reader.left <= 63
            && next.reader.at == walk.reader.at,
{
    let m: u8 = walk.reader.marker;
    if is_restart(m) {
        let reader = Reader {
            at: walk.reader.at,
            held: 0,
            left: 0,
            marker: 0,
            over: walk.reader.over,
        };
        let predictions = Predictions { first: 0, second: 0, third: 0, fourth: 0 };
        Some(Walk { reader, predictions, todo: interval, blank: 0 })
    } else if m == 0 || m == 0xd9 {
        Some(Walk { todo: interval, ..walk })
    } else {
        None
    }
}

pub(crate) fn do_restart(b: &[u8], walk: Walk, interval: u64) -> (r: Option<Walk>)
    requires
        walking(b@, walk),
    ensures
        r == restarted(b@, walk, interval),
        r matches Some(next) ==> walking(b@, next),
{
    let full = refill(b, walk.reader);
    if interval != 0 && full.marker == 0 && !full.over {
        match find_marker(b, full.at) {
            Some((m, p)) => heed(
                Walk { reader: Reader { marker: m, at: p, ..full }, ..walk },
                interval,
            ),
            None => None,
        }
    } else {
        heed(Walk { reader: full, ..walk }, interval)
    }
}

fn read_row(b: &[u8], parts: &Vec<Part>, interval: u64, start: Walk, wide: u64) -> (r: Option<Walk>)
    requires
        walking(b@, start),
    ensures
        r == row(b@, parts@, interval, start, wide as nat),
        r matches Some(next) ==> walking(b@, next),
{
    let mut walk = start;
    let mut n: u64 = wide;
    while n > 0
        invariant
            n <= wide,
            walking(b@, walk),
            row(b@, parts@, interval, start, wide as nat) == row(
                b@,
                parts@,
                interval,
                walk,
                n as nat,
            ),
        decreases n,
    {
        let next = match read_step(b, parts, walk) {
            Some(next) => next,
            None => return None,
        };
        let todo: u64 = if next.todo == 0 {
            u64::MAX
        } else {
            next.todo - 1
        };
        let counted = Walk { todo, ..next };
        if todo == 0 {
            walk = match do_restart(b, counted, interval) {
                Some(again) => again,
                None => return None,
            };
        } else if counted.reader.marker != 0 && counted.reader.left == 0 {
            return Some(counted);
        } else {
            walk = counted;
        }
        n = n - 1;
    }
    Some(walk)
}

fn end_row(walk: Walk, interval: u64) -> (r: Option<Walk>)
    requires
        walk.predictions.bounded(),
        walk.reader.left <= 63,
    ensures
        r == row_ended(walk, interval),
        r matches Some(next) ==> next.predictions.bounded() && next.reader.left <= 63
            && next.reader.at == walk.reader.at,
{
    let m: u8 = walk.reader.marker;
    if m == 0xd9 {
        Some(Walk { reader: Reader { marker: 0, over: true, ..walk.reader }, ..walk })
    } else if is_restart(m) && walk.todo == 0 {
        heed(walk, interval)
    } else if is_restart(m) || m == 0 {
        Some(walk)
    } else {
        None
    }
}

fn read_rows(
    b: &[u8],
    parts: &Vec<Part>,
    interval: u64,
    start: Walk,
    wide: u64,
    high: u64,
) -> (r: Option<(bool, Walk)>)
    requires
        walking(b@, start),
    ensures
        r == rows(b@, parts@, interval, start, wide as nat, high as nat),
        r matches Some((more, next)) ==> walking(b@, next),
{
    let mut walk = start;
    let mut n: u64 = high;
    while n > 0
        invariant
            n <= high,
            walking(b@, walk),
            rows(b@, parts@, interval, start, wide as nat, high as nat) == rows(
                b@,
                parts@,
                interval,
                walk,
                wide as nat,
                n as nat,
            ),
        decreases n,
    {
        let next = match read_row(b, parts, interval, walk, wide) {
            Some(next) => next,
            None => return None,
        };
        if next.reader.marker == 0xda {
            return Some((true, next));
        }
        walk = match end_row(next, interval) {
            Some(on) => on,
            None => return None,
        };
        n = n - 1;
    }
    Some((false, walk))
}

pub(crate) fn find_named(b: &[u8], f: usize, id: u8) -> (r: Option<usize>)
    requires
        in_frame(b@, f as int),
    ensures
        match r {
            Some(c) => named(b@, f as int, id, 0) == Some(c as int) && c < components(
                b@,
                f as int,
            ),
            None => named(b@, f as int, id, 0) is None,
        },
{
    let n = components_of(b, f);
    let mut i: usize = 0;
    while i < n
        invariant
            n == components(b@, f as int),
            n <= 4,
            i <= n,
            named(b@, f as int, id, 0) == named(b@, f as int, id, i as int),
        decreases n - i,
    {
        if byte_from(b, f, 8 + 3 * i) == id {
            return Some(i);
        }
        i = i + 1;
    }
    None
}

fn find_part(b: &[u8], f: usize, w: Headers, s: usize, k: usize) -> (r: Option<Part>)
    requires
        in_frame(b@, f as int),
        k < 4,
    ensures
        r == part(b@, f as int, w, s as int, k as int),
{
    let c = match find_named(b, f, byte_from(b, s, 3 + 2 * k)) {
        Some(c) => c,
        None => return None,
    };
    let y: u8 = byte_from(b, s, 4 + 2 * k);
    let q: u8 = byte_from(b, f, 10 + 3 * c);
    match (w.dc.place(y / 16), w.ac.place(y % 16), w.quant.place(q)) {
        (Some(dc), Some(ac), Some(quant)) => if q > 3 {
            None
        } else {
            let (h, v) = (horizontal_of(b, f, c), vertical_of(b, f, c));
            proof {
                lemma_product(h as int, v as int, 8, 8);
            }
            Some(Part { component: c, dc, ac, quant, blocks: h * v })
        },
        _ => None,
    }
}

fn find_parts(b: &[u8], f: usize, w: Headers, s: usize, n: usize) -> (r: Option<Vec<Part>>)
    requires
        in_frame(b@, f as int),
        n <= 4,
    ensures
        match r {
            Some(found) => parts(b@, f as int, w, s as int, n as nat) == Some(found@),
            None => parts(b@, f as int, w, s as int, n as nat) is None,
        },
    decreases n,
{
    if n == 0 {
        let none: Vec<Part> = Vec::new();
        assert(none@ =~= seq![]);
        return Some(none);
    }
    match (find_parts(b, f, w, s, n - 1), find_part(b, f, w, s, n - 1)) {
        (Some(before), Some(last)) => {
            let mut all = before;
            all.push(last);
            Some(all)
        },
        _ => None,
    }
}

/// Tests whether the decoder gets through the scans of a sequential frame.
pub(crate) fn are_scans_read(
    b: &[u8],
    f: usize,
    w: Headers,
    start: usize,
    whole: bool,
    wide: u64,
    high: u64,
) -> (r: bool)
    requires
        in_frame(b@, f as int),
        start <= b@.len(),
    ensures
        r == scans_read(
            b@,
            f as int,
            w,
            start as int,
            walk_begun(w),
            whole,
            wide as nat,
            high as nat,
        ),
{
    let mut s: usize = start;
    let mut walk = Walk {
        reader: Reader { at: 0, held: 0, left: 0, marker: 0, over: false },
        predictions: Predictions { first: 0, second: 0, third: 0, fourth: 0 },
        todo: w.todo,
        blank: 0,
    };
    loop
        invariant
            in_frame(b@, f as int),
            s <= b@.len(),
            walking(b@, walk),
            scans_read(
                b@,
                f as int,
                w,
                start as int,
                walk_begun(w),
                whole,
                wide as nat,
                high as nat,
            ) == scans_read(b@, f as int, w, s as int, walk, whole, wide as nat, high as nat),
        decreases b@.len() - s,
    {
        if !is_scan_whole(b, s) {
            return false;
        }
        let len: usize = b.len();
        let n: usize = b[s + 2] as usize;
        let found = match find_parts(b, f, w, s, n) {
            Some(found) => found,
            None => return false,
        };
        let e: usize = s + word_at(b, s);
        let reader = Reader { at: e, held: 0, left: 0, marker: 0, over: walk.reader.over };
        let begun = Walk { reader, ..walk };
        match read_rows(b, &found, w.interval, begun, wide, high) {
            Some((more, next)) => {
                if !more || whole {
                    return true;
                }
                if next.reader.at <= s {
                    return false;
                }
                s = next.reader.at;
                walk = next;
            },
            None => return false,
        }
    }
}

/// Whether everything from `p` on is zero.
pub open spec fn blank_from(b: Seq<u8>, p: int) -> bool {
    forall|i: int| p <= i < b.len() ==> #[trigger] b[i] == 0
}

/// Whether the one-bit code of the Huffman table at `t` stands for zero.
pub open spec fn zero_first(b: Seq<u8>, t: int) -> bool {
    byte(b, t) >= 1 && byte(b, t + 16) == 0
}

/// Whether zero bits stand for a blank block.
pub open spec fn part_blank(b: Seq<u8>, part: Part) -> bool {
    zero_first(b, part.dc as int) && zero_first(b, part.ac as int)
}

/// A reader that has nothing but zeros before it.
spec fn reads_zeros(b: Seq<u8>, r: Reader) -> bool {
    r.held == 0 && r.left <= 63 && r.marker == 0 && !r.over && r.at <= b.len() && blank_from(
        b,
        r.at as int,
    )
}

proof fn lemma_zeros_gathered(b: Seq<u8>, r: Reader, n: nat)
    requires
        b.len() <= usize::MAX,
        reads_zeros(b, r),
        r.left + 8 * n <= 63,
    ensures
        reads_zeros(b, crate::bits::gathered(b, r, n)),
        crate::bits::gathered(b, r, n).left == r.left + 8 * n,
    decreases n,
{
    if n > 0 {
        let p = r.at as int;
        assert(p < b.len() ==> b[p] == 0);
        assert(crate::bits::past_fill(b, p) == p);
        assert((0u64 << 8) | 0u8 as u64 == 0) by (bit_vector);
        let next = crate::bits::with_byte(r, 0, crate::bits::behind(b, p));
        lemma_zeros_gathered(b, next, (n - 1) as nat);
    }
}

proof fn lemma_zero_symbol(b: Seq<u8>, r: Reader, t: int)
    requires
        b.len() <= usize::MAX,
        reads_zeros(b, r),
        zero_first(b, t),
    ensures
        symbol(b, r, t) matches Some((x, rest)) && x == 0 && reads_zeros(b, rest),
{
    let full = refilled(b, r);
    if r.left < 32 {
        lemma_zeros_gathered(b, r, 4);
    }
    let (x, y) = ((full.left - 16) as u64, (16 - full.left) as u64);
    assert((0u64 >> x) & 0xffff == 0) by (bit_vector);
    assert((0u64 << y) & 0xffff == 0) by (bit_vector);
    assert(crate::bits::coded(b, t, 0, 1, 0x8000, 0, 0) == Some((0u8, 1int)));
}

proof fn lemma_blank_block(b: Seq<u8>, part: Part, walk: Walk)
    requires
        b.len() <= usize::MAX,
        reads_zeros(b, walk.reader),
        walk.predictions == no_predictions(),
        part_blank(b, part),
    ensures
        block(b, part, walk) matches Some(next) && reads_zeros(b, next.reader) && next == (Walk {
            reader: next.reader,
            ..walk
        }),
{
    let t = part.dc as int;
    lemma_zero_symbol(b, walk.reader, t);
    if let Some((x, coded)) = symbol(b, walk.reader, t) {
        let (h, rest) = (coded.held, coded.left);
        assert((0u64 >> rest) & !(0xffff_ffff_ffff_ffffu64 << 0) == 0) by (bit_vector);
        assert(amount(coded, 0) == Some((0int, coded)));
        lemma_zero_symbol(b, coded, part.ac as int);
        assert(0 * quant(b, part.quant as int, 0) == 0);
    }
}

proof fn lemma_blank_blocks(b: Seq<u8>, part: Part, walk: Walk, n: nat)
    requires
        b.len() <= usize::MAX,
        reads_zeros(b, walk.reader),
        walk.predictions == no_predictions(),
        part_blank(b, part),
    ensures
        blocks(b, part, walk, n) matches Some(next) && reads_zeros(b, next.reader) && next == (
        Walk { reader: next.reader, ..walk }),
    decreases n,
{
    if n > 0 {
        lemma_blank_block(b, part, walk);
        lemma_blank_blocks(b, part, block(b, part, walk)->0, (n - 1) as nat);
    }
}

proof fn lemma_blank_step(b: Seq<u8>, parts: Seq<Part>, walk: Walk, k: int)
    requires
        b.len() <= usize::MAX,
        reads_zeros(b, walk.reader),
        walk.predictions == no_predictions(),
        forall|i: int| 0 <= i < parts.len() ==> part_blank(b, #[trigger] parts[i]),
    ensures
        one_step(b, parts, walk, k) matches Some(next) && reads_zeros(b, next.reader) && next == (
        Walk { reader: next.reader, ..walk }),
    decreases parts.len() - k,
{
    if 0 <= k < parts.len() {
        lemma_blank_blocks(b, parts[k], walk, parts[k].blocks as nat);
        lemma_blank_step(b, parts, blocks(b, parts[k], walk, parts[k].blocks as nat)->0, k + 1);
    }
}

/// How many steps are left up to the next restart, after `n` steps without one. A count of
/// zero runs through all of them.
spec fn todo_after(todo: u64, n: nat) -> u64 {
    if n == 0 {
        todo
    } else if todo == 0 {
        (u64::MAX - (n - 1)) as u64
    } else {
        (todo - n) as u64
    }
}

proof fn lemma_blank_row(b: Seq<u8>, parts: Seq<Part>, interval: u64, walk: Walk, n: nat)
    requires
        b.len() <= usize::MAX,
        reads_zeros(b, walk.reader),
        walk.predictions == no_predictions(),
        forall|i: int| 0 <= i < parts.len() ==> part_blank(b, #[trigger] parts[i]),
        walk.todo > n || (walk.todo == 0 && n <= 0xffff_ffff),
    ensures
        row(b, parts, interval, walk, n) matches Some(next) && reads_zeros(b, next.reader) && next
            == (Walk { reader: next.reader, todo: todo_after(walk.todo, n), ..walk }),
    decreases n,
{
    if n > 0 {
        lemma_blank_step(b, parts, walk, 0);
        let next = one_step(b, parts, walk, 0)->0;
        let counted = Walk { todo: todo_after(next.todo, 1), ..next };
        lemma_blank_row(b, parts, interval, counted, (n - 1) as nat);
    }
}

proof fn lemma_blank_rows(
    b: Seq<u8>,
    parts: Seq<Part>,
    interval: u64,
    walk: Walk,
    wide: nat,
    n: nat,
)
    requires
        b.len() <= usize::MAX,
        reads_zeros(b, walk.reader),
        walk.predictions == no_predictions(),
        forall|i: int| 0 <= i < parts.len() ==> part_blank(b, #[trigger] parts[i]),
        walk.todo > wide * n || (walk.todo == 0 && wide * n <= 0xffff_ffff),
    ensures
        rows(b, parts, interval, walk, wide, n) matches Some((more, next)) && !more,
    decreases n,
{
    if n > 0 {
        assert(wide * n == wide * (n - 1) + wide) by (nonlinear_arith);
        assert(0 <= wide * (n - 1)) by (nonlinear_arith)
            requires
                n >= 1,
        ;
        lemma_blank_row(b, parts, interval, walk, wide);
        let next = row(b, parts, interval, walk, wide)->0;
        lemma_blank_rows(b, parts, interval, next, wide, (n - 1) as nat);
    }
}

/// A scan of zeros is read, where zero bits stand for blank blocks and no restart is due
/// within it.
pub proof fn law_blank_scans_are_read(
    b: Seq<u8>,
    f: int,
    w: Headers,
    s: int,
    whole: bool,
    wide: nat,
    high: nat,
)
    requires
        b.len() <= usize::MAX,
        0 <= s,
        scan_whole(b, s),
        blank_from(b, s + word(b, s)),
        parts(b, f, w, s, scan_components(b, s) as nat) matches Some(found) && forall|i: int|
            0 <= i < found.len() ==> part_blank(b, #[trigger] found[i]),
        w.todo > wide * high || (w.todo == 0 && wide * high <= 0xffff_ffff),
    ensures
        scans_read(b, f, w, s, walk_begun(w), whole, wide, high),
{
    lemma_blank_scan(b, f, w, s, walk_begun(w), whole, wide, high);
}

/// The same of a scan that others may have gone before.
pub(crate) proof fn lemma_blank_scan(
    b: Seq<u8>,
    f: int,
    w: Headers,
    s: int,
    walk: Walk,
    whole: bool,
    wide: nat,
    high: nat,
)
    requires
        b.len() <= usize::MAX,
        0 <= s,
        scan_whole(b, s),
        blank_from(b, s + word(b, s)),
        parts(b, f, w, s, scan_components(b, s) as nat) matches Some(found) && forall|i: int|
            0 <= i < found.len() ==> part_blank(b, #[trigger] found[i]),
        walk.predictions == no_predictions(),
        !walk.reader.over,
        walk.todo > wide * high || (walk.todo == 0 && wide * high <= 0xffff_ffff),
    ensures
        scans_read(b, f, w, s, walk, whole, wide, high),
{
    let found = parts(b, f, w, s, scan_components(b, s) as nat)->0;
    let begun = Walk { reader: reader_at(s + word(b, s), walk.reader.over), ..walk };
    lemma_blank_rows(b, found, w.interval, begun, wide, high);
}

/// The limit leaves out no block of an image. The coefficients of 64 samples that are off
/// their middle by 128 at most come to 8 * 8 * 128 together at most, and rounding to multiples
/// of a byte adds less than 128 to each.
pub proof fn law_limit_has_room_for_images(exact: int, rounding: int)
    requires
        0 <= exact <= 8 * 8 * 128,
        0 <= rounding <= 64 * 128,
    ensures
        exact + rounding <= BLOCK_LIMIT,
{
}

} // verus!
