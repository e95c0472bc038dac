//! Which JPEG streams the decoder can be given.
//!
//! The decoder answers most malformed streams with an error, but on some it panics.
//! [`decodable`] tells those on which it gets through, by the stream's headers, its
//! markers and its entropy-coded data; [`is_decodable`] computes it.
use vstd::prelude::*;

verus! {

/// Where in the stream the contents of up to four tables are.
#[derive(Clone, Copy, Debug, PartialEq, Eq)]
pub struct Tables {
    pub first: Option<usize>,
    pub second: Option<usize>,
    pub third: Option<usize>,
    pub fourth: Option<usize>,
}

impl Tables {
    /// Where table `i`, counted modulo four, is.
    pub open spec fn at(self, i: int) -> Option<usize> {
        if i % 4 == 0 {
            self.first
        } else if i % 4 == 1 {
            self.second
        } else if i % 4 == 2 {
            self.third
        } else {
            self.fourth
        }
    }

    /// These tables, with table `i` at `p`.
    pub open spec fn with(self, i: int, p: int) -> Tables {
        let found = Some(p as usize);
        if i == 0 {
            Tables { first: found, ..self }
        } else if i == 1 {
            Tables { second: found, ..self }
        } else if i == 2 {
            Tables { third: found, ..self }
        } else {
            Tables { fourth: found, ..self }
        }
    }
}

/// What the segments in front of the first scan have said.
#[derive(Clone, Copy, Debug, PartialEq, Eq)]
pub struct Headers {
    /// Place of the frame header's length.
    pub frame: Option<usize>,
    /// Whether the frame is progressive.
    pub progressive: bool,
    /// The color transform that the decoder reckons with, as an Adobe segment codes
    /// it: 0 for none, 1 for YCbCr, 2 for YCCK.
    pub transform: u8,
    /// Whether the stream is a frame of a motion JPEG, whose Huffman tables 0 and 1
    /// have default contents.
    pub motion: bool,
    /// Huffman tables for DC coefficients: the places of their counts.
    pub dc: Tables,
    /// Huffman tables for AC coefficients: the places of their counts.
    pub ac: Tables,
    /// Quantization tables.
    pub quant: Tables,
    /// Number of steps between restarts, or zero.
    pub interval: u64,
    /// Number of steps up to the first restart.
    pub todo: u64,
}

/// The state before the first segment.
pub open spec fn no_headers() -> Headers {
    let none = Tables { first: None, second: None, third: None, fourth: None };
    Headers {
        frame: None,
        progressive: false,
        transform: 1,
        motion: false,
        dc: none,
        ac: none,
        quant: none,
        interval: 0,
        todo: 0x7fff_ffff,
    }
}

/// The 16-bit number at place `p`.
pub open spec fn word(b: Seq<u8>, p: int) -> int {
    b[p] * 256 + b[p + 1]
}

/// Whether a sampling factor is one that the decoder takes.
pub open spec fn factor_taken(k: int) -> bool {
    k == 1 || k == 2 || k == 4 || k == 8
}

/// Number of components of the frame whose header is at `f`.
pub open spec fn components(b: Seq<u8>, f: int) -> int {
    b[f + 7] as int
}

/// Width in pixels.
pub open spec fn frame_width(b: Seq<u8>, f: int) -> int {
    word(b, f + 5)
}

/// Height in pixels.
pub open spec fn frame_height(b: Seq<u8>, f: int) -> int {
    word(b, f + 3)
}

/// Horizontal sampling factor of component `i`.
pub open spec fn horizontal(b: Seq<u8>, f: int, i: int) -> int {
    b[f + 9 + 3 * i] as int / 16
}

/// Vertical sampling factor of component `i`.
pub open spec fn vertical(b: Seq<u8>, f: int, i: int) -> int {
    b[f + 9 + 3 * i] as int % 16
}

/// Whether the frame has an area, within the decoder's limits.
pub open spec fn area_taken(b: Seq<u8>, f: int) -> bool {
    0 < frame_width(b, f) <= 0x4000 && 0 < frame_height(b, f) <= 0x4000
}

/// Whether all sampling factors of a frame are ones that the decoder takes.
pub open spec fn factors_taken(b: Seq<u8>, f: int) -> bool {
    forall|i: int|
        0 <= i < components(b, f) ==> factor_taken(#[trigger] horizontal(b, f, i)) && factor_taken(
            vertical(b, f, i),
        )
}

/// Whether the frame header at `f` is whole, has two to four components, an area within
/// the decoder's limits, and factors that it takes.
pub open spec fn frame_whole(b: Seq<u8>, f: int) -> bool {
    &&& f + 8 <= b.len()
    &&& 2 <= components(b, f) <= 4
    &&& word(b, f) == 8 + 3 * components(b, f)
    &&& f + word(b, f) <= b.len()
    &&& area_taken(b, f)
    &&& factors_taken(b, f)
}

/// Number of symbols that `k` counts of a Huffman table make.
pub open spec fn symbols(b: Seq<u8>, p: int, k: nat) -> int
    decreases k,
{
    if k == 0 {
        0
    } else {
        symbols(b, p, (k - 1) as nat) + b[p + k - 1]
    }
}

/// The Huffman tables in the `left` bytes from `p` on, besides those found already. `None` where the decoder reports an error.
pub open spec fn huffman_tables(
    b: Seq<u8>,
    p: int,
    left: int,
    dc: Tables,
    ac: Tables,
) -> Option<(Tables, Tables)>
    decreases left,
{
    if left <= 16 {
        if left == 0 {
            Some((dc, ac))
        } else {
            None
        }
    } else if p + 17 > b.len() {
        None
    } else {
        let class = b[p] as int / 16;
        let place = b[p] as int % 16;
        let count = symbols(b, p + 1, 16);
        if class > 1 || place > 3 || count > 256 || count > left - 17 || count < 0 {
            None
        } else if class == 0 {
            huffman_tables(b, p + 17 + count, left - 17 - count, dc.with(place, p + 1), ac)
        } else {
            huffman_tables(b, p + 17 + count, left - 17 - count, dc, ac.with(place, p + 1))
        }
    }
}

/// The quantization tables in the `left` bytes from `p` on, besides those found already.
/// `None` where the decoder reports an error.
pub open spec fn quant_tables(b: Seq<u8>, p: int, left: int, quant: Tables) -> Option<Tables>
    decreases left,
{
    if left <= 0 {
        Some(quant)
    } else if p >= b.len() {
        None
    } else {
        let size = 65 + 64 * (b[p] as int / 16);
        if b[p] as int / 16 > 1 || b[p] as int % 16 > 3 || size > left || p + size > b.len() {
            None
        } else {
            quant_tables(b, p + size, left - size, quant.with(b[p] as int % 16, p))
        }
    }
}

/// Whether the bytes at `p` read `AVI1`, with a zero behind.
pub open spec fn avi_at(b: Seq<u8>, p: int) -> bool {
    p + 5 <= b.len() && b[p] == 0x41 && b[p + 1] == 0x56 && b[p + 2] == 0x49 && b[p + 3] == 0x31
        && b[p + 4] == 0
}

/// Whether the bytes at `p` read `Adobe`.
pub open spec fn adobe_at(b: Seq<u8>, p: int) -> bool {
    p + 5 <= b.len() && b[p] == 0x41 && b[p + 1] == 0x64 && b[p + 2] == 0x6f && b[p + 3] == 0x62
        && b[p + 4] == 0x65
}

/// Where the segment with marker `m` and its length at `q` ends. The decoder takes
/// seven bytes of an application segment that says it has six.
pub open spec fn segment_end(b: Seq<u8>, m: u8, q: int) -> int {
    if m == 0xe0 && word(b, q) == 6 {
        q + 7
    } else {
        q + word(b, q)
    }
}

/// What the segment with marker `m` and its length at `q` adds. `None` where the
/// decoder reports an error, or where the frame has no color.
pub open spec fn segment(b: Seq<u8>, m: u8, q: int, w: Headers) -> Option<Headers> {
    let length = word(b, q);
    if m == 0xd9 || m == 0xcc || m == 0xdc || q + 2 > b.len() || length < 2 {
        None
    } else if m == 0xc0 || m == 0xc1 || m == 0xc2 {
        if w.frame is None && frame_whole(b, q) {
            Some(
                Headers {
                    frame: Some(q as usize),
                    progressive: m == 0xc2,
                    transform: if components(b, q) == 4 && w.transform == 1 {
                        0
                    } else {
                        w.transform
                    },
                    ..w
                },
            )
        } else {
            None
        }
    } else if m == 0xc4 {
        match huffman_tables(b, q + 2, length - 2, w.dc, w.ac) {
            Some((dc, ac)) => Some(Headers { dc, ac, ..w }),
            None => None,
        }
    } else if m == 0xdb {
        match quant_tables(b, q + 2, length - 2, w.quant) {
            Some(quant) => Some(Headers { quant, ..w }),
            None => None,
        }
    } else if m == 0xdd {
        if length != 4 || q + 4 > b.len() {
            None
        } else {
            let interval = word(b, q + 2) as u64;
            Some(Headers { interval, todo: interval, ..w })
        }
    } else if m == 0xe0 {
        Some(Headers { motion: w.motion || (length > 5 && avi_at(b, q + 2)), ..w })
    } else if m == 0xee {
        if length < 14 || q + length > b.len() {
            None
        } else if adobe_at(b, q + 2) {
            if b[q + 13] > 2 {
                None
            } else {
                Some(Headers { transform: b[q + 13], ..w })
            }
        } else {
            Some(w)
        }
    } else {
        Some(w)
    }
}

/// Follows the segments from `p` on up to the first scan. `armed` tells that the byte
/// in front of `p` was `FF`. Gives back what the segments said and the place behind
/// the scan's marker.
pub open spec fn headers_from(b: Seq<u8>, p: int, armed: bool, w: Headers) -> Option<
    (Headers, int),
>
    decreases b.len() - p,
{
    if p < 0 || p >= b.len() {
        None
    } else if armed && b[p] != 0xff && b[p] != 0 {
        if b[p] == 0xda {
            Some((w, p + 1))
        } else {
            let end = segment_end(b, b[p], p + 1);
            match segment(b, b[p], p + 1, w) {
                Some(next) => if p < end <= b.len() {
                    headers_from(b, end, false, next)
                } else {
                    None
                },
                None => None,
            }
        }
    } else {
        headers_from(b, p + 1, b[p] == 0xff, w)
    }
}

/// Largest horizontal factor of the components up to `i`.
pub open spec fn widest(b: Seq<u8>, f: int, i: nat) -> int
    decreases i,
{
    let h = horizontal(b, f, i as int);
    if i == 0 {
        h
    } else if h > widest(b, f, (i - 1) as nat) {
        h
    } else {
        widest(b, f, (i - 1) as nat)
    }
}

/// Largest vertical factor of the components up to `i`.
pub open spec fn tallest(b: Seq<u8>, f: int, i: nat) -> int
    decreases i,
{
    let v = vertical(b, f, i as int);
    if i == 0 {
        v
    } else if v > tallest(b, f, (i - 1) as nat) {
        v
    } else {
        tallest(b, f, (i - 1) as nat)
    }
}

/// The largest horizontal factor of a frame.
pub open spec fn h_max(b: Seq<u8>, f: int) -> int {
    widest(b, f, (components(b, f) - 1) as nat)
}

/// The largest vertical factor of a frame.
pub open spec fn v_max(b: Seq<u8>, f: int) -> int {
    tallest(b, f, (components(b, f) - 1) as nat)
}

/// How many steps of `k` cover `n`.
pub open spec fn steps(n: int, k: int) -> int {
    (n + k - 1) / k
}

/// Blocks in one row of component `i`. The decoder reckons with the factors of the
/// components up to this one.
pub open spec fn row_blocks(b: Seq<u8>, f: int, i: nat) -> int {
    horizontal(b, f, i as int) * steps(frame_width(b, f), 8 * widest(b, f, i))
}

/// How much more room the decoder gives the rows of component `i`.
pub open spec fn spare(b: Seq<u8>, f: int, i: int) -> int {
    if i != 0 && (horizontal(b, f, 0) == 2 || vertical(b, f, 0) == 2) && (horizontal(b, f, i) != 1
        || vertical(b, f, i) != 1) {
        2
    } else {
        1
    }
}

/// Whether component `i` is interpolated between rows.
pub open spec fn between_rows(b: Seq<u8>, f: int, i: int) -> bool {
    v_max(b, f) / vertical(b, f, i) == 2 && (h_max(b, f) / horizontal(b, f, i) == 1 || h_max(b, f)
        / horizontal(b, f, i) == 2)
}

/// Whether some component is interpolated between rows.
pub open spec fn any_between_rows(b: Seq<u8>, f: int) -> bool {
    exists|i: int| 0 <= i < components(b, f) && #[trigger] between_rows(b, f, i)
}

/// Whether the decoder can scale component `i` up to the size of the frame: its
/// buffers have the lengths that its interpolation asks for.
pub open spec fn scalable(b: Seq<u8>, f: int, i: nat) -> bool {
    let (hs, vs) = (h_max(b, f) / horizontal(b, f, i as int), v_max(b, f) / vertical(
        b,
        f,
        i as int,
    ));
    if hs == 1 && vs == 1 {
        true
    } else if hs == 2 && vs == 1 {
        vertical(b, f, i as int) == spare(b, f, i as int)
    } else if hs == 1 && vs == 2 {
        vertical(b, f, i as int) == 1
    } else if hs == 2 && vs == 2 {
        vertical(b, f, i as int) == 1 && 2 * row_blocks(b, f, i) == row_blocks(b, f, 0)
    } else {
        let rows = if frame_height(b, f) < 8 * v_max(b, f) {
            frame_height(b, f)
        } else {
            8 * v_max(b, f)
        };
        &&& rows * (h_max(b, f) * steps(frame_width(b, f), 8 * h_max(b, f))) <= row_blocks(b, f, i)
            * hs * vs * spare(b, f, i as int) * 8
        &&& any_between_rows(b, f) ==> hs * vs <= 8
    }
}

/// Whether the decoder can lay the frame out. Where it transforms the colors of a frame
/// narrower than 16 pixels, it has room for rows of 16.
pub open spec fn frame_taken(b: Seq<u8>, f: int, transformed: bool) -> bool {
    (h_max(b, f) == 1 && v_max(b, f) == 1) || {
        &&& transformed && components(b, f) >= 3 && frame_width(b, f) < 16 ==> h_max(b, f) <= 2
        &&& forall|i: nat| i < components(b, f) ==> #[trigger] scalable(b, f, i)
    }
}

/// Whether the rows of every component have the blocks that the whole frame gives
/// them.
pub open spec fn rows_agree(b: Seq<u8>, f: int) -> bool {
    forall|i: nat|
        i < components(b, f) ==> #[trigger] row_blocks(b, f, i) == horizontal(b, f, i as int)
            * steps(frame_width(b, f), 8 * h_max(b, f))
}

/// Number of components in the scan whose header is at `s`.
pub open spec fn scan_components(b: Seq<u8>, s: int) -> int {
    b[s + 2] as int
}

/// Whether the scan header at `s` is whole.
pub open spec fn scan_whole(b: Seq<u8>, s: int) -> bool {
    &&& s + 3 <= b.len()
    &&& 1 <= scan_components(b, s) <= 4
    &&& word(b, s) == 6 + 2 * scan_components(b, s)
    &&& s + word(b, s) <= b.len()
}

/// Whether the decoder gets through the scans of a progressive frame with these headers,
/// whose first scan has its header at `s`. Four components are taken for CMYK or YCCK
/// only.
pub open spec fn progressive_taken(b: Seq<u8>, f: int, w: Headers, s: int) -> bool {
    &&& components(b, f) >= 3
    &&& components(b, f) == 4 ==> w.transform != 1
    &&& match crate::progressive::planes_read(b, f, w, s) {
        Some((said, c)) => {
            &&& components(b, f) == 4 ==> said.transform != 1
            &&& frame_taken(b, f, said.transform != 0)
            &&& crate::progressive::planes_tame(b, f, w, c)
        },
        None => false,
    }
}

/// Whether the decoder gets through the scans of a sequential frame with these headers,
/// whose first scan has its header at `s`.
pub open spec fn sequential_taken(b: Seq<u8>, f: int, w: Headers, s: int) -> bool {
    let whole = scan_components(b, s) == components(b, f);
    &&& frame_taken(b, f, w.transform != 0)
    &&& whole || rows_agree(b, f)
    &&& crate::sequential::scans_read(
        b,
        f,
        w,
        s,
        crate::sequential::walk_begun(w),
        whole,
        crate::progressive::across(b, f) as nat,
        crate::progressive::down(b, f) as nat,
    )
}

/// Whether the decoder takes the scans of a stream with these headers, whose first
/// scan has its header at `s`.
pub open spec fn scans_taken(b: Seq<u8>, w: Headers, s: int) -> bool {
    scan_whole(b, s) && match w.frame {
        Some(f) => if w.progressive {
            progressive_taken(b, f as int, w, s)
        } else {
            sequential_taken(b, f as int, w, s)
        },
        None => false,
    }
}

/// Whether the decoder gets through a stream that has its Huffman tables.
pub open spec fn readable(b: Seq<u8>) -> bool {
    match headers_from(b, 2, false, no_headers()) {
        Some((w, s)) => scans_taken(b, w, s),
        None => false,
    }
}

/// Whether the headers of a stream tell that it is a frame of a motion JPEG.
pub open spec fn in_motion(b: Seq<u8>) -> bool {
    headers_from(b, 2, false, no_headers()) matches Some((w, s)) && w.motion
}

/// Whether the decoder gets through a stream: it comes to an image or to an error, and to
/// no panic, in a build with debug assertions and overflow checks or in one without. A
/// frame of a motion JPEG has the standard Huffman tables besides its own.
///
/// Left out are the streams on which it panics. Streams with one component, and most that
/// it reports an error for, are left out too; they have no RGB image to give.
///
/// Beyond those, a stream is left out
/// - where its data break off within the bits of a coefficient, in front of a marker: the
///   decoder then reads bits that are not there;
/// - where the coefficients of a block, times their quantization values, are larger
///   together than [`crate::sequential::BLOCK_LIMIT`], or a DC coefficient has more than
///   16 bits: whether the decoder's arithmetic passes 32 bits is not told further;
/// - where a progressive scan gives a coefficient more than 16 bits, or one past the end
///   of its block.
pub open spec fn decodable(b: Seq<u8>) -> bool {
    b.len() >= 2 && b[0] == 0xff && b[1] == 0xd8 && if in_motion(b) {
        readable(crate::standard::completed(b))
    } else {
        readable(b)
    }
}

impl Tables {
    pub(crate) fn place(&self, i: u8) -> (r: Option<usize>)
        ensures
            r == self.at(i as int),
    {
        if i % 4 == 0 {
            self.first
        } else if i % 4 == 1 {
            self.second
        } else if i % 4 == 2 {
            self.third
        } else {
            self.fourth
        }
    }

    fn joined(&self, i: u8, p: usize) -> (r: Tables)
        ensures
            r == self.with(i as int, p as int),
    {
        let found = Some(p);
        if i == 0 {
            Tables { first: found, ..*self }
        } else if i == 1 {
            Tables { second: found, ..*self }
        } else if i == 2 {
            Tables { third: found, ..*self }
        } else {
            Tables { fourth: found, ..*self }
        }
    }
}

pub(crate) fn word_at(b: &[u8], p: usize) -> (r: usize)
    requires
        p + 2 <= b@.len(),
    ensures
        r == word(b@, p as int),
        r <= 0xffff,
{
    b[p] as usize * 256 + b[p + 1] as usize
}

fn is_factor(k: u8) -> (r: bool)
    ensures
        r == factor_taken(k as int),
{
    k == 1 || k == 2 || k == 4 || k == 8
}

fn are_factors(b: &[u8], f: usize, n: usize) -> (r: bool)
    requires
        n == components(b@, f as int),
        n <= 4,
        f + 8 + 3 * n <= b@.len(),
    ensures
        r == factors_taken(b@, f as int),
{
    let len: usize = b.len();
    let mut i: usize = 0;
    while i < n
        invariant
            i <= n <= 4,
            n == components(b@, f as int),
            f + 8 + 3 * n <= b@.len(),
            b@.len() == len,
            forall|k: int|
                0 <= k < i ==> factor_taken(#[trigger] horizontal(b@, f as int, k)) && factor_taken(
                    vertical(b@, f as int, k),
                ),
        decreases n - i,
    {
        let c: u8 = b[f + 9 + 3 * i];
        if !is_factor(c / 16) || !is_factor(c % 16) {
            proof {
                if factors_taken(b@, f as int) {
                    let h = horizontal(b@, f as int, i as int);
                    assert(factor_taken(h));
                }
            }
            return false;
        }
        i = i + 1;
    }
    true
}

fn is_frame_whole(b: &[u8], f: usize) -> (r: bool)
    requires
        f + 2 <= b@.len(),
    ensures
        r == frame_whole(b@, f as int),
{
    let len: usize = b.len();
    if len - f < 8 {
        return false;
    }
    let n: usize = b[f + 7] as usize;
    let length = word_at(b, f);
    if n < 2 || n > 4 || length != 8 + 3 * n || len - f < length {
        return false;
    }
    let (width, height) = (word_at(b, f + 5), word_at(b, f + 3));
    0 < width && width <= 0x4000 && 0 < height && height <= 0x4000 && are_factors(b, f, n)
}

fn symbols_at(b: &[u8], p: usize) -> (r: usize)
    requires
        p + 16 <= b@.len(),
    ensures
        r == symbols(b@, p as int, 16),
{
    let len: usize = b.len();
    let mut sum: usize = 0;
    let mut k: usize = 0;
    while k < 16
        invariant
            k <= 16,
            b@.len() == len,
            p + 16 <= b@.len(),
            sum == symbols(b@, p as int, k as nat),
            sum <= 255 * k,
        decreases 16 - k,
    {
        sum = sum + b[p + k] as usize;
        k = k + 1;
    }
    sum
}

fn huffman_tables_at(
    b: &[u8],
    start: usize,
    length: usize,
    dc_before: Tables,
    ac_before: Tables,
) -> (r: Option<(Tables, Tables)>)
    requires
        start <= b@.len(),
        length <= 0xffff,
    ensures
        r == huffman_tables(b@, start as int, length as int, dc_before, ac_before),
{
    let len: usize = b.len();
    let mut dc = dc_before;
    let mut ac = ac_before;
    let mut p: usize = start;
    let mut left: usize = length;
    while left > 16
        invariant
            b@.len() == len,
            p <= len,
            huffman_tables(b@, start as int, length as int, dc_before, ac_before)
                == huffman_tables(b@, p as int, left as int, dc, ac),
        decreases left,
    {
        if len - p < 17 {
            return None;
        }
        let info: u8 = b[p];
        let count = symbols_at(b, p + 1);
        if info / 16 > 1 || info % 16 > 3 || count > 256 || count > left - 17 {
            return None;
        }
        if info / 16 == 0 {
            dc = dc.joined(info % 16, p + 1);
        } else {
            ac = ac.joined(info % 16, p + 1);
        }
        left = left - 17 - count;
        if len - p - 17 < count {
            proof {
                lemma_tables_past_the_end(b@, p + 17 + count, left as int, dc, ac);
            }
            return if left == 0 {
                Some((dc, ac))
            } else {
                None
            };
        }
        p = p + 17 + count;
    }
    if left == 0 {
        Some((dc, ac))
    } else {
        None
    }
}

/// No table begins past the end of a stream.
proof fn lemma_tables_past_the_end(b: Seq<u8>, p: int, left: int, dc: Tables, ac: Tables)
    requires
        p > b.len(),
    ensures
        huffman_tables(b, p, left, dc, ac) == (if left == 0 {
            Some((dc, ac))
        } else {
            None::<(Tables, Tables)>
        }),
{
}

fn quant_tables_at(b: &[u8], start: usize, length: usize, before: Tables) -> (r: Option<Tables>)
    requires
        start <= b@.len(),
        length <= 0xffff,
    ensures
        r == quant_tables(b@, start as int, length as int, before),
{
    let len: usize = b.len();
    let mut quant = before;
    let mut p: usize = start;
    let mut left: usize = length;
    while left > 0
        invariant
            b@.len() == len,
            p <= len,
            quant_tables(b@, start as int, length as int, before) == quant_tables(
                b@,
                p as int,
                left as int,
                quant,
            ),
        decreases left,
    {
        if p >= len {
            return None;
        }
        let info: u8 = b[p];
        let size: usize = 65 + 64 * (info / 16) as usize;
        if info / 16 > 1 || info % 16 > 3 || size > left || size > len - p {
            return None;
        }
        quant = quant.joined(info % 16, p);
        p = p + size;
        left = left - size;
    }
    Some(quant)
}

fn is_avi_at(b: &[u8], p: usize) -> (r: bool)
    requires
        p <= b@.len(),
    ensures
        r == avi_at(b@, p as int),
{
    b.len() - p >= 5 && b[p] == 0x41 && b[p + 1] == 0x56 && b[p + 2] == 0x49 && b[p + 3] == 0x31
        && b[p + 4] == 0
}

fn is_adobe_at(b: &[u8], p: usize) -> (r: bool)
    requires
        p <= b@.len(),
    ensures
        r == adobe_at(b@, p as int),
{
    b.len() - p >= 5 && b[p] == 0x41 && b[p + 1] == 0x64 && b[p + 2] == 0x6f && b[p + 3] == 0x62
        && b[p + 4] == 0x65
}

pub(crate) fn segment_at(b: &[u8], m: u8, q: usize, w: Headers) -> (r: Option<Headers>)
    requires
        q <= b@.len(),
    ensures
        r == segment(b@, m, q as int, w),
        r is Some ==> q + 2 <= b@.len(),
{
    let len: usize = b.len();
    if m == 0xd9 || m == 0xcc || m == 0xdc || len - q < 2 {
        return None;
    }
    let length = word_at(b, q);
    if length < 2 {
        return None;
    }
    if m == 0xc0 || m == 0xc1 || m == 0xc2 {
        if w.frame.is_some() || !is_frame_whole(b, q) {
            return None;
        }
        let transform: u8 = if b[q + 7] == 4 && w.transform == 1 {
            0
        } else {
            w.transform
        };
        Some(Headers { frame: Some(q), progressive: m == 0xc2, transform, ..w })
    } else if m == 0xc4 {
        match huffman_tables_at(b, q + 2, length - 2, w.dc, w.ac) {
            Some((dc, ac)) => Some(Headers { dc, ac, ..w }),
            None => None,
        }
    } else if m == 0xdb {
        match quant_tables_at(b, q + 2, length - 2, w.quant) {
            Some(quant) => Some(Headers { quant, ..w }),
            None => None,
        }
    } else if m == 0xdd {
        if length != 4 || len - q < 4 {
            None
        } else {
            let interval: u64 = word_at(b, q + 2) as u64;
            Some(Headers { interval, todo: interval, ..w })
        }
    } else if m == 0xe0 {
        Some(Headers { motion: w.motion || (length > 5 && is_avi_at(b, q + 2)), ..w })
    } else if m == 0xee {
        if length < 14 || len - q < length {
            None
        } else if is_adobe_at(b, q + 2) {
            if b[q + 13] > 2 {
                None
            } else {
                Some(Headers { transform: b[q + 13], ..w })
            }
        } else {
            Some(w)
        }
    } else {
        Some(w)
    }
}

/// Follows the segments of a stream up to its first scan.
fn headers_of(b: &[u8]) -> (r: Option<(Headers, usize)>)
    requires
        b@.len() >= 2,
    ensures
        match r {
            Some((w, s)) => headers_from(b@, 2, false, no_headers()) == Some((w, s as int)) && s
                <= b@.len(),
            None => headers_from(b@, 2, false, no_headers()) is None,
        },
{
    let len: usize = b.len();
    let none = Tables { first: None, second: None, third: None, fourth: None };
    let mut w = Headers {
        frame: None,
        progressive: false,
        transform: 1,
        motion: false,
        dc: none,
        ac: none,
        quant: none,
        interval: 0,
        todo: 0x7fff_ffff,
    };
    let mut p: usize = 2;
    let mut armed = false;
    while p < len
        invariant
            b@.len() == len,
            p <= len,
            headers_from(b@, 2, false, no_headers()) == headers_from(b@, p as int, armed, w),
        decreases len - p,
    {
        let m: u8 = b[p];
        if armed && m != 0xff && m != 0 {
            if m == 0xda {
                return Some((w, p + 1));
            }
            let next = match segment_at(b, m, p + 1, w) {
                Some(h) => h,
                None => return None,
            };
            let length = word_at(b, p + 1);
            let size: usize = if m == 0xe0 && length == 6 {
                7
            } else {
                length
            };
            if len - p - 1 < size {
                return None;
            }
            p = p + 1 + size;
            armed = false;
            w = next;
        } else {
            armed = m == 0xff;
            p = p + 1;
        }
    }
    None
}

/// A frame within a stream holds what its header says.
pub open spec fn in_frame(b: Seq<u8>, f: int) -> bool {
    0 <= f && frame_whole(b, f)
}

/// The frame that the headers tell of is whole.
proof fn lemma_frame_is_whole(b: Seq<u8>, p: int, armed: bool, w: Headers)
    requires
        b.len() <= usize::MAX,
        0 <= p,
        w.frame matches Some(f) ==> in_frame(b, f as int),
    ensures
        headers_from(b, p, armed, w) matches Some((h, s)) ==> (h.frame matches Some(f) ==> in_frame(
            b,
            f as int,
        )),
    decreases b.len() - p,
{
    if p < b.len() {
        if armed && b[p] != 0xff && b[p] != 0 {
            if b[p] != 0xda {
                let end = segment_end(b, b[p], p + 1);
                if let Some(next) = segment(b, b[p], p + 1, w) {
                    if p < end <= b.len() {
                        lemma_frame_is_whole(b, end, false, next);
                    }
                }
            }
        } else {
            lemma_frame_is_whole(b, p + 1, b[p] == 0xff, w);
        }
    }
}

pub(crate) proof fn lemma_product(a: int, b: int, x: int, y: int)
    requires
        0 <= a <= x,
        0 <= b <= y,
    ensures
        0 <= a * b <= x * y,
{
    assert(0 <= a * b <= x * y) by (nonlinear_arith)
        requires
            0 <= a <= x,
            0 <= b <= y,
    ;
}

pub(crate) fn steps_of(n: u64, k: u64) -> (r: u64)
    requires
        1 <= n <= 0xffff,
        1 <= k <= 64,
    ensures
        r == steps(n as int, k as int),
        1 <= r <= n,
{
    let r: u64 = (n + k - 1) / k;
    proof {
        vstd::arithmetic::div_mod::lemma_fundamental_div_mod(n + k - 1, k as int);
        assert(1 <= r <= n) by (nonlinear_arith)
            requires
                n + k - 1 == k * r + (n + k - 1) % k as int,
                0 <= (n + k - 1) % k as int,
                (n + k - 1) % k as int <= k - 1,
                1 <= n,
                1 <= k,
        ;
    }
    r
}

pub(crate) fn components_of(b: &[u8], f: usize) -> (r: usize)
    requires
        in_frame(b@, f as int),
    ensures
        r == components(b@, f as int),
        2 <= r <= 4,
{
    let len: usize = b.len();
    b[f + 7] as usize
}

pub(crate) fn width_of(b: &[u8], f: usize) -> (r: u64)
    requires
        in_frame(b@, f as int),
    ensures
        r == frame_width(b@, f as int),
        1 <= r <= 0xffff,
{
    let len: usize = b.len();
    word_at(b, f + 5) as u64
}

pub(crate) fn height_of(b: &[u8], f: usize) -> (r: u64)
    requires
        in_frame(b@, f as int),
    ensures
        r == frame_height(b@, f as int),
        1 <= r <= 0xffff,
{
    let len: usize = b.len();
    word_at(b, f + 3) as u64
}

pub(crate) fn horizontal_of(b: &[u8], f: usize, i: usize) -> (r: u64)
    requires
        in_frame(b@, f as int),
        i < components(b@, f as int),
    ensures
        r == horizontal(b@, f as int, i as int),
        1 <= r <= 8,
{
    let len: usize = b.len();
    assert(factor_taken(horizontal(b@, f as int, i as int)));
    (b[f + 9 + 3 * i] / 16) as u64
}

pub(crate) fn vertical_of(b: &[u8], f: usize, i: usize) -> (r: u64)
    requires
        in_frame(b@, f as int),
        i < components(b@, f as int),
    ensures
        r == vertical(b@, f as int, i as int),
        1 <= r <= 8,
{
    let len: usize = b.len();
    assert(factor_taken(horizontal(b@, f as int, i as int)));
    (b[f + 9 + 3 * i] % 16) as u64
}

fn widest_of(b: &[u8], f: usize, i: usize) -> (r: u64)
    requires
        in_frame(b@, f as int),
        i < components(b@, f as int),
    ensures
        r == widest(b@, f as int, i as nat),
        1 <= r <= 8,
    decreases i,
{
    let h = horizontal_of(b, f, i);
    if i == 0 {
        h
    } else {
        let before = widest_of(b, f, i - 1);
        if h > before {
            h
        } else {
            before
        }
    }
}

fn tallest_of(b: &[u8], f: usize, i: usize) -> (r: u64)
    requires
        in_frame(b@, f as int),
        i < components(b@, f as int),
    ensures
        r == tallest(b@, f as int, i as nat),
        1 <= r <= 8,
    decreases i,
{
    let v = vertical_of(b, f, i);
    if i == 0 {
        v
    } else {
        let before = tallest_of(b, f, i - 1);
        if v > before {
            v
        } else {
            before
        }
    }
}

pub(crate) fn h_max_of(b: &[u8], f: usize) -> (r: u64)
    requires
        in_frame(b@, f as int),
    ensures
        r == h_max(b@, f as int),
        1 <= r <= 8,
{
    let n = components_of(b, f);
    widest_of(b, f, n - 1)
}

pub(crate) fn v_max_of(b: &[u8], f: usize) -> (r: u64)
    requires
        in_frame(b@, f as int),
    ensures
        r == v_max(b@, f as int),
        1 <= r <= 8,
{
    let n = components_of(b, f);
    tallest_of(b, f, n - 1)
}

pub(crate) fn row_blocks_of(b: &[u8], f: usize, i: usize) -> (r: u64)
    requires
        in_frame(b@, f as int),
        i < components(b@, f as int),
    ensures
        r == row_blocks(b@, f as int, i as nat),
        1 <= r <= 0x8_0000,
{
    let h = horizontal_of(b, f, i);
    let w = steps_of(width_of(b, f), 8 * widest_of(b, f, i));
    proof {
        lemma_product(h as int, w as int, 8, 0xffff);
        lemma_product(1, 1, h as int, w as int);
    }
    h * w
}

fn spare_of(b: &[u8], f: usize, i: usize) -> (r: u64)
    requires
        in_frame(b@, f as int),
        i < components(b@, f as int),
    ensures
        r == spare(b@, f as int, i as int),
        1 <= r <= 2,
{
    if i != 0 && (horizontal_of(b, f, 0) == 2 || vertical_of(b, f, 0) == 2) && (horizontal_of(
        b,
        f,
        i,
    ) != 1 || vertical_of(b, f, i) != 1) {
        2
    } else {
        1
    }
}

/// By how much component `i` is scaled up.
fn scale_of(b: &[u8], f: usize, i: usize) -> (r: (u64, u64))
    requires
        in_frame(b@, f as int),
        i < components(b@, f as int),
    ensures
        r.0 == h_max(b@, f as int) / horizontal(b@, f as int, i as int),
        r.1 == v_max(b@, f as int) / vertical(b@, f as int, i as int),
        r.0 <= 8,
        r.1 <= 8,
{
    let (hm, vm) = (h_max_of(b, f), v_max_of(b, f));
    let (h, v) = (horizontal_of(b, f, i), vertical_of(b, f, i));
    proof {
        vstd::arithmetic::div_mod::lemma_div_is_ordered_by_denominator(hm as int, 1, h as int);
        vstd::arithmetic::div_mod::lemma_div_is_ordered_by_denominator(vm as int, 1, v as int);
    }
    (hm / h, vm / v)
}

fn is_any_between_rows(b: &[u8], f: usize) -> (r: bool)
    requires
        in_frame(b@, f as int),
    ensures
        r == any_between_rows(b@, f as int),
{
    let n = components_of(b, f);
    let mut i: usize = 0;
    while i < n
        invariant
            i <= n,
            n == components(b@, f as int),
            in_frame(b@, f as int),
            forall|k: int| 0 <= k < i ==> !#[trigger] between_rows(b@, f as int, k),
        decreases n - i,
    {
        let (hs, vs) = scale_of(b, f, i);
        if vs == 2 && (hs == 1 || hs == 2) {
            assert(between_rows(b@, f as int, i as int));
            return true;
        }
        i = i + 1;
    }
    false
}

fn is_scalable(b: &[u8], f: usize, i: usize) -> (r: bool)
    requires
        in_frame(b@, f as int),
        i < components(b@, f as int),
    ensures
        r == scalable(b@, f as int, i as nat),
{
    let (hs, vs) = scale_of(b, f, i);
    let v = vertical_of(b, f, i);
    if hs == 1 && vs == 1 {
        return true;
    }
    if hs == 2 && vs == 1 {
        return v == spare_of(b, f, i);
    }
    if hs == 1 && vs == 2 {
        return v == 1;
    }
    if hs == 2 && vs == 2 {
        return v == 1 && 2 * row_blocks_of(b, f, i) == row_blocks_of(b, f, 0);
    }
    let (hm, vm) = (h_max_of(b, f), v_max_of(b, f));
    let height = height_of(b, f);
    let rows: u64 = if height < 8 * vm {
        height
    } else {
        8 * vm
    };
    let across = steps_of(width_of(b, f), 8 * hm);
    let blocks = row_blocks_of(b, f, i);
    let room = spare_of(b, f, i);
    proof {
        lemma_product(hm as int, across as int, 8, 0xffff);
        lemma_product(rows as int, hm * across, 64, 0x7_fff8);
        lemma_product(blocks as int, hs as int, 0x8_0000, 8);
        lemma_product(blocks * hs, vs as int, 0x40_0000, 8);
        lemma_product(blocks * hs * vs, room as int, 0x200_0000, 2);
        lemma_product(hs as int, vs as int, 8, 8);
    }
    rows * (hm * across) <= blocks * hs * vs * room * 8 && (!is_any_between_rows(b, f) || hs * vs
        <= 8)
}

fn is_frame_taken(b: &[u8], f: usize, transformed: bool) -> (r: bool)
    requires
        in_frame(b@, f as int),
    ensures
        r == frame_taken(b@, f as int, transformed),
{
    let (hm, vm) = (h_max_of(b, f), v_max_of(b, f));
    if hm == 1 && vm == 1 {
        return true;
    }
    let n = components_of(b, f);
    if transformed && n >= 3 && width_of(b, f) < 16 && hm > 2 {
        return false;
    }
    let mut i: usize = 0;
    while i < n
        invariant
            i <= n,
            n == components(b@, f as int),
            in_frame(b@, f as int),
            hm == h_max(b@, f as int),
            vm == v_max(b@, f as int),
            hm != 1 || vm != 1,
            forall|k: nat| k < i ==> #[trigger] scalable(b@, f as int, k),
        decreases n - i,
    {
        if !is_scalable(b, f, i) {
            assert(!scalable(b@, f as int, i as nat));
            return false;
        }
        i = i + 1;
    }
    true
}

fn do_rows_agree(b: &[u8], f: usize) -> (r: bool)
    requires
        in_frame(b@, f as int),
    ensures
        r == rows_agree(b@, f as int),
{
    let n = components_of(b, f);
    let across = steps_of(width_of(b, f), 8 * h_max_of(b, f));
    let mut i: usize = 0;
    while i < n
        invariant
            i <= n,
            n == components(b@, f as int),
            in_frame(b@, f as int),
            across == steps(frame_width(b@, f as int), 8 * h_max(b@, f as int)),
            across <= 0xffff,
            forall|k: nat|
                k < i ==> #[trigger] row_blocks(b@, f as int, k) == horizontal(
                    b@,
                    f as int,
                    k as int,
                ) * across,
        decreases n - i,
    {
        let h = horizontal_of(b, f, i);
        proof {
            lemma_product(h as int, across as int, 8, 0xffff);
        }
        if row_blocks_of(b, f, i) != h * across {
            assert(row_blocks(b@, f as int, i as nat) != horizontal(b@, f as int, i as int)
                * steps(frame_width(b@, f as int), 8 * h_max(b@, f as int)));
            return false;
        }
        i = i + 1;
    }
    true
}

pub(crate) fn is_scan_whole(b: &[u8], s: usize) -> (r: bool)
    requires
        s <= b@.len(),
    ensures
        r == scan_whole(b@, s as int),
{
    let len: usize = b.len();
    if len - s < 3 {
        return false;
    }
    let n: usize = b[s + 2] as usize;
    let length = word_at(b, s);
    1 <= n && n <= 4 && length == 6 + 2 * n && length <= len - s
}

fn is_readable(b: &[u8]) -> (r: bool)
    requires
        b@.len() >= 2,
    ensures
        r == readable(b@),
{
    let len: usize = b.len();
    let (w, s) = match headers_of(b) {
        Some(found) => found,
        None => return false,
    };
    let f = match w.frame {
        Some(f) => f,
        None => return false,
    };
    proof {
        lemma_frame_is_whole(b@, 2, false, no_headers());
    }
    if !is_scan_whole(b, s) {
        return false;
    }
    let n = components_of(b, f);
    if w.progressive {
        if n < 3 || (n == 4 && w.transform == 1) {
            return false;
        }
        match crate::progressive::read_planes(b, f, w, s) {
            Some((said, c)) => (n != 4 || said.transform != 1) && is_frame_taken(
                b,
                f,
                said.transform != 0,
            ) && crate::progressive::are_planes_tame(b, f, w, &c),
            None => false,
        }
    } else {
        let whole = b[s + 2] as usize == n;
        let (wide, high) = crate::progressive::size_of(b, f);
        is_frame_taken(b, f, w.transform != 0) && (whole || do_rows_agree(b, f))
            && crate::sequential::are_scans_read(b, f, w, s, whole, wide, high)
    }
}

/// Tests whether the decoder gets through a stream.
pub fn is_decodable(b: &[u8]) -> (r: bool)
    ensures
        r == decodable(b@),
{
    let len: usize = b.len();
    if len < 2 || b[0] != 0xff || b[1] != 0xd8 {
        return false;
    }
    let motion = match headers_of(b) {
        Some((w, _)) => w.motion,
        None => false,
    };
    if motion {
        let whole = crate::standard::complete(b);
        is_readable(whole.as_slice())
    } else {
        is_readable(b)
    }
}

/// Whether a frame has three components, of which the first is sampled once or twice as
/// densely as the others, across and down.
pub open spec fn ordinary(b: Seq<u8>, f: int) -> bool {
    &&& components(b, f) == 3
    &&& 1 <= horizontal(b, f, 0) <= 2
    &&& 1 <= vertical(b, f, 0) <= 2
    &&& forall|i: int| 1 <= i < 3 ==> #[trigger] horizontal(b, f, i) == 1 && vertical(b, f, i) == 1
}

/// The decoder can lay out every ordinary frame.
pub proof fn law_ordinary_frames_are_taken(b: Seq<u8>, f: int, transformed: bool)
    requires
        ordinary(b, f),
    ensures
        frame_taken(b, f, transformed),
        rows_agree(b, f),
{
    let (h, v) = (horizontal(b, f, 0), vertical(b, f, 0));
    assert(horizontal(b, f, 1) == 1 && horizontal(b, f, 2) == 1);
    reveal_with_fuel(widest, 3);
    reveal_with_fuel(tallest, 3);
    assert(h_max(b, f) == h && v_max(b, f) == v);
    assert(h / h == 1 && h / 1 == h && v / v == 1 && v / 1 == v);
    assert forall|i: nat| i < 3 implies #[trigger] scalable(b, f, i) by {
        assert(i == 0 || i == 1 || i == 2);
        assert(widest(b, f, i) == h);
    }
    assert forall|i: nat| i < 3 implies #[trigger] row_blocks(b, f, i) == horizontal(b, f, i as int)
        * steps(frame_width(b, f), 8 * h_max(b, f)) by {
        assert(widest(b, f, i) == h);
    }
}

/// An ordinary sequential frame with one scan of nothing but zeros is decodable, where
/// zero bits stand for blank blocks and no restarts are asked for.
pub proof fn law_blank_frames_are_decodable(b: Seq<u8>, w: Headers, f: usize, s: int)
    requires
        2 <= b.len() <= usize::MAX,
        b[0] == 0xff,
        b[1] == 0xd8,
        headers_from(b, 2, false, no_headers()) == Some((w, s)),
        w.frame == Some(f),
        !w.progressive,
        !w.motion,
        w.todo == 0x7fff_ffff,
        ordinary(b, f as int),
        0 <= s,
        scan_whole(b, s),
        scan_components(b, s) == 3,
        crate::sequential::blank_from(b, s + word(b, s)),
        crate::sequential::parts(b, f as int, w, s, 3) matches Some(found) && forall|i: int|
            0 <= i < found.len() ==> crate::sequential::part_blank(b, #[trigger] found[i]),
    ensures
        decodable(b),
{
    lemma_frame_is_whole(b, 2, false, no_headers());
    law_ordinary_frames_are_taken(b, f as int, w.transform != 0);
    crate::progressive::lemma_area(b, f as int, 0);
    let (wide, high) = (
        crate::progressive::across(b, f as int),
        crate::progressive::down(b, f as int),
    );
    lemma_product(wide, high, 2055, 2055);
    crate::sequential::law_blank_scans_are_read(
        b,
        f as int,
        w,
        s,
        true,
        wide as nat,
        high as nat,
    );
}

} // verus!
