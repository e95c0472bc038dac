//! Entropy-coded data: its bits, and the codes that they are read by.
//!
//! The decoder reads the data of a scan through a window of bits, which it fills four
//! bytes at a time. A marker in the data ends them; from then on it reads zeros. What it
//! has in the window when it meets the marker must suffice for what it reads next.
use vstd::prelude::*;

verus! {

/// A place in entropy-coded data.
#[derive(Clone, Copy, Debug, PartialEq, Eq)]
pub struct Reader {
    /// Place of the next byte.
    pub at: usize,
    /// The window: its low `left` bits are those to be read next.
    pub held: u64,
    pub left: u64,
    /// The marker that ended the data, or zero.
    pub marker: u8,
    /// Whether the end of the image has been passed.
    pub over: bool,
}

/// The reader at the start of data.
pub open spec fn reader_at(at: int, over: bool) -> Reader {
    Reader { at: at as usize, held: 0, left: 0, marker: 0, over }
}

/// Whether the decoder knows a marker.
pub open spec fn known(m: u8) -> bool {
    ||| 0xc0 <= m <= 0xc2
    ||| m == 0xc4
    ||| m == 0xcc
    ||| 0xd0 <= m <= 0xdd
    ||| 0xe0 <= m <= 0xe2
    ||| 0xed <= m <= 0xee
    ||| m == 0xfe
}

/// Whether a marker restarts the data.
pub open spec fn restart(m: u8) -> bool {
    0xd0 <= m <= 0xd7
}

/// The byte at `p`; behind the end there are zeros.
pub open spec fn byte(b: Seq<u8>, p: int) -> u8 {
    if 0 <= p < b.len() {
        b[p]
    } else {
        0
    }
}

/// The first place from `p` on that does not hold `FF`.
pub open spec fn past_fill(b: Seq<u8>, p: int) -> int
    decreases b.len() - p,
{
    if 0 <= p < b.len() && b[p] == 0xff {
        past_fill(b, p + 1)
    } else {
        p
    }
}

/// The place behind `p`, which is not behind the end.
pub open spec fn behind(b: Seq<u8>, p: int) -> usize {
    if p < b.len() {
        (p + 1) as usize
    } else {
        b.len() as usize
    }
}

/// The reader with one byte more in its window.
pub open spec fn with_byte(r: Reader, x: u8, at: usize) -> Reader {
    Reader { at, held: (r.held << 8) | x as u64, left: (r.left + 8) as u64, ..r }
}

/// The reader behind a marker. The end of the image counts as a byte of zeros.
pub open spec fn with_marker(r: Reader, m: u8, at: usize) -> Reader {
    let met = Reader {
        at,
        marker: if known(m) {
            m
        } else {
            0
        },
        ..r
    };
    if m == 0xd9 {
        with_byte(met, 0, at)
    } else {
        met
    }
}

/// Reads up to `n` bytes into the window, and stops behind a marker.
pub open spec fn gathered(b: Seq<u8>, r: Reader, n: nat) -> Reader
    decreases n,
{
    if n == 0 {
        r
    } else {
        let p = r.at as int;
        let q = past_fill(b, p);
        if q == p {
            gathered(b, with_byte(r, byte(b, p), behind(b, p)), (n - 1) as nat)
        } else if byte(b, q) == 0 {
            gathered(b, with_byte(r, 0xff, behind(b, q)), (n - 1) as nat)
        } else {
            with_marker(r, byte(b, q), behind(b, q))
        }
    }
}

/// Fills the window where it holds fewer than 32 bits.
pub open spec fn refilled(b: Seq<u8>, r: Reader) -> Reader {
    if r.left >= 32 {
        r
    } else if r.marker != 0 || r.over {
        Reader { held: r.held << 32, left: (r.left + 32) as u64, ..r }
    } else {
        gathered(b, r, 4)
    }
}

/// The next 16 bits, with zeros behind the window.
pub open spec fn ahead(r: Reader) -> u64 {
    if r.left >= 16 {
        (r.held >> (r.left - 16) as u64) & 0xffff
    } else {
        (r.held << (16 - r.left) as u64) & 0xffff
    }
}

/// Finds the code that begins 16 bits of value `v`, in the Huffman table whose counts
/// are at `t`: tries the codes of length `l`, of which `first` is the smallest and
/// belongs to symbol `index`. `unit` is the weight of their last bit. Gives back the
/// symbol and the length of its code.
pub open spec fn coded(
    b: Seq<u8>,
    t: int,
    v: int,
    l: int,
    unit: int,
    first: int,
    index: int,
) -> Option<(u8, int)>
    decreases 17 - l,
{
    if l < 1 || l > 16 || unit < 1 || first > 0xffff || index > 256 {
        None
    } else {
        let n = byte(b, t + l - 1) as int;
        let code = v / unit;
        if first <= code < first + n {
            Some((byte(b, t + 16 + index + code - first), l))
        } else {
            coded(b, t, v, l + 1, unit / 2, (first + n) * 2, index + n)
        }
    }
}

/// Reads one symbol by the Huffman table at `t`. `None` where no code is there, or
/// where the window ends within it.
pub open spec fn symbol(b: Seq<u8>, r: Reader, t: int) -> Option<(u8, Reader)> {
    let full = refilled(b, r);
    match coded(b, t, ahead(full) as int, 1, 0x8000, 0, 0) {
        Some((x, l)) => if l <= full.left {
            Some((x, Reader { left: (full.left - l) as u64, ..full }))
        } else {
            None
        },
        None => None,
    }
}

/// Reads `n` bits as a number. `None` where the window has fewer.
pub open spec fn number(r: Reader, n: u64) -> Option<(u64, Reader)> {
    if n <= r.left {
        let rest = (r.left - n) as u64;
        Some(((r.held >> rest) & !(0xffff_ffff_ffff_ffffu64 << n), Reader { left: rest, ..r }))
    } else {
        None
    }
}

/// Reads a signed number of `n` bits: those that begin with a zero are negative.
pub open spec fn amount(r: Reader, n: u64) -> Option<(int, Reader)> {
    match number(r, n) {
        Some((x, rest)) => Some(
            (
                if n > 0 && x < 1u64 << (n - 1) as u64 {
                    x + 1 - (1u64 << n)
                } else {
                    x as int
                },
                rest,
            ),
        ),
        None => None,
    }
}

/// The next marker from `p` on, and the place behind it. `None` where there is none, or
/// where the decoder does not know it.
pub open spec fn next_marker(b: Seq<u8>, p: int) -> Option<(u8, int)>
    decreases b.len() - p,
{
    if p < 0 || p >= b.len() {
        None
    } else if b[p] != 0xff {
        next_marker(b, p + 1)
    } else {
        let q = past_fill(b, p + 1);
        if q >= b.len() {
            None
        } else if p < q && b[q] == 0 {
            next_marker(b, q + 1)
        } else if p < q && known(b[q]) {
            Some((b[q], q + 1))
        } else {
            None
        }
    }
}

/// The next marker is found behind any bytes of data, whose `FF` bytes each have a zero
/// behind them: a frame header, Huffman or quantization tables, a restart, a restart interval,
/// a scan, the end of the image, a comment, or an application segment of the kinds that
/// cameras write.
pub proof fn law_next_marker_is_found(b: Seq<u8>, p: int, q: int)
    requires
        0 <= p <= q,
        q + 2 <= b.len(),
        forall|i: int| p <= i < q && #[trigger] b[i] == 0xff ==> i + 1 < q && b[i + 1] == 0,
        b[q] == 0xff,
        0xc0 <= b[q + 1] <= 0xc2 || b[q + 1] == 0xc4 || 0xd0 <= b[q + 1] <= 0xd7 || b[q + 1] == 0xd9
            || b[q + 1] == 0xda || b[q + 1] == 0xdb || b[q + 1] == 0xdd || b[q + 1] == 0xe0
            || b[q + 1] == 0xe1 || b[q + 1] == 0xe2 || b[q + 1] == 0xed || b[q + 1] == 0xee
            || b[q + 1] == 0xfe,
    ensures
        next_marker(b, p) == Some((b[q + 1], q + 2)),
    decreases q - p,
{
    if p < q && b[p] != 0xff {
        law_next_marker_is_found(b, p + 1, q);
    } else if p < q {
        assert(b[p + 1] == 0);
        assert(past_fill(b, p + 1) == p + 1);
        law_next_marker_is_found(b, p + 2, q);
    } else {
        assert(past_fill(b, p + 1) == p + 1);
    }
}

/// A reader whose window has room.
pub open spec fn in_data(b: Seq<u8>, r: Reader) -> bool {
    r.at <= b.len() && r.left <= 63
}

pub(crate) fn is_known(m: u8) -> (r: bool)
    ensures
        r == known(m),
{
    (0xc0 <= m && m <= 0xc2) || m == 0xc4 || m == 0xcc || (0xd0 <= m && m <= 0xdd) || (0xe0 <= m
        && m <= 0xe2) || (0xed <= m && m <= 0xee) || m == 0xfe
}

pub(crate) fn is_restart(m: u8) -> (r: bool)
    ensures
        r == restart(m),
{
    0xd0 <= m && m <= 0xd7
}

fn past_fill_at(b: &[u8], p: usize) -> (q: usize)
    requires
        p <= b@.len(),
    ensures
        q == past_fill(b@, p as int),
        p <= q <= b@.len(),
{
    let mut q: usize = p;
    while q < b.len() && b[q] == 0xff
        invariant
            p <= q <= b@.len(),
            past_fill(b@, p as int) == past_fill(b@, q as int),
        decreases b@.len() - q,
    {
        q = q + 1;
    }
    q
}

/// Reads up to four bytes into the window.
fn gather(b: &[u8], start: Reader) -> (r: Reader)
    requires
        start.at <= b@.len(),
        start.left < 32,
    ensures
        r == gathered(b@, start, 4),
        in_data(b@, r),
{
    let len: usize = b.len();
    let mut r = start;
    let mut n: u64 = 4;
    while n > 0
        invariant
            n <= 4,
            b@.len() == len,
            r.at <= len,
            r.left + 8 * n < 64,
            gathered(b@, start, 4) == gathered(b@, r, n as nat),
        decreases n,
    {
        let q = past_fill_at(b, r.at);
        let end: usize = if q < len {
            q + 1
        } else {
            len
        };
        let x: u8 = if q < len {
            b[q]
        } else {
            0
        };
        if q != r.at && x != 0 {
            r.at = end;
            r.marker = if is_known(x) {
                x
            } else {
                0
            };
            if x == 0xd9 {
                r.held = (r.held << 8) | 0u8 as u64;
                r.left = r.left + 8;
            }
            return r;
        }
        let next: u8 = if q != r.at {
            0xff
        } else {
            x
        };
        r.at = end;
        r.held = (r.held << 8) | next as u64;
        r.left = r.left + 8;
        n = n - 1;
    }
    r
}

pub(crate) fn refill(b: &[u8], r: Reader) -> (full: Reader)
    requires
        in_data(b@, r),
    ensures
        full == refilled(b@, r),
        in_data(b@, full),
{
    if r.left >= 32 {
        r
    } else if r.marker != 0 || r.over {
        Reader { held: r.held << 32, left: r.left + 32, ..r }
    } else {
        gather(b, r)
    }
}

/// The byte `k` behind `p`.
pub(crate) fn byte_from(b: &[u8], p: usize, k: usize) -> (r: u8)
    ensures
        r == byte(b@, p + k),
{
    if p < b.len() && k < b.len() - p {
        b[p + k]
    } else {
        0
    }
}

fn find_code(b: &[u8], t: usize, v: u64) -> (r: Option<(u8, u64)>)
    requires
        v <= 0xffff,
    ensures
        match r {
            Some((x, l)) => coded(b@, t as int, v as int, 1, 0x8000, 0, 0) == Some((x, l as int))
                && 1 <= l <= 16,
            None => coded(b@, t as int, v as int, 1, 0x8000, 0, 0) is None,
        },
{
    let mut l: u64 = 1;
    let mut unit: u64 = 0x8000;
    let mut first: u64 = 0;
    let mut index: u64 = 0;
    while l <= 16 && unit >= 1 && first <= 0xffff && index <= 256
        invariant
            1 <= l <= 17,
            unit <= 0x8000,
            v <= 0xffff,
            first <= 0x4_0000,
            index <= 512,
            coded(b@, t as int, v as int, 1, 0x8000, 0, 0) == coded(
                b@,
                t as int,
                v as int,
                l as int,
                unit as int,
                first as int,
                index as int,
            ),
        decreases 17 - l,
    {
        let n: u64 = byte_from(b, t, l as usize - 1) as u64;
        let code: u64 = v / unit;
        if first <= code && code < first + n {
            return Some((byte_from(b, t, 16 + (index + code - first) as usize), l));
        }
        l = l + 1;
        unit = unit / 2;
        first = (first + n) * 2;
        index = index + n;
    }
    None
}

/// The decoder's lookahead and symbol reading.
pub(crate) fn read_symbol(b: &[u8], r: Reader, t: usize) -> (s: Option<(u8, Reader)>)
    requires
        in_data(b@, r),
    ensures
        s == symbol(b@, r, t as int),
        s matches Some((x, rest)) ==> in_data(b@, rest),
{
    let full = refill(b, r);
    let v: u64 = if full.left >= 16 {
        (full.held >> (full.left - 16)) & 0xffff
    } else {
        (full.held << (16 - full.left)) & 0xffff
    };
    assert(v <= 0xffff) by {
        let h = full.held;
        let (x, y) = ((full.left - 16) as u64, (16 - full.left) as u64);
        assert((h >> x) & 0xffff <= 0xffff) by (bit_vector);
        assert((h << y) & 0xffff <= 0xffff) by (bit_vector);
    }
    match find_code(b, t, v) {
        Some((x, l)) => if l <= full.left {
            Some((x, Reader { left: full.left - l, ..full }))
        } else {
            None
        },
        None => None,
    }
}

pub(crate) fn read_number(r: Reader, n: u64) -> (s: Option<(u64, Reader)>)
    requires
        r.left <= 63,
        n <= 16,
    ensures
        s == number(r, n),
        s matches Some((x, rest)) ==> x <= 0xffff && rest.at == r.at && rest.left <= r.left,
{
    if n <= r.left {
        let rest: u64 = r.left - n;
        let x: u64 = (r.held >> rest) & !(0xffff_ffff_ffff_ffffu64 << n);
        assert(x <= 0xffff) by {
            let h = r.held;
            assert((h >> rest) & !(0xffff_ffff_ffff_ffffu64 << n) <= 0xffff) by (bit_vector)
                requires
                    n <= 16,
            ;
        }
        Some((x, Reader { left: rest, ..r }))
    } else {
        None
    }
}

pub(crate) fn read_amount(r: Reader, n: u64) -> (s: Option<(i64, Reader)>)
    requires
        r.left <= 63,
        n <= 16,
    ensures
        s is Some <==> amount(r, n) is Some,
        s matches Some((x, rest)) ==> amount(r, n) == Some((x as int, rest)),
        s matches Some((x, rest)) ==> -0x1_0000 <= x <= 0xffff,
        s matches Some((x, rest)) ==> rest.at == r.at && rest.left <= r.left,
{
    match read_number(r, n) {
        Some((x, rest)) => {
            if n > 0 && x < 1u64 << (n - 1) {
                let top: u64 = 1u64 << n;
                assert(1 <= 1u64 << n <= 0x1_0000) by (bit_vector)
                    requires
                        n <= 16,
                ;
                Some((x as i64 + 1 - top as i64, rest))
            } else {
                Some((x as i64, rest))
            }
        },
        None => None,
    }
}

pub(crate) fn find_marker(b: &[u8], start: usize) -> (r: Option<(u8, usize)>)
    ensures
        match r {
            Some((m, p)) => next_marker(b@, start as int) == Some((m, p as int)) && start < p
                <= b@.len(),
            None => next_marker(b@, start as int) is None,
        },
{
    let len: usize = b.len();
    let mut p: usize = start;
    while p < len
        invariant
            b@.len() == len,
            start <= p,
            next_marker(b@, start as int) == next_marker(b@, p as int),
        decreases len - p,
    {
        if b[p] != 0xff {
            p = p + 1;
        } else {
            let q = past_fill_at(b, p + 1);
            if q >= len {
                return None;
            }
            if b[q] == 0 {
                p = q + 1;
            } else if is_known(b[q]) {
                return Some((b[q], q + 1));
            } else {
                return None;
            }
        }
    }
    None
}

} // verus!
