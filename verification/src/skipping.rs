//! Segments that say nothing of the image leave a stream as decodable as it is.
//!
//! Two streams are read side by side. From some place on the bytes of the one stand in
//! the other, a number of places further on; what was read before has told the same.
use crate::bits::{
    amount, behind, byte, coded, gathered, next_marker, number, past_fill, reader_at, refilled,
    symbol, with_byte, with_marker, Reader,
};
use crate::progressive::{
    ac_first, ac_refined, across, advanced, alone, area, blank_planes, block_size, block_tame,
    blocks_tame, corrected, counted, dc_read, down, group, groups, layer, layer_read, layers, plane,
    plane_tame, planes_read, planes_tame, read_on, refined, scan_read, short, together, trailing,
    with_bit, Layer,
};
use crate::sequential::{
    ac_block, block, blocks, dc_value, heeded, named, one_step, part, parts, quant, restarted, row,
    row_ended, rows, scans_read, walk_begun, weight, Part, Walk, BLOCK_LIMIT,
};
use crate::stream::{
    components, decodable, headers_from, horizontal, no_headers, readable, scan_components,
    scan_whole, segment, segment_end, vertical, word, Headers, Tables,
};
use vstd::prelude::*;

verus! {

/// Whether the bytes of `b` from `s` on stand in `c`, `k` places further on.
spec fn tail_moved(b: Seq<u8>, c: Seq<u8>, s: int, k: int) -> bool {
    &&& 0 <= s <= b.len()
    &&& 0 <= k
    &&& c.len() == b.len() + k
    &&& c.len() <= usize::MAX
    &&& forall|i: int| s <= i < b.len() ==> #[trigger] b[i] == c[i + k]
}

/// A reader `k` places further on.
spec fn on(r: Reader, k: int) -> Reader {
    Reader { at: (r.at + k) as usize, ..r }
}

/// Whether a reader is in the part of a stream that was moved.
spec fn in_tail(b: Seq<u8>, s: int, r: Reader) -> bool {
    s <= r.at <= b.len()
}

proof fn lemma_fill(b: Seq<u8>, c: Seq<u8>, s: int, k: int, p: int)
    requires
        tail_moved(b, c, s, k),
        s <= p <= b.len(),
    ensures
        past_fill(c, p + k) == past_fill(b, p) + k,
        p <= past_fill(b, p) <= b.len(),
    decreases b.len() - p,
{
    if p < b.len() && b[p] == 0xff {
        lemma_fill(b, c, s, k, p + 1);
    }
}

proof fn lemma_gathered(b: Seq<u8>, c: Seq<u8>, s: int, k: int, r: Reader, n: nat)
    requires
        tail_moved(b, c, s, k),
        in_tail(b, s, r),
    ensures
        gathered(c, on(r, k), n) == on(gathered(b, r, n), k),
        in_tail(b, s, gathered(b, r, n)),
    decreases n,
{
    if n > 0 {
        let p = r.at as int;
        let q = past_fill(b, p);
        lemma_fill(b, c, s, k, p);
        assert(byte(c, q + k) == byte(b, q));
        assert(byte(c, p + k) == byte(b, p));
        if q == p {
            let next = with_byte(r, byte(b, p), behind(b, p));
            assert(with_byte(on(r, k), byte(c, p + k), behind(c, p + k)) == on(next, k));
            lemma_gathered(b, c, s, k, next, (n - 1) as nat);
        } else if byte(b, q) == 0 {
            let next = with_byte(r, 0xff, behind(b, q));
            assert(with_byte(on(r, k), 0xff, behind(c, q + k)) == on(next, k));
            lemma_gathered(b, c, s, k, next, (n - 1) as nat);
        } else {
            assert(with_marker(on(r, k), byte(c, q + k), behind(c, q + k)) == on(
                with_marker(r, byte(b, q), behind(b, q)),
                k,
            ));
        }
    }
}

proof fn lemma_refilled(b: Seq<u8>, c: Seq<u8>, s: int, k: int, r: Reader)
    requires
        tail_moved(b, c, s, k),
        in_tail(b, s, r),
    ensures
        refilled(c, on(r, k)) == on(refilled(b, r), k),
        in_tail(b, s, refilled(b, r)),
{
    lemma_gathered(b, c, s, k, r, 4);
}

proof fn lemma_next_marker(b: Seq<u8>, c: Seq<u8>, s: int, k: int, p: int)
    requires
        tail_moved(b, c, s, k),
        s <= p,
    ensures
        match next_marker(b, p) {
            Some((m, q)) => next_marker(c, p + k) == Some((m, q + k)) && p < q <= b.len(),
            None => next_marker(c, p + k) is None,
        },
    decreases b.len() - p,
{
    if p < b.len() {
        if b[p] != 0xff {
            lemma_next_marker(b, c, s, k, p + 1);
        } else {
            let q = past_fill(b, p + 1);
            lemma_fill(b, c, s, k, p + 1);
            if q < b.len() && b[q] == 0 {
                lemma_next_marker(b, c, s, k, q + 1);
            }
        }
    }
}

/// Whether two Huffman tables have the same codes.
spec fn same_codes(b: Seq<u8>, c: Seq<u8>, t: int, u: int) -> bool {
    forall|v: int| #[trigger] coded(b, t, v, 1, 0x8000, 0, 0) == coded(c, u, v, 1, 0x8000, 0, 0)
}

/// Whether two quantization tables have the same values.
spec fn same_quants(b: Seq<u8>, c: Seq<u8>, t: int, u: int) -> bool {
    forall|i: int| 0 <= i < 64 ==> #[trigger] quant(b, t, i) == quant(c, u, i)
}

proof fn lemma_symbol(b: Seq<u8>, c: Seq<u8>, s: int, k: int, r: Reader, t: int, u: int)
    requires
        tail_moved(b, c, s, k),
        in_tail(b, s, r),
        same_codes(b, c, t, u),
    ensures
        match symbol(b, r, t) {
            Some((x, rest)) => symbol(c, on(r, k), u) == Some((x, on(rest, k))) && in_tail(
                b,
                s,
                rest,
            ),
            None => symbol(c, on(r, k), u) is None,
        },
{
    lemma_refilled(b, c, s, k, r);
    let full = refilled(b, r);
    let v = crate::bits::ahead(full) as int;
    assert(crate::bits::ahead(on(full, k)) == crate::bits::ahead(full));
    assert(coded(b, t, v, 1, 0x8000, 0, 0) == coded(c, u, v, 1, 0x8000, 0, 0));
}

proof fn lemma_number(r: Reader, n: u64, k: int)
    ensures
        match number(r, n) {
            Some((x, rest)) => number(on(r, k), n) == Some((x, on(rest, k))) && rest.at == r.at,
            None => number(on(r, k), n) is None,
        },
{
}

proof fn lemma_amount(r: Reader, n: u64, k: int)
    ensures
        match amount(r, n) {
            Some((x, rest)) => amount(on(r, k), n) == Some((x, on(rest, k))) && rest.at == r.at,
            None => amount(on(r, k), n) is None,
        },
{
}

/// A walk `k` places further on.
spec fn on_walk(x: Walk, k: int) -> Walk {
    Walk { reader: on(x.reader, k), ..x }
}

proof fn lemma_ac_block(
    b: Seq<u8>,
    c: Seq<u8>,
    s: int,
    k: int,
    r: Reader,
    t: (int, int),
    q: (int, int),
    at: int,
    sum: int,
)
    requires
        tail_moved(b, c, s, k),
        in_tail(b, s, r),
        same_codes(b, c, t.0, t.1),
        same_quants(b, c, q.0, q.1),
    ensures
        match ac_block(b, r, t.0, q.0, at, sum) {
            Some(rest) => ac_block(c, on(r, k), t.1, q.1, at, sum) == Some(on(rest, k)) && in_tail(
                b,
                s,
                rest,
            ),
            None => ac_block(c, on(r, k), t.1, q.1, at, sum) is None,
        },
    decreases 80 - at,
{
    if 0 <= at < 64 {
        lemma_symbol(b, c, s, k, r, t.0, t.1);
        if let Some((x, after)) = symbol(b, r, t.0) {
            if x % 16 != 0 {
                lemma_amount(after, (x % 16) as u64, k);
                if let Some((v, rest)) = amount(after, (x % 16) as u64) {
                    let p = at + x as int / 16;
                    assert(quant(b, q.0, 63) == quant(c, q.1, 63));
                    assert(quant(b, q.0, p % 64) == quant(c, q.1, p % 64));
                    assert(weight(b, q.0, p) == weight(c, q.1, p));
                    let total = sum + crate::sequential::distance(v) * weight(b, q.0, p);
                    if total <= BLOCK_LIMIT {
                        lemma_ac_block(b, c, s, k, rest, t, q, p + 1, total);
                    }
                }
            } else if x == 0xf0 {
                lemma_ac_block(b, c, s, k, after, t, q, at + 16, sum);
            }
        }
    }
}

proof fn lemma_dc_value(
    b: Seq<u8>,
    c: Seq<u8>,
    s: int,
    k: int,
    r: Reader,
    t: int,
    u: int,
    before: int,
)
    requires
        tail_moved(b, c, s, k),
        in_tail(b, s, r),
        same_codes(b, c, t, u),
    ensures
        match dc_value(b, r, t, before) {
            Some((v, rest)) => dc_value(c, on(r, k), u, before) == Some((v, on(rest, k)))
                && in_tail(b, s, rest),
            None => dc_value(c, on(r, k), u, before) is None,
        },
{
    lemma_symbol(b, c, s, k, r, t, u);
    if let Some((x, after)) = symbol(b, r, t) {
        lemma_amount(after, x as u64, k);
    }
}

/// Whether two scans take the same of a component.
spec fn same_part(b: Seq<u8>, c: Seq<u8>, x: Part, y: Part) -> bool {
    &&& x.component == y.component
    &&& x.blocks == y.blocks
    &&& same_codes(b, c, x.dc as int, y.dc as int)
    &&& same_codes(b, c, x.ac as int, y.ac as int)
    &&& same_quants(b, c, x.quant as int, y.quant as int)
}

proof fn lemma_block(b: Seq<u8>, c: Seq<u8>, s: int, k: int, x: Part, y: Part, w: Walk)
    requires
        tail_moved(b, c, s, k),
        in_tail(b, s, w.reader),
        same_part(b, c, x, y),
    ensures
        match block(b, x, w) {
            Some(next) => block(c, y, on_walk(w, k)) == Some(on_walk(next, k)) && in_tail(
                b,
                s,
                next.reader,
            ),
            None => block(c, y, on_walk(w, k)) is None,
        },
{
    let before = w.predictions.at(x.component as int) as int;
    lemma_dc_value(b, c, s, k, w.reader, x.dc as int, y.dc as int, before);
    if let Some((v, rest)) = dc_value(b, w.reader, x.dc as int, before) {
        let q = (x.quant as int, y.quant as int);
        assert(quant(b, q.0, 0) == quant(c, q.1, 0));
        let sum = crate::sequential::distance(v) * quant(b, q.0, 0);
        lemma_ac_block(b, c, s, k, rest, (x.ac as int, y.ac as int), q, 1, sum);
    }
}

proof fn lemma_blocks(b: Seq<u8>, c: Seq<u8>, s: int, k: int, x: Part, y: Part, w: Walk, n: nat)
    requires
        tail_moved(b, c, s, k),
        in_tail(b, s, w.reader),
        same_part(b, c, x, y),
    ensures
        match blocks(b, x, w, n) {
            Some(next) => blocks(c, y, on_walk(w, k), n) == Some(on_walk(next, k)) && in_tail(
                b,
                s,
                next.reader,
            ),
            None => blocks(c, y, on_walk(w, k), n) is None,
        },
    decreases n,
{
    if n > 0 {
        lemma_block(b, c, s, k, x, y, w);
        if let Some(next) = block(b, x, w) {
            lemma_blocks(b, c, s, k, x, y, next, (n - 1) as nat);
        }
    }
}

/// Whether two scans take the same of all their components.
spec fn same_parts(b: Seq<u8>, c: Seq<u8>, xs: Seq<Part>, ys: Seq<Part>) -> bool {
    xs.len() == ys.len() && forall|i: int|
        0 <= i < xs.len() ==> same_part(b, c, #[trigger] xs[i], ys[i])
}

proof fn lemma_step(
    b: Seq<u8>,
    c: Seq<u8>,
    s: int,
    k: int,
    xs: Seq<Part>,
    ys: Seq<Part>,
    w: Walk,
    i: int,
)
    requires
        tail_moved(b, c, s, k),
        in_tail(b, s, w.reader),
        same_parts(b, c, xs, ys),
    ensures
        match one_step(b, xs, w, i) {
            Some(next) => one_step(c, ys, on_walk(w, k), i) == Some(on_walk(next, k)) && in_tail(
                b,
                s,
                next.reader,
            ),
            None => one_step(c, ys, on_walk(w, k), i) is None,
        },
    decreases xs.len() - i,
{
    if 0 <= i < xs.len() {
        assert(same_part(b, c, xs[i], ys[i]));
        lemma_blocks(b, c, s, k, xs[i], ys[i], w, xs[i].blocks as nat);
        if let Some(next) = blocks(b, xs[i], w, xs[i].blocks as nat) {
            lemma_step(b, c, s, k, xs, ys, next, i + 1);
        }
    }
}

proof fn lemma_heeded(b: Seq<u8>, c: Seq<u8>, s: int, k: int, w: Walk, interval: u64)
    requires
        tail_moved(b, c, s, k),
        in_tail(b, s, w.reader),
    ensures
        match heeded(w, interval) {
            Some(next) => heeded(on_walk(w, k), interval) == Some(on_walk(next, k)) && in_tail(
                b,
                s,
                next.reader,
            ),
            None => heeded(on_walk(w, k), interval) is None,
        },
{
}

proof fn lemma_restarted(b: Seq<u8>, c: Seq<u8>, s: int, k: int, w: Walk, interval: u64)
    requires
        tail_moved(b, c, s, k),
        in_tail(b, s, w.reader),
    ensures
        match restarted(b, w, interval) {
            Some(next) => restarted(c, on_walk(w, k), interval) == Some(on_walk(next, k))
                && in_tail(b, s, next.reader),
            None => restarted(c, on_walk(w, k), interval) is None,
        },
{
    lemma_refilled(b, c, s, k, w.reader);
    let full = refilled(b, w.reader);
    lemma_next_marker(b, c, s, k, full.at as int);
    if interval != 0 && full.marker == 0 && !full.over {
        if let Some((m, p)) = next_marker(b, full.at as int) {
            let met = Walk { reader: Reader { marker: m, at: p as usize, ..full }, ..w };
            lemma_heeded(b, c, s, k, met, interval);
        }
    } else {
        lemma_heeded(b, c, s, k, Walk { reader: full, ..w }, interval);
    }
}

proof fn lemma_row(
    b: Seq<u8>,
    c: Seq<u8>,
    s: int,
    k: int,
    xs: Seq<Part>,
    ys: Seq<Part>,
    interval: u64,
    w: Walk,
    n: nat,
)
    requires
        tail_moved(b, c, s, k),
        in_tail(b, s, w.reader),
        same_parts(b, c, xs, ys),
    ensures
        match row(b, xs, interval, w, n) {
            Some(next) => row(c, ys, interval, on_walk(w, k), n) == Some(on_walk(next, k))
                && in_tail(b, s, next.reader),
            None => row(c, ys, interval, on_walk(w, k), n) is None,
        },
    decreases n,
{
    if n > 0 {
        lemma_step(b, c, s, k, xs, ys, w, 0);
        if let Some(next) = one_step(b, xs, w, 0) {
            let todo = if next.todo == 0 {
                u64::MAX
            } else {
                (next.todo - 1) as u64
            };
            let counted = Walk { todo, ..next };
            lemma_restarted(b, c, s, k, counted, interval);
            if todo == 0 {
                if let Some(again) = restarted(b, counted, interval) {
                    lemma_row(b, c, s, k, xs, ys, interval, again, (n - 1) as nat);
                }
            } else {
                lemma_row(b, c, s, k, xs, ys, interval, counted, (n - 1) as nat);
            }
        }
    }
}

proof fn lemma_rows(
    b: Seq<u8>,
    c: Seq<u8>,
    s: int,
    k: int,
    xs: Seq<Part>,
    ys: Seq<Part>,
    interval: u64,
    w: Walk,
    wide: nat,
    n: nat,
)
    requires
        tail_moved(b, c, s, k),
        in_tail(b, s, w.reader),
        same_parts(b, c, xs, ys),
    ensures
        match rows(b, xs, interval, w, wide, n) {
            Some((more, next)) => rows(c, ys, interval, on_walk(w, k), wide, n) == Some(
                (more, on_walk(next, k)),
            ) && in_tail(b, s, next.reader),
            None => rows(c, ys, interval, on_walk(w, k), wide, n) is None,
        },
    decreases n,
{
    if n > 0 {
        lemma_row(b, c, s, k, xs, ys, interval, w, wide);
        if let Some(next) = row(b, xs, interval, w, wide) {
            if next.reader.marker != 0xda {
                lemma_heeded(b, c, s, k, next, interval);
                if let Some(after) = row_ended(next, interval) {
                    assert(row_ended(on_walk(next, k), interval) == Some(on_walk(after, k)));
                    lemma_rows(b, c, s, k, xs, ys, interval, after, wide, (n - 1) as nat);
                }
            }
        }
    }
}

/// Whether two frame headers say the same.
spec fn same_frame(b: Seq<u8>, c: Seq<u8>, f: int, g: int) -> bool {
    &&& components(b, f) == components(c, g)
    &&& 2 <= components(b, f) <= 4
    &&& crate::stream::frame_width(b, f) == crate::stream::frame_width(c, g)
    &&& crate::stream::frame_height(b, f) == crate::stream::frame_height(c, g)
    &&& forall|i: int|
        0 <= i < components(b, f) ==> #[trigger] horizontal(b, f, i) == horizontal(c, g, i)
    &&& forall|i: int|
        0 <= i < components(b, f) ==> #[trigger] vertical(b, f, i) == vertical(c, g, i)
    &&& forall|i: int|
        0 <= i < 3 * components(b, f) ==> #[trigger] byte(b, f + 8 + i) == byte(c, g + 8 + i)
}

/// Whether two sets of Huffman tables have the same codes.
spec fn same_tables(b: Seq<u8>, c: Seq<u8>, x: Tables, y: Tables) -> bool {
    forall|i: int|
        #![trigger x.at(i)]
        #![trigger y.at(i)]
        match (x.at(i), y.at(i)) {
            (Some(t), Some(u)) => same_codes(b, c, t as int, u as int),
            (None, None) => true,
            _ => false,
        }
}

/// Whether two sets of quantization tables have the same values.
spec fn same_quant_tables(b: Seq<u8>, c: Seq<u8>, x: Tables, y: Tables) -> bool {
    forall|i: int|
        #![trigger x.at(i)]
        #![trigger y.at(i)]
        match (x.at(i), y.at(i)) {
            (Some(t), Some(u)) => same_quants(b, c, t as int, u as int),
            (None, None) => true,
            _ => false,
        }
}

/// Whether two sets of headers say the same.
spec fn same_headers(b: Seq<u8>, c: Seq<u8>, w: Headers, x: Headers) -> bool {
    &&& match (w.frame, x.frame) {
        (Some(f), Some(g)) => same_frame(b, c, f as int, g as int),
        (None, None) => true,
        _ => false,
    }
    &&& w.progressive == x.progressive
    &&& w.transform == x.transform
    &&& w.motion == x.motion
    &&& w.interval == x.interval
    &&& w.todo == x.todo
    &&& same_tables(b, c, w.dc, x.dc)
    &&& same_tables(b, c, w.ac, x.ac)
    &&& same_quant_tables(b, c, w.quant, x.quant)
}

proof fn lemma_named(b: Seq<u8>, c: Seq<u8>, f: int, g: int, id: u8, i: int)
    requires
        same_frame(b, c, f, g),
    ensures
        named(b, f, id, i) == named(c, g, id, i),
        named(b, f, id, i) matches Some(n) ==> 0 <= n < components(b, f),
    decreases components(b, f) - i,
{
    if 0 <= i < components(b, f) {
        assert(byte(b, f + 8 + 3 * i) == byte(c, g + 8 + 3 * i));
        lemma_named(b, c, f, g, id, i + 1);
    }
}

proof fn lemma_part(
    b: Seq<u8>,
    c: Seq<u8>,
    s: int,
    k: int,
    fg: (int, int),
    w: Headers,
    x: Headers,
    h: int,
    n: int,
)
    requires
        tail_moved(b, c, s, k),
        same_frame(b, c, fg.0, fg.1),
        same_headers(b, c, w, x),
        s <= h,
        0 <= n < 4,
    ensures
        match part(b, fg.0, w, h, n) {
            Some(a) => part(c, fg.1, x, h + k, n) matches Some(d) && same_part(b, c, a, d),
            None => part(c, fg.1, x, h + k, n) is None,
        },
{
    let (f, g) = fg;
    assert(byte(c, h + k + 3 + 2 * n) == byte(b, h + 3 + 2 * n));
    assert(byte(c, h + k + 4 + 2 * n) == byte(b, h + 4 + 2 * n));
    lemma_named(b, c, f, g, byte(b, h + 3 + 2 * n), 0);
    if let Some(i) = named(b, f, byte(b, h + 3 + 2 * n), 0) {
        assert(byte(b, f + 8 + (2 + 3 * i)) == byte(c, g + 8 + (2 + 3 * i)));
        assert(horizontal(b, f, i) == horizontal(c, g, i));
        assert(vertical(b, f, i) == vertical(c, g, i));
        let y = byte(b, h + 4 + 2 * n) as int;
        let q = byte(b, f + 10 + 3 * i) as int;
        let (d0, d1) = (w.dc.at(y / 16), x.dc.at(y / 16));
        let (a0, a1) = (w.ac.at(y % 16), x.ac.at(y % 16));
        let (q0, q1) = (w.quant.at(q), x.quant.at(q));
    }
}

proof fn lemma_parts(
    b: Seq<u8>,
    c: Seq<u8>,
    s: int,
    k: int,
    fg: (int, int),
    w: Headers,
    x: Headers,
    h: int,
    n: nat,
)
    requires
        tail_moved(b, c, s, k),
        same_frame(b, c, fg.0, fg.1),
        same_headers(b, c, w, x),
        s <= h,
        n <= 4,
    ensures
        match parts(b, fg.0, w, h, n) {
            Some(a) => parts(c, fg.1, x, h + k, n) matches Some(d) && same_parts(b, c, a, d),
            None => parts(c, fg.1, x, h + k, n) is None,
        },
    decreases n,
{
    if n > 0 {
        lemma_parts(b, c, s, k, fg, w, x, h, (n - 1) as nat);
        lemma_part(b, c, s, k, fg, w, x, h, n - 1);
    }
}

proof fn lemma_scan_whole(b: Seq<u8>, c: Seq<u8>, s: int, k: int, h: int)
    requires
        tail_moved(b, c, s, k),
        s <= h,
    ensures
        scan_whole(c, h + k) == scan_whole(b, h),
        scan_whole(b, h) ==> scan_components(c, h + k) == scan_components(b, h),
        scan_whole(b, h) ==> word(c, h + k) == word(b, h),
{
    if h + 3 <= b.len() {
        assert(b[h] == c[h + k] && b[h + 1] == c[h + 1 + k] && b[h + 2] == c[h + 2 + k]);
    }
}

proof fn lemma_scans_read(
    b: Seq<u8>,
    c: Seq<u8>,
    s: int,
    k: int,
    fg: (int, int),
    w: Headers,
    x: Headers,
    h: int,
    walk: Walk,
    other: Walk,
    whole: bool,
    wide: nat,
    high: nat,
)
    requires
        tail_moved(b, c, s, k),
        same_frame(b, c, fg.0, fg.1),
        same_headers(b, c, w, x),
        s <= h,
        walk.reader.over == other.reader.over,
        walk.predictions == other.predictions,
        walk.todo == other.todo,
        walk.blank == other.blank,
    ensures
        scans_read(b, fg.0, w, h, walk, whole, wide, high) == scans_read(
            c,
            fg.1,
            x,
            h + k,
            other,
            whole,
            wide,
            high,
        ),
    decreases b.len() - h,
{
    lemma_scan_whole(b, c, s, k, h);
    if scan_whole(b, h) {
        let n = scan_components(b, h) as nat;
        lemma_parts(b, c, s, k, fg, w, x, h, n);
        if let Some(found) = parts(b, fg.0, w, h, n) {
            let same = parts(c, fg.1, x, h + k, n)->0;
            let begun = Walk { reader: reader_at(h + word(b, h), walk.reader.over), ..walk };
            let begun2 = Walk {
                reader: reader_at(h + k + word(c, h + k), other.reader.over),
                ..other
            };
            assert(begun2 == on_walk(begun, k));
            lemma_rows(b, c, s, k, found, same, w.interval, begun, wide, high);
            if let Some((more, next)) = rows(b, found, w.interval, begun, wide, high) {
                if more && !whole && h < next.reader.at {
                    let at = next.reader.at as int;
                    lemma_scans_read(
                        b,
                        c,
                        s,
                        k,
                        fg,
                        w,
                        x,
                        at,
                        next,
                        on_walk(next, k),
                        whole,
                        wide,
                        high,
                    );
                }
            }
        }
    }
}

/// Whether `n` bytes at `p` and at `q` are the same.
spec fn same_bytes(b: Seq<u8>, c: Seq<u8>, p: int, q: int, n: int) -> bool {
    &&& 0 <= p
    &&& 0 <= q
    &&& 0 <= n
    &&& p + n <= b.len() <= usize::MAX
    &&& q + n <= c.len() <= usize::MAX
    &&& forall|i: int| 0 <= i < n ==> #[trigger] b[p + i] == c[q + i]
}

proof fn lemma_some_bytes(b: Seq<u8>, c: Seq<u8>, p: int, q: int, n: int, d: int, m: int)
    requires
        same_bytes(b, c, p, q, n),
        0 <= d,
        0 <= m,
        d + m <= n,
    ensures
        same_bytes(b, c, p + d, q + d, m),
{
    assert forall|i: int| 0 <= i < m implies #[trigger] b[p + d + i] == c[q + d + i] by {
        assert(b[p + (d + i)] == c[q + (d + i)]);
    }
}

proof fn lemma_symbols_grow(b: Seq<u8>, p: int, i: nat, j: nat)
    requires
        i <= j,
        0 <= p,
        p + j <= b.len(),
    ensures
        0 <= crate::stream::symbols(b, p, i) <= crate::stream::symbols(b, p, j),
    decreases j,
{
    if i < j {
        lemma_symbols_grow(b, p, i, (j - 1) as nat);
    } else if j > 0 {
        lemma_symbols_grow(b, p, (j - 1) as nat, (j - 1) as nat);
    }
}

proof fn lemma_same_symbols(b: Seq<u8>, c: Seq<u8>, p: int, q: int, n: int, k: nat)
    requires
        same_bytes(b, c, p, q, n),
        k <= n,
    ensures
        crate::stream::symbols(b, p, k) == crate::stream::symbols(c, q, k),
    decreases k,
{
    if k > 0 {
        lemma_same_symbols(b, c, p, q, n, (k - 1) as nat);
        assert(b[p + (k - 1)] == c[q + (k - 1)]);
    }
}

proof fn lemma_coded(
    b: Seq<u8>,
    c: Seq<u8>,
    t: int,
    u: int,
    v: int,
    l: int,
    unit: int,
    first: int,
    index: int,
)
    requires
        0 <= t,
        t + 16 <= b.len(),
        same_bytes(b, c, t, u, 16 + crate::stream::symbols(b, t, 16)),
        1 <= l <= 17,
        index == crate::stream::symbols(b, t, (l - 1) as nat),
    ensures
        coded(b, t, v, l, unit, first, index) == coded(c, u, v, l, unit, first, index),
    decreases 17 - l,
{
    if l <= 16 {
        let n = byte(b, t + l - 1) as int;
        lemma_symbols_grow(b, t, 0, 16);
        assert(b[t + (l - 1)] == c[u + (l - 1)]);
        lemma_symbols_grow(b, t, (l - 1) as nat, (l - 1) as nat);
        lemma_symbols_grow(b, t, l as nat, 16);
        let code = v / unit;
        if unit >= 1 && first <= 0xffff && index <= 256 {
            if first <= code < first + n {
                let at = 16 + index + code - first;
                assert(b[t + at] == c[u + at]);
            } else {
                lemma_coded(b, c, t, u, v, l + 1, unit / 2, (first + n) * 2, index + n);
            }
        }
    }
}

proof fn lemma_same_codes(b: Seq<u8>, c: Seq<u8>, t: int, u: int)
    requires
        0 <= t,
        t + 16 <= b.len(),
        same_bytes(b, c, t, u, 16 + crate::stream::symbols(b, t, 16)),
    ensures
        same_codes(b, c, t, u),
{
    assert forall|v: int| #[trigger] coded(b, t, v, 1, 0x8000, 0, 0) == coded(
        c,
        u,
        v,
        1,
        0x8000,
        0,
        0,
    ) by {
        lemma_coded(b, c, t, u, v, 1, 0x8000, 0, 0);
    }
}

proof fn lemma_with(b: Seq<u8>, c: Seq<u8>, x: Tables, y: Tables, i: int, p: int, q: int)
    requires
        same_tables(b, c, x, y),
        0 <= i < 4,
        0 <= p <= usize::MAX,
        0 <= q <= usize::MAX,
        same_codes(b, c, p, q),
    ensures
        same_tables(b, c, x.with(i, p), y.with(i, q)),
{
    assert forall|j: int|
        #![trigger x.with(i, p).at(j)]
        #![trigger y.with(i, q).at(j)]
        match (x.with(i, p).at(j), y.with(i, q).at(j)) {
            (Some(t), Some(u)) => same_codes(b, c, t as int, u as int),
            (None, None) => true,
            _ => false,
        } by {
        let (before, after) = (x.at(j), y.at(j));
    }
}

proof fn lemma_with_quant(b: Seq<u8>, c: Seq<u8>, x: Tables, y: Tables, i: int, p: int, q: int)
    requires
        same_quant_tables(b, c, x, y),
        0 <= i < 4,
        0 <= p <= usize::MAX,
        0 <= q <= usize::MAX,
        same_quants(b, c, p, q),
    ensures
        same_quant_tables(b, c, x.with(i, p), y.with(i, q)),
{
    assert forall|j: int|
        #![trigger x.with(i, p).at(j)]
        #![trigger y.with(i, q).at(j)]
        match (x.with(i, p).at(j), y.with(i, q).at(j)) {
            (Some(t), Some(u)) => same_quants(b, c, t as int, u as int),
            (None, None) => true,
            _ => false,
        } by {
        let (before, after) = (x.at(j), y.at(j));
    }
}

proof fn lemma_huffman(
    b: Seq<u8>,
    c: Seq<u8>,
    p: int,
    q: int,
    left: int,
    dc: (Tables, Tables),
    ac: (Tables, Tables),
)
    requires
        same_bytes(b, c, p, q, left),
        same_tables(b, c, dc.0, dc.1),
        same_tables(b, c, ac.0, ac.1),
    ensures
        match crate::stream::huffman_tables(b, p, left, dc.0, ac.0) {
            Some((d, a)) => crate::stream::huffman_tables(c, q, left, dc.1, ac.1) matches Some(
                (e, f),
            ) && same_tables(b, c, d, e) && same_tables(b, c, a, f),
            None => crate::stream::huffman_tables(c, q, left, dc.1, ac.1) is None,
        },
    decreases left,
{
    if left > 16 {
        assert(b[p + 0] == c[q + 0]);
        lemma_some_bytes(b, c, p, q, left, 1, 16);
        lemma_same_symbols(b, c, p + 1, q + 1, 16, 16);
        lemma_symbols_grow(b, p + 1, 0, 16);
        let class = b[p] as int / 16;
        let place = b[p] as int % 16;
        let count = crate::stream::symbols(b, p + 1, 16);
        if !(class > 1 || place > 3 || count > 256 || count > left - 17) {
            lemma_some_bytes(b, c, p, q, left, 1, 16 + count);
            lemma_same_codes(b, c, p + 1, q + 1);
            lemma_some_bytes(b, c, p, q, left, 17 + count, left - 17 - count);
            if class == 0 {
                lemma_with(b, c, dc.0, dc.1, place, p + 1, q + 1);
                lemma_huffman(
                    b,
                    c,
                    p + 17 + count,
                    q + 17 + count,
                    left - 17 - count,
                    (dc.0.with(place, p + 1), dc.1.with(place, q + 1)),
                    ac,
                );
            } else {
                lemma_with(b, c, ac.0, ac.1, place, p + 1, q + 1);
                lemma_huffman(
                    b,
                    c,
                    p + 17 + count,
                    q + 17 + count,
                    left - 17 - count,
                    dc,
                    (ac.0.with(place, p + 1), ac.1.with(place, q + 1)),
                );
            }
        }
    }
}

proof fn lemma_same_quants(b: Seq<u8>, c: Seq<u8>, p: int, q: int)
    requires
        0 <= p < b.len(),
        b[p] as int / 16 <= 1,
        same_bytes(b, c, p, q, 65 + 64 * (b[p] as int / 16)),
    ensures
        same_quants(b, c, p, q),
{
    assert(b[p + 0] == c[q + 0]);
    assert forall|i: int| 0 <= i < 64 implies #[trigger] quant(b, p, i) == quant(c, q, i) by {
        if b[p] as int / 16 == 0 {
            assert(b[p + (1 + i)] == c[q + (1 + i)]);
        } else {
            assert(b[p + (1 + 2 * i)] == c[q + (1 + 2 * i)]);
            assert(b[p + (2 + 2 * i)] == c[q + (2 + 2 * i)]);
        }
    }
}

proof fn lemma_quants(b: Seq<u8>, c: Seq<u8>, p: int, q: int, left: int, x: Tables, y: Tables)
    requires
        same_bytes(b, c, p, q, left),
        same_quant_tables(b, c, x, y),
    ensures
        match crate::stream::quant_tables(b, p, left, x) {
            Some(d) => crate::stream::quant_tables(c, q, left, y) matches Some(e)
                && same_quant_tables(b, c, d, e),
            None => crate::stream::quant_tables(c, q, left, y) is None,
        },
    decreases left,
{
    if left > 0 {
        assert(b[p + 0] == c[q + 0]);
        let size = 65 + 64 * (b[p] as int / 16);
        let place = b[p] as int % 16;
        if !(b[p] as int / 16 > 1 || place > 3 || size > left) {
            lemma_some_bytes(b, c, p, q, left, 0, size);
            lemma_same_quants(b, c, p, q);
            lemma_with_quant(b, c, x, y, place, p, q);
            lemma_some_bytes(b, c, p, q, left, size, left - size);
            lemma_quants(
                b,
                c,
                p + size,
                q + size,
                left - size,
                x.with(place, p),
                y.with(place, q),
            );
        }
    }
}

proof fn lemma_same_frame(b: Seq<u8>, c: Seq<u8>, p: int, q: int)
    requires
        2 <= word(b, p),
        same_bytes(b, c, p, q, word(b, p)),
    ensures
        crate::stream::frame_whole(b, p) == crate::stream::frame_whole(c, q),
        crate::stream::frame_whole(b, p) ==> same_frame(b, c, p, q),
{
    let n = word(b, p);
    assert(b[p + 0] == c[q + 0] && b[p + 1] == c[q + 1]);
    if n >= 8 {
        assert(b[p + 3] == c[q + 3] && b[p + 4] == c[q + 4] && b[p + 5] == c[q + 5]);
        assert(b[p + 6] == c[q + 6] && b[p + 7] == c[q + 7]);
        if n == 8 + 3 * components(b, p) {
            assert forall|i: int| 0 <= i < components(b, p) implies #[trigger] horizontal(b, p, i)
                == horizontal(c, q, i) by {
                assert(b[p + (9 + 3 * i)] == c[q + (9 + 3 * i)]);
            }
            assert forall|i: int| 0 <= i < components(b, p) implies #[trigger] vertical(b, p, i)
                == vertical(c, q, i) by {
                assert(b[p + (9 + 3 * i)] == c[q + (9 + 3 * i)]);
            }
            assert forall|i: int| 0 <= i < 3 * components(b, p) implies #[trigger] byte(
                b,
                p + 8 + i,
            ) == byte(c, q + 8 + i) by {
                assert(b[p + (8 + i)] == c[q + (8 + i)]);
            }
            lemma_same_factors(b, c, p, q);
        }
    }
}

proof fn lemma_same_factors(b: Seq<u8>, c: Seq<u8>, p: int, q: int)
    requires
        components(b, p) == components(c, q),
        forall|i: int|
            0 <= i < components(b, p) ==> #[trigger] horizontal(b, p, i) == horizontal(c, q, i),
        forall|i: int|
            0 <= i < components(b, p) ==> #[trigger] vertical(b, p, i) == vertical(c, q, i),
    ensures
        crate::stream::factors_taken(b, p) == crate::stream::factors_taken(c, q),
{
    if crate::stream::factors_taken(b, p) {
        assert forall|i: int| 0 <= i < components(c, q) implies crate::stream::factor_taken(
            #[trigger] horizontal(c, q, i),
        ) && crate::stream::factor_taken(vertical(c, q, i)) by {
            assert(horizontal(b, p, i) == horizontal(c, q, i));
            assert(vertical(b, p, i) == vertical(c, q, i));
        }
    }
    if crate::stream::factors_taken(c, q) {
        assert forall|i: int| 0 <= i < components(b, p) implies crate::stream::factor_taken(
            #[trigger] horizontal(b, p, i),
        ) && crate::stream::factor_taken(vertical(b, p, i)) by {
            assert(horizontal(b, p, i) == horizontal(c, q, i));
            assert(vertical(b, p, i) == vertical(c, q, i));
            let h = horizontal(c, q, i);
            assert(crate::stream::factor_taken(h));
        }
    }
}

proof fn lemma_segment(b: Seq<u8>, c: Seq<u8>, m: u8, p: int, q: int, w: Headers, x: Headers)
    requires
        0 <= p,
        p + 2 <= b.len(),
        2 <= word(b, p),
        same_bytes(b, c, p, q, segment_end(b, m, p) - p),
        same_headers(b, c, w, x),
    ensures
        segment_end(c, m, q) - q == segment_end(b, m, p) - p,
        match segment(b, m, p, w) {
            Some(a) => segment(c, m, q, x) matches Some(d) && same_headers(b, c, a, d),
            None => segment(c, m, q, x) is None,
        },
{
    let length = word(b, p);
    assert(b[p + 0] == c[q + 0] && b[p + 1] == c[q + 1]);
    assert(word(c, q) == length);
    if m == 0xc0 || m == 0xc1 || m == 0xc2 {
        lemma_same_frame(b, c, p, q);
    } else if m == 0xc4 {
        lemma_some_bytes(b, c, p, q, length, 2, length - 2);
        lemma_huffman(b, c, p + 2, q + 2, length - 2, (w.dc, x.dc), (w.ac, x.ac));
    } else if m == 0xdb {
        lemma_some_bytes(b, c, p, q, length, 2, length - 2);
        lemma_quants(b, c, p + 2, q + 2, length - 2, w.quant, x.quant);
    } else if m == 0xdd {
        if length == 4 {
            assert(b[p + 2] == c[q + 2] && b[p + 3] == c[q + 3]);
        }
    } else if m == 0xe0 {
        if length > 5 {
            assert(b[p + 2] == c[q + 2] && b[p + 3] == c[q + 3] && b[p + 4] == c[q + 4]);
            assert(b[p + 5] == c[q + 5] && b[p + 6] == c[q + 6]);
        }
    } else if m == 0xee {
        if length >= 14 {
            assert(b[p + 2] == c[q + 2] && b[p + 3] == c[q + 3] && b[p + 4] == c[q + 4]);
            assert(b[p + 5] == c[q + 5] && b[p + 6] == c[q + 6] && b[p + 13] == c[q + 13]);
        }
    }
}

proof fn lemma_tail_bytes(b: Seq<u8>, c: Seq<u8>, s: int, k: int, p: int, n: int)
    requires
        tail_moved(b, c, s, k),
        s <= p,
        0 <= n,
        p + n <= b.len(),
    ensures
        same_bytes(b, c, p, p + k, n),
{
    assert forall|i: int| 0 <= i < n implies #[trigger] b[p + i] == c[p + k + i] by {
        let j = p + i;
        assert(b[j] == c[j + k]);
    }
}

/// Reading on in the part that was moved.
proof fn lemma_headers(
    b: Seq<u8>,
    c: Seq<u8>,
    s: int,
    k: int,
    p: int,
    armed: bool,
    w: Headers,
    x: Headers,
)
    requires
        tail_moved(b, c, s, k),
        s <= p,
        same_headers(b, c, w, x),
    ensures
        match headers_from(b, p, armed, w) {
            Some((a, h)) => headers_from(c, p + k, armed, x) matches Some((d, i)) && i == h + k
                && s <= h && same_headers(b, c, a, d),
            None => headers_from(c, p + k, armed, x) is None,
        },
    decreases b.len() - p,
{
    if p < b.len() {
        assert(b[p] == c[p + k]);
        if armed && b[p] != 0xff && b[p] != 0 {
            if b[p] != 0xda && p + 3 <= b.len() {
                let m = b[p];
                assert(b[p + 1] == c[p + 1 + k] && b[p + 2] == c[p + 2 + k]);
                assert(word(c, p + k + 1) == word(b, p + 1));
                let end = segment_end(b, m, p + 1);
                assert(segment_end(c, m, p + k + 1) == end + k);
                if word(b, p + 1) >= 2 && end <= b.len() {
                    lemma_tail_bytes(b, c, s, k, p + 1, end - p - 1);
                    lemma_segment(b, c, m, p + 1, p + 1 + k, w, x);
                    if let Some(next) = segment(b, m, p + 1, w) {
                        let same = segment(c, m, p + 1 + k, x)->0;
                        lemma_headers(b, c, s, k, end, false, next, same);
                    }
                }
            }
        } else {
            lemma_headers(b, c, s, k, p + 1, b[p] == 0xff, w, x);
        }
    }
}

proof fn lemma_geometry(b: Seq<u8>, c: Seq<u8>, f: int, g: int, i: nat)
    requires
        same_frame(b, c, f, g),
        i < components(b, f),
    ensures
        crate::stream::widest(b, f, i) == crate::stream::widest(c, g, i),
        crate::stream::tallest(b, f, i) == crate::stream::tallest(c, g, i),
        crate::stream::row_blocks(b, f, i) == crate::stream::row_blocks(c, g, i),
        crate::stream::spare(b, f, i as int) == crate::stream::spare(c, g, i as int),
        horizontal(b, f, i as int) == horizontal(c, g, i as int),
        vertical(b, f, i as int) == vertical(c, g, i as int),
    decreases i,
{
    assert(horizontal(b, f, i as int) == horizontal(c, g, i as int));
    assert(vertical(b, f, i as int) == vertical(c, g, i as int));
    assert(horizontal(b, f, 0) == horizontal(c, g, 0));
    assert(vertical(b, f, 0) == vertical(c, g, 0));
    if i > 0 {
        lemma_geometry(b, c, f, g, (i - 1) as nat);
    }
}

proof fn lemma_size(b: Seq<u8>, c: Seq<u8>, f: int, g: int)
    requires
        same_frame(b, c, f, g),
    ensures
        crate::stream::h_max(b, f) == crate::stream::h_max(c, g),
        crate::stream::v_max(b, f) == crate::stream::v_max(c, g),
        crate::progressive::across(b, f) == crate::progressive::across(c, g),
        crate::progressive::down(b, f) == crate::progressive::down(c, g),
{
    lemma_geometry(b, c, f, g, (components(b, f) - 1) as nat);
}

proof fn lemma_scalable(b: Seq<u8>, c: Seq<u8>, f: int, g: int, i: nat)
    requires
        same_frame(b, c, f, g),
        i < components(b, f),
    ensures
        crate::stream::scalable(b, f, i) == crate::stream::scalable(c, g, i),
{
    lemma_size(b, c, f, g);
    lemma_geometry(b, c, f, g, i);
    lemma_geometry(b, c, f, g, 0);
    assert forall|j: int| 0 <= j < components(b, f) implies #[trigger] crate::stream::between_rows(
        b,
        f,
        j,
    ) == crate::stream::between_rows(c, g, j) by {
        lemma_geometry(b, c, f, g, j as nat);
    }
    if crate::stream::any_between_rows(b, f) {
        let j = choose|j: int|
            0 <= j < components(b, f) && #[trigger] crate::stream::between_rows(b, f, j);
        assert(crate::stream::between_rows(c, g, j));
    }
    if crate::stream::any_between_rows(c, g) {
        let j = choose|j: int|
            0 <= j < components(c, g) && #[trigger] crate::stream::between_rows(c, g, j);
        assert(crate::stream::between_rows(b, f, j));
    }
    assert(crate::stream::any_between_rows(b, f) == crate::stream::any_between_rows(c, g));
}

proof fn lemma_frame_taken(b: Seq<u8>, c: Seq<u8>, f: int, g: int, transformed: bool)
    requires
        same_frame(b, c, f, g),
    ensures
        crate::stream::frame_taken(b, f, transformed) == crate::stream::frame_taken(
            c,
            g,
            transformed,
        ),
        crate::stream::rows_agree(b, f) == crate::stream::rows_agree(c, g),
{
    lemma_size(b, c, f, g);
    assert forall|i: nat| i < components(b, f) implies #[trigger] crate::stream::scalable(b, f, i)
        == crate::stream::scalable(c, g, i) by {
        lemma_scalable(b, c, f, g, i);
    }
    assert forall|i: nat| i < components(b, f) implies #[trigger] crate::stream::row_blocks(b, f, i)
        == crate::stream::row_blocks(c, g, i) && horizontal(b, f, i as int) == horizontal(
        c,
        g,
        i as int,
    ) by {
        lemma_geometry(b, c, f, g, i);
    }
    let n = components(b, f);
    if forall|i: nat| i < n ==> #[trigger] crate::stream::scalable(b, f, i) {
        assert forall|i: nat| i < n implies #[trigger] crate::stream::scalable(c, g, i) by {
            assert(crate::stream::scalable(b, f, i));
        }
    }
    if forall|i: nat| i < n ==> #[trigger] crate::stream::scalable(c, g, i) {
        assert forall|i: nat| i < n implies #[trigger] crate::stream::scalable(b, f, i) by {
            assert(crate::stream::scalable(c, g, i));
        }
    }
    if crate::stream::rows_agree(b, f) {
        assert forall|i: nat| i < n implies #[trigger] crate::stream::row_blocks(c, g, i)
            == horizontal(c, g, i as int) * crate::stream::steps(
            crate::stream::frame_width(c, g),
            8 * crate::stream::h_max(c, g),
        ) by {
            assert(crate::stream::row_blocks(b, f, i) == crate::stream::row_blocks(c, g, i));
        }
    }
    if crate::stream::rows_agree(c, g) {
        assert forall|i: nat| i < n implies #[trigger] crate::stream::row_blocks(b, f, i)
            == horizontal(b, f, i as int) * crate::stream::steps(
            crate::stream::frame_width(b, f),
            8 * crate::stream::h_max(b, f),
        ) by {
            assert(crate::stream::row_blocks(c, g, i) == crate::stream::row_blocks(b, f, i));
        }
    }
}

proof fn lemma_plane(b: Seq<u8>, c: Seq<u8>, f: int, g: int, i: nat)
    requires
        same_frame(b, c, f, g),
        i <= components(b, f),
    ensures
        plane(b, f, i) == plane(c, g, i),
        i < components(b, f) ==> area(b, f, i as int) == area(c, g, i as int),
    decreases i,
{
    lemma_size(b, c, f, g);
    if i < components(b, f) {
        lemma_geometry(b, c, f, g, i);
    }
    if i > 0 {
        lemma_plane(b, c, f, g, (i - 1) as nat);
    }
}

/// Whether two scans do the same to a component.
spec fn same_layer(b: Seq<u8>, c: Seq<u8>, x: Layer, y: Layer) -> bool {
    &&& y == (Layer { dc: y.dc, ac: y.ac, ..x })
    &&& match (x.dc, y.dc) {
        (Some(t), Some(u)) => same_codes(b, c, t as int, u as int),
        (None, None) => true,
        _ => false,
    }
    &&& match (x.ac, y.ac) {
        (Some(t), Some(u)) => same_codes(b, c, t as int, u as int),
        (None, None) => true,
        _ => false,
    }
}

proof fn lemma_with_bit(b: Seq<u8>, c: Seq<u8>, s: int, k: int, r: Reader)
    requires
        tail_moved(b, c, s, k),
        in_tail(b, s, r),
    ensures
        with_bit(c, on(r, k)) == on(with_bit(b, r), k),
        in_tail(b, s, with_bit(b, r)),
{
    lemma_refilled(b, c, s, k, r);
}

/// Whether a step has the same outcome, `k` places further on.
spec fn same_outcome(
    b: Seq<u8>,
    s: int,
    k: int,
    x: Option<(Walk, Seq<i16>)>,
    y: Option<(Walk, Seq<i16>)>,
) -> bool {
    match x {
        Some((w, c)) => y == Some((on_walk(w, k), c)) && in_tail(b, s, w.reader),
        None => y is None,
    }
}

proof fn lemma_dc_read(
    b: Seq<u8>,
    c: Seq<u8>,
    s: int,
    k: int,
    x: Layer,
    y: Layer,
    w: Walk,
    v: Seq<i16>,
    n: int,
)
    requires
        tail_moved(b, c, s, k),
        in_tail(b, s, w.reader),
        same_layer(b, c, x, y),
    ensures
        same_outcome(b, s, k, dc_read(b, x, w, v, n), dc_read(c, y, on_walk(w, k), v, n)),
{
    lemma_with_bit(b, c, s, k, w.reader);
    lemma_number(with_bit(b, w.reader), 1, k);
    if let Some(t) = x.dc {
        let before = w.predictions.at(x.component as int) as int;
        lemma_dc_value(b, c, s, k, w.reader, t as int, y.dc->0 as int, before);
    }
}

proof fn lemma_ac_first(
    b: Seq<u8>,
    c: Seq<u8>,
    s: int,
    k: int,
    x: Layer,
    y: Layer,
    t: int,
    u: int,
    r: Reader,
    v: Seq<i16>,
    place: int,
    at: int,
)
    requires
        tail_moved(b, c, s, k),
        in_tail(b, s, r),
        same_layer(b, c, x, y),
        same_codes(b, c, t, u),
    ensures
        match ac_first(b, x, t, r, v, place, at) {
            Some((rest, blank, filled)) => ac_first(c, y, u, on(r, k), v, place, at) == Some(
                (on(rest, k), blank, filled),
            ) && in_tail(b, s, rest),
            None => ac_first(c, y, u, on(r, k), v, place, at) is None,
        },
    decreases 96 - at,
{
    lemma_symbol(b, c, s, k, r, t, u);
    if let Some((m, after)) = symbol(b, r, t) {
        if 0 <= at <= 63 {
            if m % 16 != 0 {
                lemma_amount(after, (m % 16) as u64, k);
                if let Some((a, rest)) = amount(after, (m % 16) as u64) {
                    let p = at + m as int / 16;
                    if !(p > 63 || !short(a * x.unit)) {
                        let filled = v.update(place + p, (a * x.unit) as i16);
                        if p + 1 <= x.end {
                            lemma_ac_first(b, c, s, k, x, y, t, u, rest, filled, place, p + 1);
                        }
                    }
                }
            } else if m == 0xf0 {
                if at + 16 <= x.end {
                    lemma_ac_first(b, c, s, k, x, y, t, u, after, v, place, at + 16);
                }
            } else {
                lemma_number(after, (m / 16) as u64, k);
            }
        }
    }
}

proof fn lemma_advanced(
    b: Seq<u8>,
    c: Seq<u8>,
    s: int,
    k: int,
    x: Layer,
    y: Layer,
    r: Reader,
    v: Seq<i16>,
    place: int,
    at: int,
    run: int,
)
    requires
        tail_moved(b, c, s, k),
        in_tail(b, s, r),
        same_layer(b, c, x, y),
    ensures
        match advanced(b, x, r, v, place, at, run) {
            Some((rest, filled, p)) => advanced(c, y, on(r, k), v, place, at, run) == Some(
                (on(rest, k), filled, p),
            ) && in_tail(b, s, rest),
            None => advanced(c, y, on(r, k), v, place, at, run) is None,
        },
    decreases 64 - at,
{
    if 0 <= at <= 63 {
        if v[place + at] != 0 {
            lemma_number(r, 1, k);
            if let Some((bit, rest)) = number(r, 1) {
                lemma_with_bit(b, c, s, k, rest);
                if let Some(z) = corrected(v[place + at], bit, x.unit) {
                    let filled = v.update(place + at, z);
                    if at < x.end {
                        let next = with_bit(b, rest);
                        lemma_advanced(b, c, s, k, x, y, next, filled, place, at + 1, run);
                    }
                }
            }
        } else if !(run <= 0 || at >= x.end) {
            lemma_advanced(b, c, s, k, x, y, r, v, place, at + 1, run - 1);
        }
    }
}

proof fn lemma_refined(
    b: Seq<u8>,
    c: Seq<u8>,
    s: int,
    k: int,
    x: Layer,
    y: Layer,
    t: int,
    u: int,
    r: Reader,
    v: Seq<i16>,
    place: int,
    at: int,
)
    requires
        tail_moved(b, c, s, k),
        in_tail(b, s, r),
        same_layer(b, c, x, y),
        same_codes(b, c, t, u),
    ensures
        match refined(b, x, t, r, v, place, at) {
            Some((rest, blank, filled, p)) => refined(c, y, u, on(r, k), v, place, at) == Some(
                (on(rest, k), blank, filled, p),
            ) && in_tail(b, s, rest),
            None => refined(c, y, u, on(r, k), v, place, at) is None,
        },
    decreases 65 - at,
{
    lemma_symbol(b, c, s, k, r, t, u);
    if let Some((m, after)) = symbol(b, r, t) {
        if !(at < 0 || at > 63 || m % 16 > 1) {
            if m % 16 == 0 && m != 0xf0 {
                lemma_number(after, (m / 16) as u64, k);
            } else {
                lemma_number(after, 1, k);
                let sign = if m % 16 == 1 {
                    number(after, 1)
                } else {
                    Some((2u64, after))
                };
                if let Some((bit, signed)) = sign {
                    assert(in_tail(b, s, signed));
                    lemma_advanced(b, c, s, k, x, y, signed, v, place, at, m as int / 16);
                    let passed = if at <= x.end {
                        advanced(b, x, signed, v, place, at, m as int / 16)
                    } else {
                        Some((signed, v, at))
                    };
                    if let Some((next, kept, p)) = passed {
                        let filled = if bit == 1 {
                            kept.update(place + p, x.unit as i16)
                        } else if bit == 0 {
                            kept.update(place + p, (-x.unit) as i16)
                        } else {
                            kept
                        };
                        if p + 1 <= x.end && at <= p <= 63 {
                            lemma_refined(b, c, s, k, x, y, t, u, next, filled, place, p + 1);
                        }
                    }
                }
            }
        }
    }
}

proof fn lemma_trailing(
    b: Seq<u8>,
    c: Seq<u8>,
    s: int,
    k: int,
    x: Layer,
    y: Layer,
    r: Reader,
    v: Seq<i16>,
    place: int,
    at: int,
)
    requires
        tail_moved(b, c, s, k),
        in_tail(b, s, r),
        same_layer(b, c, x, y),
    ensures
        match trailing(b, x, r, v, place, at) {
            Some((rest, filled)) => trailing(c, y, on(r, k), v, place, at) == Some(
                (on(rest, k), filled),
            ) && in_tail(b, s, rest),
            None => trailing(c, y, on(r, k), v, place, at) is None,
        },
    decreases 64 - at,
{
    if !(at > x.end || at > 63 || at < 0) {
        if v[place + at] != 0 {
            lemma_number(r, 1, k);
            if let Some((bit, rest)) = number(r, 1) {
                lemma_with_bit(b, c, s, k, rest);
                if let Some(z) = corrected(v[place + at], bit, x.unit) {
                    let filled = v.update(place + at, z);
                    lemma_trailing(b, c, s, k, x, y, with_bit(b, rest), filled, place, at + 1);
                }
            }
        } else {
            lemma_with_bit(b, c, s, k, r);
            lemma_trailing(b, c, s, k, x, y, with_bit(b, r), v, place, at + 1);
        }
    }
}

proof fn lemma_ac_refined(
    b: Seq<u8>,
    c: Seq<u8>,
    s: int,
    k: int,
    x: Layer,
    y: Layer,
    t: int,
    u: int,
    w: Walk,
    v: Seq<i16>,
    place: int,
)
    requires
        tail_moved(b, c, s, k),
        in_tail(b, s, w.reader),
        same_layer(b, c, x, y),
        same_codes(b, c, t, u),
    ensures
        same_outcome(
            b,
            s,
            k,
            ac_refined(b, x, t, w, v, place),
            ac_refined(c, y, u, on_walk(w, k), v, place),
        ),
{
    lemma_refined(b, c, s, k, x, y, t, u, w.reader, v, place, x.start as int);
    let read = if w.blank == 0 {
        refined(b, x, t, w.reader, v, place, x.start as int)
    } else {
        Some((w.reader, w.blank, v, x.start as int))
    };
    if let Some((reader, blank, kept, at)) = read {
        lemma_refilled(b, c, s, k, reader);
        lemma_trailing(b, c, s, k, x, y, refilled(b, reader), kept, place, at);
    }
}

proof fn lemma_layer_read(
    b: Seq<u8>,
    c: Seq<u8>,
    s: int,
    k: int,
    x: Layer,
    y: Layer,
    w: Walk,
    v: Seq<i16>,
    n: int,
)
    requires
        tail_moved(b, c, s, k),
        in_tail(b, s, w.reader),
        same_layer(b, c, x, y),
    ensures
        same_outcome(b, s, k, layer_read(b, x, w, v, n), layer_read(c, y, on_walk(w, k), v, n)),
{
    lemma_dc_read(b, c, s, k, x, y, w, v, n);
    let place = x.base + 64 * n;
    if let Some(t) = x.ac {
        let (t, u) = (t as int, y.ac->0 as int);
        lemma_ac_refined(b, c, s, k, x, y, t, u, w, v, place);
        lemma_ac_first(b, c, s, k, x, y, t, u, w.reader, v, place, x.start as int);
    }
}

proof fn lemma_counted(b: Seq<u8>, c: Seq<u8>, s: int, k: int, w: Walk, interval: u64)
    requires
        tail_moved(b, c, s, k),
        in_tail(b, s, w.reader),
    ensures
        match counted(b, w, interval) {
            Some(next) => counted(c, on_walk(w, k), interval) == Some(on_walk(next, k)) && in_tail(
                b,
                s,
                next.reader,
            ),
            None => counted(c, on_walk(w, k), interval) is None,
        },
{
    lemma_restarted(b, c, s, k, w, interval);
}

proof fn lemma_alone(
    b: Seq<u8>,
    c: Seq<u8>,
    s: int,
    k: int,
    x: Layer,
    y: Layer,
    interval: u64,
    w: Walk,
    v: Seq<i16>,
    size: (int, int),
    i: int,
    j: int,
)
    requires
        tail_moved(b, c, s, k),
        in_tail(b, s, w.reader),
        same_layer(b, c, x, y),
    ensures
        same_outcome(
            b,
            s,
            k,
            alone(b, x, interval, w, v, size.0, size.1, i, j),
            alone(c, y, interval, on_walk(w, k), v, size.0, size.1, i, j),
        ),
    decreases size.1 - i, size.0 - j,
{
    if i < size.1 {
        if j >= size.0 {
            lemma_alone(b, c, s, k, x, y, interval, w, v, size, i + 1, 0);
        } else {
            let n = j + i * x.stride;
            lemma_layer_read(b, c, s, k, x, y, w, v, n);
            if let Some((next, filled)) = layer_read(b, x, w, v, n) {
                lemma_counted(b, c, s, k, next, interval);
                if let Some(after) = counted(b, next, interval) {
                    lemma_alone(b, c, s, k, x, y, interval, after, filled, size, i, j + 1);
                }
            }
        }
    }
}

proof fn lemma_group(
    b: Seq<u8>,
    c: Seq<u8>,
    s: int,
    k: int,
    x: Layer,
    y: Layer,
    w: Walk,
    v: Seq<i16>,
    i: int,
    j: int,
    n: int,
)
    requires
        tail_moved(b, c, s, k),
        in_tail(b, s, w.reader),
        same_layer(b, c, x, y),
    ensures
        same_outcome(
            b,
            s,
            k,
            group(b, x, w, v, i, j, n),
            group(c, y, on_walk(w, k), v, i, j, n),
        ),
    decreases x.horizontal * x.vertical - n,
{
    if !(n < 0 || n >= x.horizontal * x.vertical) {
        let h = x.horizontal as int;
        let at = (j * h + n % h) + (i * x.vertical + n / h) * x.stride;
        lemma_dc_read(b, c, s, k, x, y, w, v, at);
        if let Some((next, filled)) = dc_read(b, x, w, v, at) {
            lemma_group(b, c, s, k, x, y, next, filled, i, j, n + 1);
        }
    }
}

/// Whether two scans do the same to all their components.
spec fn same_layers(b: Seq<u8>, c: Seq<u8>, xs: Seq<Layer>, ys: Seq<Layer>) -> bool {
    xs.len() == ys.len() && forall|i: int|
        0 <= i < xs.len() ==> same_layer(b, c, #[trigger] xs[i], ys[i])
}

proof fn lemma_groups(
    b: Seq<u8>,
    c: Seq<u8>,
    s: int,
    k: int,
    xs: Seq<Layer>,
    ys: Seq<Layer>,
    w: Walk,
    v: Seq<i16>,
    i: int,
    j: int,
    n: int,
)
    requires
        tail_moved(b, c, s, k),
        in_tail(b, s, w.reader),
        same_layers(b, c, xs, ys),
    ensures
        same_outcome(
            b,
            s,
            k,
            groups(b, xs, w, v, i, j, n),
            groups(c, ys, on_walk(w, k), v, i, j, n),
        ),
    decreases xs.len() - n,
{
    if 0 <= n < xs.len() {
        assert(same_layer(b, c, xs[n], ys[n]));
        lemma_group(b, c, s, k, xs[n], ys[n], w, v, i, j, 0);
        if let Some((next, filled)) = group(b, xs[n], w, v, i, j, 0) {
            lemma_groups(b, c, s, k, xs, ys, next, filled, i, j, n + 1);
        }
    }
}

proof fn lemma_together(
    b: Seq<u8>,
    c: Seq<u8>,
    s: int,
    k: int,
    xs: Seq<Layer>,
    ys: Seq<Layer>,
    interval: u64,
    w: Walk,
    v: Seq<i16>,
    size: (int, int),
    i: int,
    j: int,
)
    requires
        tail_moved(b, c, s, k),
        in_tail(b, s, w.reader),
        same_layers(b, c, xs, ys),
    ensures
        same_outcome(
            b,
            s,
            k,
            together(b, xs, interval, w, v, size.0, size.1, i, j),
            together(c, ys, interval, on_walk(w, k), v, size.0, size.1, i, j),
        ),
    decreases size.1 - i, size.0 - j,
{
    if i < size.1 {
        if j >= size.0 {
            lemma_together(b, c, s, k, xs, ys, interval, w, v, size, i + 1, 0);
        } else {
            lemma_groups(b, c, s, k, xs, ys, w, v, i, j, 0);
            if let Some((next, filled)) = groups(b, xs, w, v, i, j, 0) {
                lemma_counted(b, c, s, k, next, interval);
                if let Some(after) = counted(b, next, interval) {
                    lemma_together(b, c, s, k, xs, ys, interval, after, filled, size, i, j + 1);
                }
            }
        }
    }
}

proof fn lemma_layer(
    b: Seq<u8>,
    c: Seq<u8>,
    s: int,
    k: int,
    fg: (int, int),
    w: Headers,
    x: Headers,
    h: int,
    n: int,
)
    requires
        tail_moved(b, c, s, k),
        same_frame(b, c, fg.0, fg.1),
        same_headers(b, c, w, x),
        s <= h,
        scan_whole(b, h),
        0 <= n < 4,
    ensures
        match layer(b, fg.0, w, h, n) {
            Some(a) => layer(c, fg.1, x, h + k, n) matches Some(d) && same_layer(b, c, a, d),
            None => layer(c, fg.1, x, h + k, n) is None,
        },
{
    let (f, g) = fg;
    lemma_scan_whole(b, c, s, k, h);
    let m = scan_components(b, h);
    assert(byte(c, h + k + 3 + 2 * m) == byte(b, h + 3 + 2 * m));
    assert(byte(c, h + k + 4 + 2 * m) == byte(b, h + 4 + 2 * m));
    assert(byte(c, h + k + 5 + 2 * m) == byte(b, h + 5 + 2 * m));
    assert(byte(c, h + k + 3 + 2 * n) == byte(b, h + 3 + 2 * n));
    assert(byte(c, h + k + 4 + 2 * n) == byte(b, h + 4 + 2 * n));
    lemma_named(b, c, f, g, byte(b, h + 3 + 2 * n), 0);
    if let Some(i) = named(b, f, byte(b, h + 3 + 2 * n), 0) {
        lemma_geometry(b, c, f, g, i as nat);
        lemma_plane(b, c, f, g, i as nat);
        let y = byte(b, h + 4 + 2 * n) as int;
        let (d0, d1) = (w.dc.at(y / 16), x.dc.at(y / 16));
        let (a0, a1) = (w.ac.at(y % 16), x.ac.at(y % 16));
    }
}

proof fn lemma_layers(
    b: Seq<u8>,
    c: Seq<u8>,
    s: int,
    k: int,
    fg: (int, int),
    w: Headers,
    x: Headers,
    h: int,
    n: nat,
)
    requires
        tail_moved(b, c, s, k),
        same_frame(b, c, fg.0, fg.1),
        same_headers(b, c, w, x),
        s <= h,
        scan_whole(b, h),
        n <= 4,
    ensures
        match layers(b, fg.0, w, h, n) {
            Some(a) => layers(c, fg.1, x, h + k, n) matches Some(d) && same_layers(b, c, a, d)
                && a.len() == n,
            None => layers(c, fg.1, x, h + k, n) is None,
        },
    decreases n,
{
    if n > 0 {
        lemma_layers(b, c, s, k, fg, w, x, h, (n - 1) as nat);
        lemma_layer(b, c, s, k, fg, w, x, h, n - 1);
    }
}

proof fn lemma_scan_read(
    b: Seq<u8>,
    c: Seq<u8>,
    s: int,
    k: int,
    fg: (int, int),
    w: Headers,
    x: Headers,
    h: int,
    v: Seq<i16>,
)
    requires
        tail_moved(b, c, s, k),
        same_frame(b, c, fg.0, fg.1),
        same_headers(b, c, w, x),
        s <= h,
    ensures
        same_outcome(b, s, k, scan_read(b, fg.0, w, h, v), scan_read(c, fg.1, x, h + k, v)),
{
    let (f, g) = fg;
    lemma_scan_whole(b, c, s, k, h);
    if scan_whole(b, h) {
        let n = scan_components(b, h) as nat;
        lemma_layers(b, c, s, k, fg, w, x, h, n);
        if let Some(xs) = layers(b, f, w, h, n) {
            let ys = layers(c, g, x, h + k, n)->0;
            let walk = Walk {
                reader: reader_at(h + word(b, h), false),
                predictions: crate::sequential::no_predictions(),
                todo: w.interval,
                blank: 0,
            };
            assert(on_walk(walk, k).reader == reader_at(h + k + word(c, h + k), false));
            lemma_size(b, c, f, g);
            assert(same_layer(b, c, xs[0], ys[0]));
            let size = (across(b, f), down(b, f));
            let whole = (
                crate::stream::steps(crate::stream::frame_width(b, f), 8),
                crate::stream::steps(crate::stream::frame_height(b, f), 8),
            );
            lemma_together(b, c, s, k, xs, ys, w.interval, walk, v, size, 0, 0);
            lemma_alone(b, c, s, k, xs[0], ys[0], w.interval, walk, v, size, 0, 0);
            lemma_alone(b, c, s, k, xs[0], ys[0], w.interval, walk, v, whole, 0, 0);
        }
    }
}

proof fn lemma_read_on(
    b: Seq<u8>,
    c: Seq<u8>,
    s: int,
    k: int,
    fg: (int, int),
    w: Headers,
    x: Headers,
    v: Seq<i16>,
    m: u8,
    p: int,
    n: nat,
)
    requires
        tail_moved(b, c, s, k),
        same_frame(b, c, fg.0, fg.1),
        same_headers(b, c, w, x),
        s <= p,
    ensures
        match read_on(b, fg.0, w, v, m, p, n) {
            Some((a, filled)) => read_on(c, fg.1, x, v, m, p + k, n) matches Some((d, same))
                && same == filled && same_headers(b, c, a, d),
            None => read_on(c, fg.1, x, v, m, p + k, n) is None,
        },
    decreases b.len() - p,
{
    let (f, g) = fg;
    if m == 0xd9 {
    } else if m == 0xda {
        lemma_scan_read(b, c, s, k, fg, w, x, p, v);
        if let Some((walk, filled)) = scan_read(b, f, w, p, v) {
            let at = walk.reader.at as int;
            lemma_next_marker(b, c, s, k, at);
            let met = if walk.reader.marker != 0 {
                Some((walk.reader.marker, at))
            } else {
                next_marker(b, at)
            };
            if let Some((next, q)) = met {
                if n < 100 && p < q <= b.len() {
                    lemma_read_on(b, c, s, k, fg, w, x, filled, next, q, n + 1);
                }
            }
        }
    } else if crate::bits::restart(m) {
        lemma_next_marker(b, c, s, k, p);
        if let Some((next, q)) = next_marker(b, p) {
            lemma_read_on(b, c, s, k, fg, w, x, v, next, q, n);
        }
    } else if p + 2 <= b.len() {
        assert(b[p] == c[p + k] && b[p + 1] == c[p + 1 + k]);
        assert(word(b, p) == word(c, p + k));
        let end = segment_end(b, m, p);
        assert(segment_end(c, m, p + k) == end + k);
        lemma_next_marker(b, c, s, k, end);
        if word(b, p) >= 2 && end <= b.len() {
            lemma_tail_bytes(b, c, s, k, p, end - p);
            lemma_segment(b, c, m, p, p + k, w, x);
            if let Some(said) = segment(b, m, p, w) {
                let same = segment(c, m, p + k, x)->0;
                if let Some((next, q)) = next_marker(b, end) {
                    lemma_read_on(b, c, s, k, fg, said, same, v, next, q, n);
                }
            }
        }
    }
}

proof fn lemma_planes_read(
    b: Seq<u8>,
    c: Seq<u8>,
    s: int,
    k: int,
    fg: (int, int),
    w: Headers,
    x: Headers,
    h: int,
)
    requires
        tail_moved(b, c, s, k),
        same_frame(b, c, fg.0, fg.1),
        same_headers(b, c, w, x),
        s <= h,
    ensures
        match planes_read(b, fg.0, w, h) {
            Some((a, filled)) => planes_read(c, fg.1, x, h + k) matches Some((d, same)) && same
                == filled && same_headers(b, c, a, d),
            None => planes_read(c, fg.1, x, h + k) is None,
        },
{
    let (f, g) = fg;
    lemma_plane(b, c, f, g, components(b, f) as nat);
    assert(blank_planes(b, f) =~= blank_planes(c, g));
    lemma_scan_read(b, c, s, k, fg, w, x, h, blank_planes(b, f));
    if let Some((walk, v)) = scan_read(b, f, w, h, blank_planes(b, f)) {
        if walk.reader.marker != 0 {
            let at = walk.reader.at as int;
            lemma_read_on(b, c, s, k, fg, w, x, v, walk.reader.marker, at, 1);
        }
    }
}

proof fn lemma_block_size(b: Seq<u8>, c: Seq<u8>, q: int, r: int, v: Seq<i16>, place: int, n: nat)
    requires
        same_quants(b, c, q, r),
        n <= 64,
    ensures
        block_size(b, q, v, place, n) == block_size(c, r, v, place, n),
    decreases n,
{
    if n > 0 {
        lemma_block_size(b, c, q, r, v, place, (n - 1) as nat);
        assert(quant(b, q, n - 1) == quant(c, r, n - 1));
    }
}

proof fn lemma_blocks_tame(
    b: Seq<u8>,
    c: Seq<u8>,
    q: int,
    r: int,
    v: Seq<i16>,
    base: int,
    count: int,
)
    requires
        same_quants(b, c, q, r),
    ensures
        blocks_tame(b, q, v, base, count) == blocks_tame(c, r, v, base, count),
{
    assert forall|n: int| #[trigger] block_tame(b, q, v, base, n) == block_tame(
        c,
        r,
        v,
        base,
        n,
    ) by {
        lemma_block_size(b, c, q, r, v, base + 64 * n, 64);
    }
    if blocks_tame(b, q, v, base, count) {
        assert forall|n: int| 0 <= n < count implies #[trigger] block_tame(c, r, v, base, n) by {
            assert(block_tame(b, q, v, base, n));
        }
    }
    if blocks_tame(c, r, v, base, count) {
        assert forall|n: int| 0 <= n < count implies #[trigger] block_tame(b, q, v, base, n) by {
            assert(block_tame(c, r, v, base, n));
        }
    }
}

proof fn lemma_planes_tame(
    b: Seq<u8>,
    c: Seq<u8>,
    fg: (int, int),
    w: Headers,
    x: Headers,
    v: Seq<i16>,
)
    requires
        same_frame(b, c, fg.0, fg.1),
        same_headers(b, c, w, x),
    ensures
        planes_tame(b, fg.0, w, v) == planes_tame(c, fg.1, x, v),
{
    let (f, g) = fg;
    assert forall|i: int| 0 <= i < components(b, f) implies #[trigger] plane_tame(b, f, w, v, i)
        == plane_tame(c, g, x, v, i) by {
        assert(byte(b, f + 8 + (2 + 3 * i)) == byte(c, g + 8 + (2 + 3 * i)));
        let id = byte(b, f + 10 + 3 * i) as int;
        let (t, u) = (w.quant.at(id), x.quant.at(id));
        lemma_plane(b, c, f, g, i as nat);
        if let (Some(q), Some(r)) = (t, u) {
            let (base, count) = (plane(b, f, i as nat), area(b, f, i));
            lemma_blocks_tame(b, c, q as int, r as int, v, base, count);
        }
    }
    if planes_tame(b, f, w, v) {
        assert forall|i: int| 0 <= i < components(c, g) implies #[trigger] plane_tame(
            c,
            g,
            x,
            v,
            i,
        ) by {
            assert(plane_tame(b, f, w, v, i));
        }
    }
    if planes_tame(c, g, x, v) {
        assert forall|i: int| 0 <= i < components(b, f) implies #[trigger] plane_tame(
            b,
            f,
            w,
            v,
            i,
        ) by {
            assert(plane_tame(c, g, x, v, i));
        }
    }
}

/// The scans of two streams whose headers say the same.
proof fn lemma_scans_taken(
    b: Seq<u8>,
    c: Seq<u8>,
    s: int,
    k: int,
    w: Headers,
    x: Headers,
    h: int,
)
    requires
        tail_moved(b, c, s, k),
        same_headers(b, c, w, x),
        s <= h,
    ensures
        crate::stream::scans_taken(b, w, h) == crate::stream::scans_taken(c, x, h + k),
{
    lemma_scan_whole(b, c, s, k, h);
    if let Some(f) = w.frame {
        let fg = (f as int, x.frame->0 as int);
        lemma_frame_taken(b, c, fg.0, fg.1, true);
        lemma_frame_taken(b, c, fg.0, fg.1, false);
        if scan_whole(b, h) {
            if w.progressive {
                lemma_planes_read(b, c, s, k, fg, w, x, h);
                if let Some((said, v)) = planes_read(b, fg.0, w, h) {
                    lemma_planes_tame(b, c, fg, w, x, v);
                }
            } else {
                lemma_size(b, c, fg.0, fg.1);
                let whole = scan_components(b, h) == components(b, fg.0);
                lemma_scans_read(
                    b,
                    c,
                    s,
                    k,
                    fg,
                    w,
                    x,
                    h,
                    walk_begun(w),
                    walk_begun(x),
                    whole,
                    across(b, fg.0) as nat,
                    down(b, fg.0) as nat,
                );
            }
        }
    }
}

/// Whether whole segments stand one behind the other from `q` up to `p`, none of them a
/// scan header. (The shortest `APP0` segment that holds four bytes is not counted among
/// them: the decoder takes one byte more of it than it has.)
pub open spec fn segments_between(b: Seq<u8>, q: int, p: int) -> bool
    decreases p - q,
{
    if q >= p {
        q == p
    } else {
        let n = b[q + 2] * 256 + b[q + 3];
        &&& 0 <= q && q + 4 <= p <= b.len()
        &&& b[q] == 0xff && b[q + 1] != 0 && b[q + 1] != 0xff && b[q + 1] != 0xda
        &&& n >= 2 && q + 2 + n <= p
        &&& b[q + 1] == 0xe0 ==> n != 6
        &&& segments_between(b, q + 2 + n, p)
    }
}

/// Whether `s` is a whole segment that tells the decoder nothing of the image: an
/// application segment other than `APP0` and `APP14`, such as Exif data, a color profile or
/// maker notes; an `APP0` segment that is not of a motion JPEG, such as JFIF's; an `APP14`
/// segment that is not Adobe's; or a comment.
pub open spec fn says_nothing(s: Seq<u8>) -> bool {
    &&& s.len() >= 4
    &&& s[0] == 0xff
    &&& s[2] * 256 + s[3] == s.len() - 2
    &&& {
        ||| 0xe1 <= s[1] <= 0xed
        ||| s[1] == 0xef
        ||| s[1] == 0xfe
        ||| s[1] == 0xe0 && s.len() < 8
        ||| s[1] == 0xe0 && s.len() >= 9 && s.subrange(4, 9) != seq![0x41u8, 0x56, 0x49, 0x31, 0]
        ||| s[1] == 0xee && s.len() >= 16 && s.subrange(4, 9) != seq![
            0x41u8,
            0x64,
            0x6f,
            0x62,
            0x65,
        ]
    }
}

/// `b` with `s` put in at `p`.
pub open spec fn inserted(b: Seq<u8>, p: int, s: Seq<u8>) -> Seq<u8> {
    b.take(p) + s + b.skip(p)
}

/// One segment.
proof fn lemma_step_over(b: Seq<u8>, p: int, w: Headers)
    requires
        0 <= p,
        p + 4 <= b.len(),
        b[p] == 0xff,
        b[p + 1] != 0xff,
        b[p + 1] != 0,
        b[p + 1] != 0xda,
        2 <= word(b, p + 2),
        segment_end(b, b[p + 1], p + 2) <= b.len(),
    ensures
        headers_from(b, p, false, w) == (match segment(b, b[p + 1], p + 2, w) {
            Some(next) => headers_from(b, segment_end(b, b[p + 1], p + 2), false, next),
            None => None,
        }),
{
    reveal_with_fuel(headers_from, 3);
}

/// Reading on in front of the place where the streams part.
proof fn lemma_before(b: Seq<u8>, c: Seq<u8>, q: int, p: int, w: Headers, x: Headers) -> (r: Option<
    (Headers, Headers),
>)
    requires
        0 <= q <= p <= b.len() <= usize::MAX,
        p <= c.len() <= usize::MAX,
        forall|i: int| 0 <= i < p ==> #[trigger] b[i] == c[i],
        segments_between(b, q, p),
        same_headers(b, c, w, x),
    ensures
        match r {
            Some((a, d)) => {
                &&& headers_from(b, q, false, w) == headers_from(b, p, false, a)
                &&& headers_from(c, q, false, x) == headers_from(c, p, false, d)
                &&& same_headers(b, c, a, d)
            },
            None => headers_from(b, q, false, w) is None && headers_from(c, q, false, x) is None,
        },
    decreases p - q,
{
    if q == p {
        Some((w, x))
    } else {
        let m = b[q + 1];
        let n = word(b, q + 2);
        assert(c[q] == b[q] && c[q + 1] == m && c[q + 2] == b[q + 2] && c[q + 3] == b[q + 3]);
        assert(segment_end(b, m, q + 2) == q + 2 + n);
        assert(same_bytes(b, c, q + 2, q + 2, n));
        lemma_segment(b, c, m, q + 2, q + 2, w, x);
        lemma_step_over(b, q, w);
        lemma_step_over(c, q, x);
        if let Some(a) = segment(b, m, q + 2, w) {
            let d = segment(c, m, q + 2, x)->0;
            lemma_before(b, c, q + 2 + n, p, a, d)
        } else {
            None
        }
    }
}

/// Whether the decoder comes from `p` to `q` in front of the first scan with nothing new.
spec fn passes(c: Seq<u8>, p: int, q: int) -> bool {
    forall|w: Headers| #[trigger] headers_from(c, p, false, w) == headers_from(c, q, false, w)
}

proof fn lemma_same_no_headers(b: Seq<u8>, c: Seq<u8>)
    ensures
        same_headers(b, c, no_headers(), no_headers()),
{
    let none = no_headers();
    assert(forall|i: int| #[trigger] none.dc.at(i) is None);
    assert(forall|i: int| #[trigger] none.ac.at(i) is None);
    assert(forall|i: int| #[trigger] none.quant.at(i) is None);
}

proof fn lemma_readable(b: Seq<u8>, p: int, s: Seq<u8>)
    requires
        2 <= p <= b.len(),
        b.len() + s.len() <= usize::MAX,
        segments_between(b, 2, p),
        passes(inserted(b, p, s), p, p + s.len()),
    ensures
        readable(inserted(b, p, s)) == readable(b),
        crate::stream::in_motion(inserted(b, p, s)) == crate::stream::in_motion(b),
{
    let c = inserted(b, p, s);
    let k = s.len() as int;
    assert(forall|i: int| 0 <= i < p ==> #[trigger] b[i] == c[i]);
    assert(tail_moved(b, c, p, k)) by {
        assert forall|i: int| p <= i < b.len() implies #[trigger] b[i] == c[i + k] by {
            assert(b.skip(p)[i - p] == b[i]);
        }
    }
    lemma_same_no_headers(b, c);
    let met = lemma_before(b, c, 2, p, no_headers(), no_headers());
    if let Some((w, x)) = met {
        assert(headers_from(c, p, false, x) == headers_from(c, p + k, false, x));
        lemma_headers(b, c, p, k, p, false, w, x);
        if let Some((a, h)) = headers_from(b, p, false, w) {
            let d = headers_from(c, p + k, false, x)->0;
            let said = d.0;
            lemma_scans_taken(b, c, p, k, a, said, h);
        }
    }
}

proof fn lemma_segments_move(b: Seq<u8>, c: Seq<u8>, n: int, q: int, p: int)
    requires
        0 <= n,
        2 <= q,
        c.len() == b.len() + n,
        forall|i: int| 2 <= i < b.len() ==> #[trigger] b[i] == c[i + n],
        segments_between(b, q, p),
    ensures
        segments_between(c, q + n, p + n),
    decreases p - q,
{
    if q < p {
        let m = b[q + 2] * 256 + b[q + 3];
        assert(b[q] == c[q + n] && b[q + 1] == c[q + 1 + n] && b[q + 2] == c[q + 2 + n] && b[q + 3]
            == c[q + 3 + n]);
        lemma_segments_move(b, c, n, q + 2 + m, p);
    }
}

/// What is put in between two segments, and passed over there, changes nothing.
proof fn lemma_decodable(b: Seq<u8>, p: int, s: Seq<u8>)
    requires
        2 <= p <= b.len(),
        b.len() + s.len() + 420 <= usize::MAX,
        segments_between(b, 2, p),
        passes(inserted(b, p, s), p, p + s.len()),
        passes(inserted(crate::standard::completed(b), p + 420, s), p + 420, p + 420 + s.len()),
    ensures
        decodable(inserted(b, p, s)) == decodable(b),
{
    let c = inserted(b, p, s);
    lemma_readable(b, p, s);
    assert(c[0] == b[0] && c[1] == b[1]);
    let table = crate::standard::standard_tables();
    assert(table.len() == 420);
    let d = crate::standard::completed(b);
    assert(crate::standard::completed(c) =~= inserted(d, p + 420, s)) by {
        assert(c.take(2) =~= b.take(2));
        assert(c.skip(2) =~= b.skip(2).take(p - 2) + s + b.skip(p));
        assert(d.take(p + 420) =~= b.take(2) + table + b.skip(2).take(p - 2));
        assert(d.skip(p + 420) =~= b.skip(p));
    }
    assert forall|i: int| 2 <= i < b.len() implies #[trigger] b[i] == d[i + 420] by {
        assert(b.skip(2)[i - 2] == b[i]);
    }
    lemma_segments_move(b, d, 420, 2, p);
    assert(table[0] == 0xff && table[1] == 0xc4 && table[2] == 1 && table[3] == 0xa2);
    assert(d[2] == table[0] && d[3] == table[1] && d[4] == table[2] && d[5] == table[3]);
    assert(segments_between(d, 2, p + 420));
    lemma_readable(d, p + 420, s);
}

/// A segment that says nothing is passed over.
proof fn lemma_passes_segment(b: Seq<u8>, p: int, s: Seq<u8>)
    requires
        0 <= p <= b.len(),
        says_nothing(s),
    ensures
        passes(inserted(b, p, s), p, p + s.len()),
{
    let c = inserted(b, p, s);
    assert forall|i: int| 0 <= i < s.len() implies #[trigger] c[p + i] == s[i] by {}
    assert(c[p + 0] == s[0] && c[p + 1] == s[1] && c[p + 2] == s[2] && c[p + 3] == s[3]);
    assert forall|w: Headers| #[trigger] headers_from(c, p, false, w) == headers_from(
        c,
        p + s.len(),
        false,
        w,
    ) by {
        if s.len() >= 9 && (s[1] == 0xe0 || s[1] == 0xee) {
            let name = s.subrange(4, 9);
            assert(c[p + 4] == s[4] && c[p + 5] == s[5] && c[p + 6] == s[6] && c[p + 7] == s[7]
                && c[p + 8] == s[8]);
            if crate::stream::avi_at(c, p + 4) {
                assert(name =~= seq![0x41u8, 0x56, 0x49, 0x31, 0]);
            }
            if crate::stream::adobe_at(c, p + 4) {
                assert(name =~= seq![0x41u8, 0x64, 0x6f, 0x62, 0x65]);
            }
        }
        assert(segment(c, s[1], p + 2, w) == Some(w));
        lemma_step_over(c, p, w);
    }
}

/// A segment that says nothing of the image, put in anywhere between the segments in front
/// of the first scan, leaves a stream as decodable as it is. So Exif data behind the start
/// of the image, a color profile or a comment do not matter.
pub proof fn law_segments_that_say_nothing_are_skipped(b: Seq<u8>, p: int, s: Seq<u8>)
    requires
        2 <= p <= b.len(),
        b.len() + s.len() + 420 <= usize::MAX,
        segments_between(b, 2, p),
        says_nothing(s),
    ensures
        decodable(inserted(b, p, s)) == decodable(b),
{
    lemma_passes_segment(b, p, s);
    lemma_passes_segment(crate::standard::completed(b), p + 420, s);
    lemma_decodable(b, p, s);
}

proof fn lemma_passes_fill(b: Seq<u8>, p: int)
    requires
        0 <= p < b.len(),
        b[p] == 0xff,
    ensures
        passes(inserted(b, p, seq![0xffu8]), p, p + 1),
{
    let c = inserted(b, p, seq![0xffu8]);
    assert(c[p] == 0xff);
    assert(b.skip(p)[0] == 0xff);
    assert(c[p + 1] == 0xff);
    assert forall|w: Headers| #[trigger] headers_from(c, p, false, w) == headers_from(
        c,
        p + 1,
        false,
        w,
    ) by {
        reveal_with_fuel(headers_from, 3);
    }
}

/// A fill byte in front of a marker leaves a stream as decodable as it is.
pub proof fn law_fill_bytes_are_skipped(b: Seq<u8>, p: int)
    requires
        2 <= p < b.len(),
        b.len() + 421 <= usize::MAX,
        segments_between(b, 2, p),
        b[p] == 0xff,
    ensures
        decodable(inserted(b, p, seq![0xffu8])) == decodable(b),
{
    let d = crate::standard::completed(b);
    assert(b.skip(2)[p - 2] == 0xff);
    assert(d[p + 420] == 0xff);
    lemma_passes_fill(b, p);
    lemma_passes_fill(d, p + 420);
    lemma_decodable(b, p, seq![0xffu8]);
}

} // verus!
