//! Frames of more than one scan, with nothing but zeros in them.
use crate::bits::{amount, gathered, past_fill, refilled, symbol, Reader};
use crate::progressive::{
    across, alone, area, blank_planes, block_size, dc_read, down, group, groups, layer, layer_read,
    layers, plane, plane_tame, planes_read, planes_tame, read_on, scan_read, together, Layer,
};
use crate::sequential::{
    block, blocks, no_predictions, one_step, part_blank, parts, row, rows, scans_read, zero_first,
    Part, Walk,
};
use crate::stream::{
    components, decodable, headers_from, horizontal, in_frame, law_ordinary_frames_are_taken,
    no_headers, ordinary, row_blocks, scan_components, scan_whole, vertical, word, Headers,
};
use vstd::prelude::*;

verus! {

/// Whether data end at `e` with marker `m`, of another scan or of the end of the image, and
/// `n` zero bytes stand in front of that: at most three, and at least one in front of another
/// scan.
pub open spec fn halts(b: Seq<u8>, e: int, n: nat, m: u8) -> bool {
    &&& n <= 3
    &&& n <= e
    &&& m == 0xd9 || (m == 0xda && n >= 1)
    &&& e + 2 <= b.len() <= usize::MAX
    &&& b[e] == 0xff
    &&& b[e + 1] == m
    &&& forall|i: int| e - n <= i < e ==> #[trigger] b[i] == 0
}

/// A reader in front of the zeros, or one that has met the marker.
spec fn nearing(e: int, n: nat, m: u8, r: Reader) -> bool {
    &&& r.held == 0
    &&& r.left <= 63
    &&& !r.over
    &&& (r.marker == m && r.at == e + 2) || (r.marker == 0 && r.left == 0 && r.at == e - n)
}

proof fn lemma_gathers_to_the_end(b: Seq<u8>, e: int, n: nat, m: u8, k: nat, r: Reader, rounds: nat)
    requires
        halts(b, e, n, m),
        k <= n,
        rounds > k,
        r.held == 0,
        r.marker == 0,
        r.at == e - k,
        r.left == 8 * (n - k),
    ensures
        ({
            let full = gathered(b, r, rounds);
            &&& full.held == 0
            &&& 8 <= full.left <= 32
            &&& full.marker == m
            &&& full.at == e + 2
            &&& full.over == r.over
        }),
    decreases k,
{
    let p = r.at as int;
    assert((0u64 << 8) | 0u8 as u64 == 0) by (bit_vector);
    if k > 0 {
        assert(b[p] == 0);
        assert(past_fill(b, p) == p);
        let next = crate::bits::with_byte(r, 0, crate::bits::behind(b, p));
        lemma_gathers_to_the_end(b, e, n, m, (k - 1) as nat, next, (rounds - 1) as nat);
    } else {
        reveal_with_fuel(past_fill, 3);
        assert(past_fill(b, p) == p + 1);
    }
}

/// A reader of zeros reads the symbol zero and has met the marker.
proof fn lemma_zero_at_the_end(b: Seq<u8>, e: int, n: nat, m: u8, r: Reader, t: int)
    requires
        halts(b, e, n, m),
        nearing(e, n, m, r),
        zero_first(b, t),
    ensures
        symbol(b, r, t) matches Some((x, rest)) && x == 0 && nearing(e, n, m, rest) && rest.marker
            == m,
{
    let full = refilled(b, r);
    if r.marker == 0 {
        lemma_gathers_to_the_end(b, e, n, m, n, r, 4);
    }
    assert(0u64 << 32 == 0) by (bit_vector);
    assert(full.held == 0 && 1 <= full.left <= 63 && full.marker == m);
    let (x, y) = ((full.left - 16) as u64, (16 - full.left) as u64);
    assert((0u64 >> x) & 0xffff == 0) by (bit_vector);
    assert((0u64 << y) & 0xffff == 0) by (bit_vector);
    assert(crate::bits::coded(b, t, 0, 1, 0x8000, 0, 0) == Some((0u8, 1int)));
}

/// Whether a layer holds the first bits of the DC coefficients of component `k`, and zero
/// bits stand for zeros in its table.
spec fn first_layer(b: Seq<u8>, f: int, x: Layer, k: int) -> bool {
    &&& x.component == k
    &&& x.horizontal == horizontal(b, f, k)
    &&& x.vertical == vertical(b, f, k)
    &&& x.base == plane(b, f, k as nat)
    &&& x.count == area(b, f, k)
    &&& x.stride == horizontal(b, f, k) * across(b, f)
    &&& x.start == 0
    &&& x.end == 0
    &&& !x.refines
    &&& x.dc matches Some(t) && zero_first(b, t as int)
}

/// Whether the walk stands where only zeros are left.
spec fn at_zeros(e: int, n: nat, m: u8, walk: Walk) -> bool {
    nearing(e, n, m, walk.reader) && walk.predictions == no_predictions()
}

proof fn lemma_blank_dc(
    b: Seq<u8>,
    f: int,
    e: int,
    n: nat,
    m: u8,
    x: Layer,
    k: int,
    walk: Walk,
    at: int,
)
    requires
        halts(b, e, n, m),
        in_frame(b, f),
        0 <= k < components(b, f),
        first_layer(b, f, x, k),
        at_zeros(e, n, m, walk),
        0 <= at < area(b, f, k),
    ensures
        dc_read(b, x, walk, blank_planes(b, f), at) matches Some((next, c)) && c == blank_planes(
            b,
            f,
        ) && next == (Walk { reader: next.reader, ..walk }) && at_zeros(e, n, m, next)
            && next.reader.marker == m,
{
    let t = x.dc->0 as int;
    let c = blank_planes(b, f);
    lemma_zero_at_the_end(b, e, n, m, walk.reader, t);
    let coded = (symbol(b, walk.reader, t)->0).1;
    let rest = coded.left;
    assert((0u64 >> rest) & !(0xffff_ffff_ffff_ffffu64 << 0) == 0) by (bit_vector);
    assert(amount(coded, 0) == Some((0int, coded)));
    crate::progressive::lemma_planes(b, f, k as nat, components(b, f) as nat);
    let place = x.base + 64 * at;
    assert(0 <= place < c.len());
    assert(c.update(place, 0i16) =~= c);
    assert(0 * x.unit == 0);
    assert(no_predictions().with(k, 0) == no_predictions());
}

/// The blocks of one step are among those of their component.
proof fn lemma_block_in_area(h: int, v: int, wide: int, high: int, i: int, j: int, n: int)
    requires
        1 <= h,
        1 <= v,
        0 <= i < high,
        0 <= j < wide,
        0 <= n < h * v,
    ensures
        0 <= (j * h + n % h) + (i * v + n / h) * (h * wide) < wide * high * h * v,
{
    vstd::arithmetic::div_mod::lemma_fundamental_div_mod(n, h);
    let (q, r) = (n / h, n % h);
    assert(0 <= q < v) by (nonlinear_arith)
        requires
            n == h * q + r,
            0 <= r < h,
            0 <= n < h * v,
            h >= 1,
    ;
    let (x, y) = (j * h + r, i * v + q);
    assert(0 <= x < h * wide) by (nonlinear_arith)
        requires
            x == j * h + r,
            0 <= r < h,
            0 <= j,
            j + 1 <= wide,
            h >= 1,
    ;
    assert(0 <= y < v * high) by (nonlinear_arith)
        requires
            y == i * v + q,
            0 <= q < v,
            0 <= i,
            i + 1 <= high,
            v >= 1,
    ;
    let row = h * wide;
    assert(0 <= x + y * row < (v * high) * row) by (nonlinear_arith)
        requires
            0 <= x < row,
            0 <= y,
            y + 1 <= v * high,
    ;
    assert((v * high) * (h * wide) == wide * high * h * v) by (nonlinear_arith);
}

proof fn lemma_blank_group(
    b: Seq<u8>,
    f: int,
    e: int,
    n: nat,
    m: u8,
    x: Layer,
    k: int,
    walk: Walk,
    i: int,
    j: int,
    d: int,
)
    requires
        halts(b, e, n, m),
        in_frame(b, f),
        0 <= k < components(b, f),
        first_layer(b, f, x, k),
        at_zeros(e, n, m, walk),
        0 <= i < down(b, f),
        0 <= j < across(b, f),
        0 <= d,
        1 <= horizontal(b, f, k),
        1 <= vertical(b, f, k),
    ensures
        group(b, x, walk, blank_planes(b, f), i, j, d) matches Some((next, c)) && c
            == blank_planes(b, f) && next == (Walk { reader: next.reader, ..walk }) && at_zeros(e, n, m, next) && (d < horizontal(b, f, k) * vertical(b, f, k) || walk.reader.marker == m
            ==> next.reader.marker == m),
    decreases x.horizontal * x.vertical - d,
{
    if d < x.horizontal * x.vertical {
        let (h, v) = (horizontal(b, f, k), vertical(b, f, k));
        lemma_block_in_area(h, v, across(b, f), down(b, f), i, j, d);
        let at = (j * h + d % h) + (i * x.vertical + d / h) * x.stride;
        lemma_blank_dc(b, f, e, n, m, x, k, walk, at);
        let next = (dc_read(b, x, walk, blank_planes(b, f), at)->0).0;
        lemma_blank_group(b, f, e, n, m, x, k, next, i, j, d + 1);
    }
}

proof fn lemma_blank_groups(
    b: Seq<u8>,
    f: int,
    e: int,
    n: nat,
    m: u8,
    xs: Seq<Layer>,
    walk: Walk,
    i: int,
    j: int,
    k: int,
)
    requires
        halts(b, e, n, m),
        in_frame(b, f),
        xs.len() == components(b, f),
        forall|l: int| 0 <= l < xs.len() ==> first_layer(b, f, #[trigger] xs[l], l),
        at_zeros(e, n, m, walk),
        0 <= i < down(b, f),
        0 <= j < across(b, f),
        0 <= k <= xs.len(),
    ensures
        groups(b, xs, walk, blank_planes(b, f), i, j, k) matches Some((next, c)) && c
            == blank_planes(b, f) && next == (Walk { reader: next.reader, ..walk }) && at_zeros(e, n, m, next) && (k < xs.len() || walk.reader.marker == m ==> next.reader.marker == m),
    decreases xs.len() - k,
{
    if k < xs.len() {
        assert(first_layer(b, f, xs[k], k));
        assert(crate::stream::factor_taken(horizontal(b, f, k)));
        assert(1 <= horizontal(b, f, k) * vertical(b, f, k)) by (nonlinear_arith)
            requires
                1 <= horizontal(b, f, k),
                1 <= vertical(b, f, k),
        ;
        lemma_blank_group(b, f, e, n, m, xs[k], k, walk, i, j, 0);
        let next = (group(b, xs[k], walk, blank_planes(b, f), i, j, 0)->0).0;
        lemma_blank_groups(b, f, e, n, m, xs, next, i, j, k + 1);
    }
}

/// A scan of all components that holds nothing but zeros is read, where no restart is due
/// within it.
proof fn lemma_blank_together(
    b: Seq<u8>,
    f: int,
    e: int,
    n: nat,
    m: u8,
    xs: Seq<Layer>,
    interval: u64,
    walk: Walk,
    i: int,
    j: int,
)
    requires
        halts(b, e, n, m),
        in_frame(b, f),
        xs.len() == components(b, f),
        forall|l: int| 0 <= l < xs.len() ==> first_layer(b, f, #[trigger] xs[l], l),
        at_zeros(e, n, m, walk),
        0 <= i <= down(b, f),
        0 <= j <= across(b, f),
        1 <= across(b, f),
        interval == 0 || walk.todo > (down(b, f) - i) * across(b, f) - j,
        i > 0 || j > 0 ==> walk.reader.marker == m,
        1 <= down(b, f),
    ensures
        together(
            b,
            xs,
            interval,
            walk,
            blank_planes(b, f),
            across(b, f),
            down(b, f),
            i,
            j,
        ) matches Some((next, c)) && c == blank_planes(b, f) && next.reader.marker == m
            && next.reader.at == e + 2,
    decreases down(b, f) - i, across(b, f) - j,
{
    let (wide, high) = (across(b, f), down(b, f));
    if i < high {
        assert((high - i) * wide == (high - (i + 1)) * wide + wide) by (nonlinear_arith);
        assert(0 <= (high - (i + 1)) * wide) by (nonlinear_arith)
            requires
                0 <= high - (i + 1),
                0 <= wide,
        ;
        if j >= wide {
            lemma_blank_together(b, f, e, n, m, xs, interval, walk, i + 1, 0);
        } else {
            lemma_blank_groups(b, f, e, n, m, xs, walk, i, j, 0);
            let next = (groups(b, xs, walk, blank_planes(b, f), i, j, 0)->0).0;
            let on = if interval == 0 {
                next
            } else {
                Walk { todo: (next.todo - 1) as u64, ..next }
            };
            assert(interval == 0 || next.todo > 1);
            assert(crate::progressive::counted(b, next, interval) == Some(on));
            lemma_blank_together(b, f, e, n, m, xs, interval, on, i, j + 1);
        }
    }
}

/// The scan with its header at `s` holds the first bits of the DC coefficients of its first
/// `m` components.
proof fn lemma_first_layers(b: Seq<u8>, f: int, w: Headers, s: int, m: nat)
    requires
        in_frame(b, f),
        m <= scan_components(b, s) <= components(b, f),
        scan_whole(b, s),
        0 <= s,
        forall|k: int|
            0 <= k < scan_components(b, s) ==> crate::sequential::named(
                b,
                f,
                #[trigger] b[s + 3 + 2 * k],
                0,
            ) == Some(k),
        forall|k: int|
            0 <= k < scan_components(b, s) ==> (w.dc.at(#[trigger] b[s + 4 + 2 * k] as int / 16)
                matches Some(t) && zero_first(b, t as int)),
        forall|k: int|
            0 <= k < components(b, f) ==> #[trigger] row_blocks(b, f, k as nat) == horizontal(
                b,
                f,
                k,
            ) * across(b, f),
        b[s + 3 + 2 * scan_components(b, s)] == 0,
        b[s + 4 + 2 * scan_components(b, s)] == 0,
        b[s + 5 + 2 * scan_components(b, s)] <= 13,
    ensures
        layers(b, f, w, s, m) matches Some(xs) && xs.len() == m && forall|l: int|
            0 <= l < m ==> first_layer(b, f, #[trigger] xs[l], l),
    decreases m,
{
    if m > 0 {
        let k = m - 1;
        lemma_first_layers(b, f, w, s, k as nat);
        assert(crate::sequential::named(b, f, b[s + 3 + 2 * k], 0) == Some(k));
        assert(w.dc.at(b[s + 4 + 2 * k] as int / 16) is Some);
        crate::progressive::lemma_area(b, f, k as nat);
        crate::progressive::lemma_planes(b, f, k as nat, components(b, f) as nat);
        assert(crate::stream::factor_taken(horizontal(b, f, k)));
        assert(row_blocks(b, f, k as nat) == horizontal(b, f, k) * across(b, f));
        crate::stream::lemma_product(horizontal(b, f, k), across(b, f), 8, 2055);
        assert(layer(b, f, w, s, k) matches Some(x) && first_layer(b, f, x, k));
    }
}

/// No block of a blank plane is too large.
proof fn lemma_blank_planes_are_tame(b: Seq<u8>, f: int, w: Headers)
    requires
        in_frame(b, f),
        forall|k: int|
            0 <= k < components(b, f) ==> (#[trigger] b[f + 10 + 3 * k]) <= 3 && w.quant.at(
                b[f + 10 + 3 * k] as int,
            ) is Some,
    ensures
        planes_tame(b, f, w, blank_planes(b, f)),
{
    assert forall|i: int| 0 <= i < components(b, f) implies #[trigger] plane_tame(
        b,
        f,
        w,
        blank_planes(b, f),
        i,
    ) by {
        let id = b[f + 10 + 3 * i];
        let q = w.quant.at(id as int)->0 as int;
        crate::progressive::lemma_planes(b, f, i as nat, components(b, f) as nat);
        assert forall|n: int| 0 <= n < area(b, f, i) implies #[trigger]
            crate::progressive::block_tame(
            b,
            q,
            blank_planes(b, f),
            plane(b, f, i as nat),
            n,
        ) by {
            lemma_blank_block_size(b, f, q, plane(b, f, i as nat) + 64 * n, 64);
        }
    }
}

proof fn lemma_blank_block_size(b: Seq<u8>, f: int, q: int, place: int, k: nat)
    requires
        0 <= place,
        place + k <= blank_planes(b, f).len(),
    ensures
        block_size(b, q, blank_planes(b, f), place, k) == 0,
    decreases k,
{
    if k > 0 {
        lemma_blank_block_size(b, f, q, place, (k - 1) as nat);
        assert(blank_planes(b, f)[place + k - 1] == 0);
        assert(crate::sequential::distance(0) == 0);
        assert(0 * crate::sequential::quant(b, q, k - 1) == 0);
    }
}

/// Whether the scan with its header at `p` holds the first bits of AC coefficients of one
/// component, without the lowest, and its table has a one-bit code for nothing more.
pub open spec fn ac_header(b: Seq<u8>, f: int, w: Headers, p: int) -> bool {
    &&& 0 <= p
    &&& scan_whole(b, p)
    &&& scan_components(b, p) == 1
    &&& crate::sequential::named(b, f, b[p + 3], 0) is Some
    &&& w.ac.at(b[p + 4] as int % 16) matches Some(t) && zero_first(b, t as int)
    &&& 1 <= b[p + 5] <= 63
    &&& b[p + 6] <= 63
    &&& b[p + 7] <= 13
}

/// Whether such scans stand from `p` on, as many as `zeros` has numbers, each with that many
/// zero bytes for its data, and the end of the image behind them.
pub open spec fn ac_passes(b: Seq<u8>, f: int, w: Headers, p: int, zeros: Seq<nat>) -> bool
    decreases zeros.len(),
{
    &&& zeros.len() > 0
    &&& ac_header(b, f, w, p)
    &&& halts(
        b,
        p + 8 + zeros[0],
        zeros[0],
        if zeros.len() == 1 {
            0xd9
        } else {
            0xda
        },
    )
    &&& zeros.len() > 1 ==> ac_passes(b, f, w, p + 10 + zeros[0], zeros.drop_first())
}

/// Whether a layer holds first bits of AC coefficients of one component.
spec fn ac_layer(b: Seq<u8>, f: int, x: Layer) -> bool {
    &&& 0 <= x.component < components(b, f)
    &&& x.count == area(b, f, x.component as int)
    &&& x.stride == horizontal(b, f, x.component as int) * across(b, f)
    &&& x.horizontal == horizontal(b, f, x.component as int)
    &&& x.vertical == vertical(b, f, x.component as int)
    &&& 1 <= x.start <= 63
    &&& !x.refines
    &&& x.ac matches Some(t) && zero_first(b, t as int)
}

proof fn lemma_blank_ac(b: Seq<u8>, f: int, e: int, n: nat, m: u8, x: Layer, walk: Walk, at: int)
    requires
        halts(b, e, n, m),
        ac_layer(b, f, x),
        at_zeros(e, n, m, walk),
        walk.blank == 0,
        0 <= at < x.count,
    ensures
        layer_read(b, x, walk, blank_planes(b, f), at) matches Some((next, c)) && c
            == blank_planes(b, f) && next == (Walk { reader: next.reader, ..walk }) && at_zeros(
            e,
            n,
            m,
            next,
        ) && next.reader.marker == m,
{
    let t = x.ac->0 as int;
    lemma_zero_at_the_end(b, e, n, m, walk.reader, t);
    let coded = (symbol(b, walk.reader, t)->0).1;
    let rest = coded.left;
    assert((0u64 >> rest) & !(0xffff_ffff_ffff_ffffu64 << 0) == 0) by (bit_vector);
    assert(1u64 << 0 == 1) by (bit_vector);
    assert(crate::bits::number(coded, 0) == Some((0u64, coded)));
}

proof fn lemma_blank_alone(
    b: Seq<u8>,
    f: int,
    e: int,
    n: nat,
    m: u8,
    x: Layer,
    walk: Walk,
    wide: int,
    high: int,
    i: int,
    j: int,
)
    requires
        halts(b, e, n, m),
        ac_layer(b, f, x),
        at_zeros(e, n, m, walk),
        walk.blank == 0,
        0 <= i <= high,
        0 <= j <= wide,
        1 <= wide <= x.stride,
        1 <= high,
        high * x.stride <= x.count,
        i > 0 || j > 0 ==> walk.reader.marker == m,
    ensures
        alone(b, x, 0, walk, blank_planes(b, f), wide, high, i, j) matches Some((next, c)) && c
            == blank_planes(b, f) && next.reader.marker == m && next.reader.at == e + 2,
    decreases high - i, wide - j,
{
    if i < high {
        if j >= wide {
            lemma_blank_alone(b, f, e, n, m, x, walk, wide, high, i + 1, 0);
        } else {
            let at = j + i * x.stride;
            assert(0 <= at < x.count) by (nonlinear_arith)
                requires
                    at == j + i * x.stride,
                    0 <= j < x.stride,
                    0 <= i,
                    i + 1 <= high,
                    high * x.stride <= x.count,
            ;
            lemma_blank_ac(b, f, e, n, m, x, walk, at);
            let next = (layer_read(b, x, walk, blank_planes(b, f), at)->0).0;
            assert(crate::progressive::counted(b, next, 0) == Some(next));
            lemma_blank_alone(b, f, e, n, m, x, next, wide, high, i, j + 1);
        }
    }
}

/// Whether a frame's first component is sampled once or twice as densely as the others, and
/// the others once.
pub open spec fn first_is_densest(b: Seq<u8>, f: int) -> bool {
    &&& 1 <= horizontal(b, f, 0) <= 2
    &&& 1 <= vertical(b, f, 0) <= 2
    &&& forall|k: int|
        1 <= k < components(b, f) ==> #[trigger] horizontal(b, f, k) == 1 && vertical(b, f, k) == 1
    &&& crate::stream::h_max(b, f) == horizontal(b, f, 0)
    &&& crate::stream::v_max(b, f) == vertical(b, f, 0)
    &&& forall|k: int|
        0 <= k < components(b, f) ==> #[trigger] row_blocks(b, f, k as nat) == horizontal(b, f, k)
            * across(b, f)
}

/// How the blocks of a component lie in the frame.
proof fn lemma_alone_fits(b: Seq<u8>, f: int, x: Layer)
    requires
        in_frame(b, f),
        first_is_densest(b, f),
        ac_layer(b, f, x),
    ensures
        ({
            let (wide, high) = if crate::progressive::by_blocks(b, f, x) {
                (
                    crate::stream::steps(crate::stream::frame_width(b, f), 8),
                    crate::stream::steps(crate::stream::frame_height(b, f), 8),
                )
            } else {
                (across(b, f), down(b, f))
            };
            1 <= wide <= x.stride && 1 <= high && high * x.stride <= x.count
        }),
{
    let k = x.component as int;
    let (width, height) = (crate::stream::frame_width(b, f), crate::stream::frame_height(b, f));
    let (h, v) = (horizontal(b, f, k), vertical(b, f, k));
    crate::progressive::lemma_area(b, f, k as nat);
    let (a, d) = (across(b, f), down(b, f));
    let (wide, high) = if crate::progressive::by_blocks(b, f, x) {
        (crate::stream::steps(width, 8), crate::stream::steps(height, 8))
    } else {
        (a, d)
    };
    if k > 0 {
        assert(horizontal(b, f, k) == 1);
    }
    lemma_finer_steps(width, crate::stream::h_max(b, f));
    lemma_finer_steps(height, crate::stream::v_max(b, f));
    assert(1 <= wide <= h * a && 1 <= high <= v * d) by (nonlinear_arith)
        requires
            wide == a || wide <= h * a,
            high == d || high <= v * d,
            1 <= wide,
            1 <= high,
            1 <= h,
            1 <= v,
            1 <= a,
            1 <= d,
    ;
    assert(high * (h * a) <= a * d * h * v) by (nonlinear_arith)
        requires
            high <= v * d,
            0 <= h,
            0 <= a,
    ;
}

/// Steps of eight are at most as many as those of a multiple of eight, times the multiple.
proof fn lemma_finer_steps(n: int, k: int)
    requires
        1 <= n,
        1 <= k <= 2,
    ensures
        1 <= crate::stream::steps(n, 8) <= k * crate::stream::steps(n, 8 * k),
{
    if k == 1 {
        assert(8 * k == 8);
    } else {
        assert(8 * k == 16);
        assert(crate::stream::steps(n, 16) == (n + 15) / 16);
    }
}

/// One scan of AC coefficients.
proof fn lemma_ac_scan(b: Seq<u8>, f: int, w: Headers, p: int, n: nat, m: u8)
    requires
        in_frame(b, f),
        first_is_densest(b, f),
        w.interval == 0,
        ac_header(b, f, w, p),
        halts(b, p + 8 + n, n, m),
    ensures
        scan_read(b, f, w, p, blank_planes(b, f)) matches Some((walk, c)) && c == blank_planes(b, f)
            && walk.reader.marker == m && walk.reader.at == p + 10 + n,
{
    let k = crate::sequential::named(b, f, b[p + 3], 0)->0;
    lemma_named_within(b, f, b[p + 3], 0);
    crate::progressive::lemma_area(b, f, k as nat);
    crate::progressive::lemma_planes(b, f, k as nat, components(b, f) as nat);
    assert(crate::stream::factor_taken(horizontal(b, f, k)));
    assert(row_blocks(b, f, k as nat) == horizontal(b, f, k) * across(b, f));
    crate::stream::lemma_product(horizontal(b, f, k), across(b, f), 8, 2055);
    let x = layer(b, f, w, p, 0)->0;
    assert(layer(b, f, w, p, 0) is Some && ac_layer(b, f, x));
    reveal_with_fuel(layers, 2);
    let xs = layers(b, f, w, p, 1)->0;
    assert(xs =~= seq![x]);
    let walk = Walk {
        reader: crate::bits::reader_at(p + 8, false),
        predictions: no_predictions(),
        todo: 0,
        blank: 0,
    };
    lemma_alone_fits(b, f, x);
    if crate::progressive::by_blocks(b, f, x) {
        let (wide, high) = (
            crate::stream::steps(crate::stream::frame_width(b, f), 8),
            crate::stream::steps(crate::stream::frame_height(b, f), 8),
        );
        lemma_blank_alone(b, f, p + 8 + n, n, m, x, walk, wide, high, 0, 0);
    } else {
        lemma_blank_alone(b, f, p + 8 + n, n, m, x, walk, across(b, f), down(b, f), 0, 0);
    }
}

proof fn lemma_named_within(b: Seq<u8>, f: int, id: u8, i: int)
    requires
        0 <= i,
    ensures
        crate::sequential::named(b, f, id, i) matches Some(k) ==> i <= k < components(b, f),
    decreases components(b, f) - i,
{
    if i < components(b, f) {
        lemma_named_within(b, f, id, i + 1);
    }
}

/// Scans of AC coefficients that hold nothing are read to blank planes, up to the decoder's
/// limit of 100 scans.
proof fn lemma_ac_passes(b: Seq<u8>, f: int, w: Headers, p: int, zeros: Seq<nat>, n: nat)
    requires
        in_frame(b, f),
        first_is_densest(b, f),
        w.interval == 0,
        ac_passes(b, f, w, p, zeros),
        n + zeros.len() <= 100,
    ensures
        read_on(b, f, w, blank_planes(b, f), 0xda, p, n) == Some((w, blank_planes(b, f))),
    decreases zeros.len(),
{
    let k = zeros[0];
    let q = p + 10 + k;
    if zeros.len() == 1 {
        lemma_ac_scan(b, f, w, p, k, 0xd9);
        reveal_with_fuel(read_on, 2);
    } else {
        lemma_ac_scan(b, f, w, p, k, 0xda);
        lemma_ac_passes(b, f, w, q, zeros.drop_first(), n + 1);
    }
}

/// A progressive frame whose first scan holds the first bits of the DC coefficients of all
/// its components, in their order, and whose other scans, up to 99, each hold first bits of
/// AC coefficients of one component, is read to blank planes, where at most three zero bytes
/// are the data of each scan, zero bits stand for zeros, and no restart is due.
pub proof fn law_blank_layers_are_read(
    b: Seq<u8>,
    f: int,
    w: Headers,
    s: int,
    n: nat,
    zeros: Seq<nat>,
)
    requires
        in_frame(b, f),
        first_is_densest(b, f),
        0 <= s,
        scan_whole(b, s),
        scan_components(b, s) == components(b, f),
        halts(
            b,
            s + word(b, s) + n,
            n,
            if zeros.len() == 0 {
                0xd9
            } else {
                0xda
            },
        ),
        forall|k: int|
            0 <= k < components(b, f) ==> crate::sequential::named(
                b,
                f,
                #[trigger] b[s + 3 + 2 * k],
                0,
            ) == Some(k),
        forall|k: int|
            0 <= k < components(b, f) ==> (w.dc.at(#[trigger] b[s + 4 + 2 * k] as int / 16)
                matches Some(t) && zero_first(b, t as int)),
        b[s + 3 + 2 * components(b, f)] == 0,
        b[s + 4 + 2 * components(b, f)] == 0,
        b[s + 5 + 2 * components(b, f)] <= 13,
        forall|k: int|
            0 <= k < components(b, f) ==> (#[trigger] b[f + 10 + 3 * k]) <= 3 && w.quant.at(
                b[f + 10 + 3 * k] as int,
            ) is Some,
        w.interval == 0 || (zeros.len() == 0 && w.interval > across(b, f) * down(b, f)),
        zeros.len() > 0 ==> ac_passes(b, f, w, s + word(b, s) + n + 2, zeros),
        zeros.len() <= 99,
    ensures
        planes_read(b, f, w, s) == Some((w, blank_planes(b, f))),
        planes_tame(b, f, w, blank_planes(b, f)),
{
    lemma_first_layers(b, f, w, s, components(b, f) as nat);
    let xs = layers(b, f, w, s, components(b, f) as nat)->0;
    let walk = Walk {
        reader: crate::bits::reader_at(s + word(b, s), false),
        predictions: no_predictions(),
        todo: w.interval,
        blank: 0,
    };
    let e = s + word(b, s) + n;
    let m: u8 = if zeros.len() == 0 {
        0xd9
    } else {
        0xda
    };
    crate::progressive::lemma_area(b, f, 0);
    assert(down(b, f) * across(b, f) == across(b, f) * down(b, f)) by (nonlinear_arith);
    assert(first_layer(b, f, xs[0], 0));
    lemma_blank_together(b, f, e, n, m, xs, w.interval, walk, 0, 0);
    if zeros.len() > 0 {
        lemma_ac_passes(b, f, w, e + 2, zeros, 1);
    }
    lemma_blank_planes_are_tame(b, f, w);
}

/// Whether the scan with its header at `p` is of one component, whose tables have one-bit
/// codes for a blank block.
pub open spec fn own_header(b: Seq<u8>, f: int, w: Headers, p: int) -> bool {
    &&& 0 <= p
    &&& scan_whole(b, p)
    &&& scan_components(b, p) == 1
    &&& parts(b, f, w, p, 1) matches Some(found) && part_blank(b, found[0]) && found[0].blocks >= 1
}

/// Whether such scans stand from `p` on, one more than `zeros` has numbers, each but the last
/// with that many zero bytes for its data, and the last with nothing but zeros behind it.
pub open spec fn own_scans(b: Seq<u8>, f: int, w: Headers, p: int, zeros: Seq<nat>) -> bool
    decreases zeros.len(),
{
    &&& own_header(b, f, w, p)
    &&& if zeros.len() == 0 {
        crate::sequential::blank_from(b, p + 8)
    } else {
        halts(b, p + 8 + zeros[0], zeros[0], 0xda) && own_scans(
            b,
            f,
            w,
            p + 10 + zeros[0],
            zeros.drop_first(),
        )
    }
}

proof fn lemma_near_block(b: Seq<u8>, e: int, n: nat, m: u8, part: Part, walk: Walk)
    requires
        halts(b, e, n, m),
        at_zeros(e, n, m, walk),
        part_blank(b, part),
    ensures
        block(b, part, walk) matches Some(next) && next == (Walk { reader: next.reader, ..walk })
            && at_zeros(e, n, m, next) && next.reader.marker == m,
{
    let t = part.dc as int;
    lemma_zero_at_the_end(b, e, n, m, walk.reader, t);
    let coded = (symbol(b, walk.reader, t)->0).1;
    let rest = coded.left;
    assert((0u64 >> rest) & !(0xffff_ffff_ffff_ffffu64 << 0) == 0) by (bit_vector);
    assert(amount(coded, 0) == Some((0int, coded)));
    lemma_zero_at_the_end(b, e, n, m, coded, part.ac as int);
    assert(0 * crate::sequential::quant(b, part.quant as int, 0) == 0);
}

proof fn lemma_near_blocks(b: Seq<u8>, e: int, n: nat, m: u8, part: Part, walk: Walk, k: nat)
    requires
        halts(b, e, n, m),
        at_zeros(e, n, m, walk),
        part_blank(b, part),
    ensures
        blocks(b, part, walk, k) matches Some(next) && next == (Walk {
            reader: next.reader,
            ..walk
        }) && at_zeros(e, n, m, next) && (k > 0 || walk.reader.marker == m ==> next.reader.marker
            == m),
    decreases k,
{
    if k > 0 {
        lemma_near_block(b, e, n, m, part, walk);
        lemma_near_blocks(b, e, n, m, part, block(b, part, walk)->0, (k - 1) as nat);
    }
}

/// A row of zeros with a marker behind them meets the marker.
proof fn lemma_near_row(
    b: Seq<u8>,
    e: int,
    n: nat,
    m: u8,
    found: Seq<Part>,
    interval: u64,
    walk: Walk,
    k: nat,
)
    requires
        halts(b, e, n, m),
        at_zeros(e, n, m, walk),
        found.len() == 1,
        part_blank(b, found[0]),
        found[0].blocks >= 1,
        walk.todo > k,
    ensures
        row(b, found, interval, walk, k) matches Some(next) && next.predictions == no_predictions()
            && !next.reader.over && walk.todo - k <= next.todo <= walk.todo && (k > 0
            || walk.reader.marker == m ==> next.reader.marker == m && next.reader.at == e + 2),
    decreases k,
{
    if k > 0 {
        lemma_near_blocks(b, e, n, m, found[0], walk, found[0].blocks as nat);
        reveal_with_fuel(one_step, 3);
        let next = one_step(b, found, walk, 0)->0;
        let counted = Walk { todo: (next.todo - 1) as u64, ..next };
        if counted.reader.left != 0 {
            lemma_near_row(b, e, n, m, found, interval, counted, (k - 1) as nat);
        }
    }
}

/// Sequential scans of one component each that hold nothing are read.
proof fn lemma_own_scans(
    b: Seq<u8>,
    f: int,
    w: Headers,
    p: int,
    zeros: Seq<nat>,
    walk: Walk,
    wide: nat,
    high: nat,
)
    requires
        b.len() <= usize::MAX,
        own_scans(b, f, w, p, zeros),
        walk.predictions == no_predictions(),
        !walk.reader.over,
        1 <= wide,
        1 <= high,
        walk.todo > wide * high + wide * zeros.len(),
    ensures
        scans_read(b, f, w, p, walk, false, wide, high),
    decreases zeros.len(),
{
    let found = parts(b, f, w, p, 1)->0;
    reveal_with_fuel(parts, 2);
    assert(found.len() == 1);
    assert(word(b, p) == 8);
    assert(0 <= wide * zeros.len() && 0 <= wide * high) by (nonlinear_arith);
    if zeros.len() == 0 {
        assert(wide * zeros.len() == 0);
        crate::sequential::lemma_blank_scan(b, f, w, p, walk, false, wide, high);
    } else {
        let n = zeros[0];
        let e = p + 8 + n;
        let begun = Walk { reader: crate::bits::reader_at(p + 8, false), ..walk };
        assert(wide * zeros.len() == wide * (zeros.len() - 1) + wide) by (nonlinear_arith);
        assert(0 <= wide * (zeros.len() - 1)) by (nonlinear_arith)
            requires
                zeros.len() >= 1,
        ;
        lemma_near_row(b, e, n, 0xda, found, w.interval, begun, wide);
        let next = row(b, found, w.interval, begun, wide)->0;
        assert(rows(b, found, w.interval, begun, wide, high) == Some((true, next)));
        lemma_own_scans(b, f, w, e + 2, zeros.drop_first(), next, wide, high);
    }
}

/// An ordinary sequential frame whose components come in scans of their own, in any order and
/// any number, is decodable, where zero bits stand for blank blocks and the data of the scans
/// are zeros.
pub proof fn law_scans_of_their_own_are_decodable(
    b: Seq<u8>,
    w: Headers,
    f: usize,
    s: int,
    zeros: Seq<nat>,
)
    requires
        2 <= b.len() <= usize::MAX,
        b[0] == 0xff,
        b[1] == 0xd8,
        headers_from(b, 2, false, no_headers()) == Some((w, s)),
        w.frame == Some(f),
        !w.progressive,
        !w.motion,
        w.todo == 0x7fff_ffff,
        in_frame(b, f as int),
        ordinary(b, f as int),
        own_scans(b, f as int, w, s, zeros),
        zeros.len() <= 1000,
    ensures
        decodable(b),
{
    law_ordinary_frames_are_taken(b, f as int, w.transform != 0);
    crate::progressive::lemma_area(b, f as int, 0);
    let (wide, high) = (across(b, f as int), down(b, f as int));
    crate::stream::lemma_product(wide, high, 2055, 2055);
    crate::stream::lemma_product(wide, zeros.len() as int, 2055, 1000);
    lemma_own_scans(
        b,
        f as int,
        w,
        s,
        zeros,
        crate::sequential::walk_begun(w),
        wide as nat,
        high as nat,
    );
}

} // verus!
