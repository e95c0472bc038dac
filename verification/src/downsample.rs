//! Averaging square blocks of an interleaved RGB image.
use rayon::iter::{IndexedParallelIterator, ParallelIterator};
use rayon::slice::ParallelSliceMut;
use vstd::prelude::*;

verus! {

/// Channel `c` of the pixel in column `x` of row `y`.
pub open spec fn sample(rgb: Seq<u8>, width: nat, x: nat, y: nat, c: nat) -> nat {
    rgb[((y * width + x) * 3 + c) as int] as nat
}

/// Sum of channel `c` over `n` pixels of row `y`, from column `x0` on.
pub open spec fn row_sum(rgb: Seq<u8>, width: nat, x0: nat, y: nat, n: nat, c: nat) -> nat
    decreases n,
{
    if n == 0 {
        0
    } else {
        row_sum(rgb, width, x0, y, (n - 1) as nat, c) + sample(
            rgb,
            width,
            (x0 + n - 1) as nat,
            y,
            c,
        )
    }
}

/// Sum of channel `c` over the block of `n` columns and `m` rows whose first
/// pixel is in column `x0` of row `y0`.
pub open spec fn block_sum(
    rgb: Seq<u8>,
    width: nat,
    x0: nat,
    y0: nat,
    n: nat,
    m: nat,
    c: nat,
) -> nat
    decreases m,
{
    if m == 0 {
        0
    } else {
        block_sum(rgb, width, x0, y0, n, (m - 1) as nat, c) + row_sum(
            rgb,
            width,
            x0,
            (y0 + m - 1) as nat,
            n,
            c,
        )
    }
}

/// Mean of channel `c` over a block of `factor` by `factor` pixels, rounded to the
/// nearest integer, halves up.
pub open spec fn block_average(
    rgb: Seq<u8>,
    width: nat,
    factor: nat,
    ox: nat,
    oy: nat,
    c: nat,
) -> nat {
    (block_sum(rgb, width, ox * factor, oy * factor, factor, factor, c) + factor * factor / 2) / (
    factor * factor)
}

/// The averaged image: `out_w` by `out_h` pixels, one for each whole block.
pub open spec fn averaged(
    rgb: Seq<u8>,
    width: nat,
    factor: nat,
    out_w: nat,
    out_h: nat,
) -> Seq<u8> {
    Seq::new(
        out_w * 3 * out_h,
        |k: int|
            block_average(
                rgb,
                width,
                factor,
                (k % (out_w * 3) as int / 3) as nat,
                (k / (out_w * 3) as int) as nat,
                (k % 3) as nat,
            ) as u8,
    )
}

proof fn lemma_row_sum_bounds(
    rgb: Seq<u8>,
    width: nat,
    x0: nat,
    y: nat,
    n: nat,
    c: nat,
    low: nat,
    high: nat,
)
    requires
        forall|x: nat| x0 <= x < x0 + n ==> low <= #[trigger] sample(rgb, width, x, y, c) <= high,
    ensures
        low * n <= row_sum(rgb, width, x0, y, n, c) <= high * n,
    decreases n,
{
    if n > 0 {
        let k = (n - 1) as nat;
        lemma_row_sum_bounds(rgb, width, x0, y, k, c, low, high);
        let last = sample(rgb, width, (x0 + n - 1) as nat, y, c);
        assert(low * n == low * k + low && high * n == high * k + high) by (nonlinear_arith)
            requires
                n == k + 1,
        ;
    } else {
        assert(low * 0 == 0 && high * 0 == 0) by (nonlinear_arith);
    }
}

proof fn lemma_block_sum_bounds(
    rgb: Seq<u8>,
    width: nat,
    x0: nat,
    y0: nat,
    n: nat,
    m: nat,
    c: nat,
    low: nat,
    high: nat,
)
    requires
        forall|x: nat, y: nat|
            x0 <= x < x0 + n && y0 <= y < y0 + m ==> low <= #[trigger] sample(rgb, width, x, y, c)
                <= high,
    ensures
        low * (n * m) <= block_sum(rgb, width, x0, y0, n, m, c) <= high * (n * m),
    decreases m,
{
    if m > 0 {
        let k = (m - 1) as nat;
        lemma_block_sum_bounds(rgb, width, x0, y0, n, k, c, low, high);
        lemma_row_sum_bounds(rgb, width, x0, (y0 + m - 1) as nat, n, c, low, high);
        assert(low * (n * m) == low * (n * k) + low * n && high * (n * m) == high * (n * k) + high
            * n) by (nonlinear_arith)
            requires
                m == k + 1,
        ;
    } else {
        assert(low * (n * 0) == 0 && high * (n * 0) == 0) by (nonlinear_arith);
    }
}

/// An average lies between the least and the greatest sample of its block. A block
/// of one color keeps its color.
pub proof fn law_average_is_between(
    rgb: Seq<u8>,
    width: nat,
    factor: nat,
    ox: nat,
    oy: nat,
    c: nat,
    low: nat,
    high: nat,
)
    requires
        factor > 0,
        forall|x: nat, y: nat|
            ox * factor <= x < ox * factor + factor && oy * factor <= y < oy * factor + factor
                ==> low <= #[trigger] sample(rgb, width, x, y, c) <= high,
    ensures
        low <= block_average(rgb, width, factor, ox, oy, c) <= high,
{
    let sum = block_sum(rgb, width, ox * factor, oy * factor, factor, factor, c);
    let block = factor * factor;
    lemma_block_sum_bounds(
        rgb,
        width,
        ox * factor,
        oy * factor,
        factor,
        factor,
        c,
        low,
        high,
    );
    assert(block > 0) by (nonlinear_arith)
        requires
            factor > 0,
            block == factor * factor,
    ;
    lemma_rounded_mean(sum, block, low, high);
}

proof fn lemma_rounded_mean(sum: nat, block: nat, low: nat, high: nat)
    requires
        low * block <= sum <= high * block,
        block > 0,
    ensures
        low <= (sum + block / 2) / block <= high,
{
    let q = (sum + block / 2) / block;
    vstd::arithmetic::div_mod::lemma_fundamental_div_mod((sum + block / 2) as int, block as int);
    assert(low <= q <= high) by (nonlinear_arith)
        requires
            low * block <= sum <= high * block,
            block > 0,
            0 <= block / 2 < block,
            sum + block / 2 == block * q + (sum + block / 2) % block,
            0 <= (sum + block / 2) % block < block,
    ;
}

/// Averaging blocks of one pixel changes nothing.
pub proof fn law_unit_blocks_keep_the_image(rgb: Seq<u8>, width: nat, height: nat)
    requires
        width > 0,
        rgb.len() == width * 3 * height,
    ensures
        averaged(rgb, width, 1, width, height) == rgb,
{
    let image = averaged(rgb, width, 1, width, height);
    assert forall|k: int| 0 <= k < rgb.len() implies #[trigger] image[k] == rgb[k] by {
        let row_len = (width * 3) as int;
        let rest = k % row_len;
        let (x, y, c) = ((rest / 3) as nat, (k / row_len) as nat, (k % 3) as nat);
        vstd::arithmetic::div_mod::lemma_fundamental_div_mod(k, row_len);
        vstd::arithmetic::div_mod::lemma_mod_mod(k, 3, width as int);
        vstd::arithmetic::div_mod::lemma_div_pos_is_pos(k, row_len);
        assert((y * width + x) * 3 + c == k) by (nonlinear_arith)
            requires
                k == width * 3 * y + rest,
                rest == 3 * x + c,
        ;
        reveal_with_fuel(block_sum, 2);
        reveal_with_fuel(row_sum, 2);
        assert(x * 1 == x && y * 1 == y);
        assert(block_sum(rgb, width, x * 1, y * 1, 1, 1, c) == sample(rgb, width, x, y, c));
        assert(block_average(rgb, width, 1, x, y, c) == sample(rgb, width, x, y, c));
    }
    assert(image =~= rgb);
}

/// The place of a sample, within an image that holds all rows up to it.
proof fn lemma_sample_place(width: nat, x: nat, y: nat, c: nat, rows: nat, len: nat)
    requires
        x < width,
        y < rows,
        c < 3,
        rows * width * 3 <= len,
    ensures
        (y * width + x) * 3 + c < len,
        y * width + x + 1 <= rows * width,
        y * width <= rows * width,
{
    assert((y + 1) * width <= rows * width) by (nonlinear_arith)
        requires
            y + 1 <= rows,
    ;
    assert((y + 1) * width == y * width + width) by (nonlinear_arith);
}

/// The samples of channel `c` in the block of `factor` by `factor` pixels in block column
/// `ox` of block row `oy`, row by row.
pub open spec fn block_samples(
    rgb: Seq<u8>,
    width: nat,
    factor: nat,
    ox: nat,
    oy: nat,
    c: nat,
    n: nat,
) -> Seq<int> {
    Seq::new(
        n,
        |k: int|
            rgb[((oy * factor + k / factor as int) * width + (ox * factor + k % factor as int)) * 3
                + c] as int,
    )
}

/// The sum of numbers.
pub open spec fn total(numbers: Seq<int>) -> int {
    numbers.fold_left(0int, |sum: int, x: int| sum + x)
}

/// The sum over the first `m` rows of a block and `j` pixels of the next one.
proof fn lemma_total_of_block(
    rgb: Seq<u8>,
    width: nat,
    factor: nat,
    ox: nat,
    oy: nat,
    c: nat,
    m: nat,
    j: nat,
)
    requires
        factor > 0,
        j <= factor,
    ensures
        total(block_samples(rgb, width, factor, ox, oy, c, m * factor + j)) == block_sum(
            rgb,
            width,
            ox * factor,
            oy * factor,
            factor,
            m,
            c,
        ) + row_sum(rgb, width, ox * factor, oy * factor + m, j, c),
    decreases m, j,
{
    let n = m * factor + j;
    let all = block_samples(rgb, width, factor, ox, oy, c, n);
    if j > 0 {
        lemma_total_of_block(rgb, width, factor, ox, oy, c, m, (j - 1) as nat);
        assert(all.drop_last() =~= block_samples(rgb, width, factor, ox, oy, c, (n - 1) as nat));
        vstd::arithmetic::div_mod::lemma_fundamental_div_mod_converse(
            n - 1,
            factor as int,
            m as int,
            j - 1,
        );
        assert(all.last() == sample(
            rgb,
            width,
            (ox * factor + j - 1) as nat,
            oy * factor + m,
            c,
        ));
    } else if m > 0 {
        lemma_total_of_block(rgb, width, factor, ox, oy, c, (m - 1) as nat, factor);
        assert((m - 1) * factor + factor == m * factor) by (nonlinear_arith);
    } else {
        assert(0 * factor == 0) by (nonlinear_arith);
        assert(all =~= seq![]);
    }
}

/// Where a sample of the averaged image is.
proof fn lemma_averaged_at(out_w: nat, out_h: nat, ox: nat, oy: nat, c: nat)
    requires
        ox < out_w,
        oy < out_h,
        c < 3,
    ensures
        ({
            let k = (oy * out_w + ox) * 3 + c;
            &&& k < out_w * 3 * out_h
            &&& k % (out_w * 3) / 3 == ox
            &&& k / (out_w * 3) == oy
            &&& k % 3 == c
        }),
{
    let k = (oy * out_w + ox) * 3 + c;
    assert(k == oy * (out_w * 3) + (ox * 3 + c)) by (nonlinear_arith)
        requires
            k == (oy * out_w + ox) * 3 + c,
    ;
    assert(k < out_w * 3 * out_h) by (nonlinear_arith)
        requires
            k == oy * (out_w * 3) + (ox * 3 + c),
            ox + 1 <= out_w,
            oy + 1 <= out_h,
            c < 3,
    ;
    vstd::arithmetic::div_mod::lemma_fundamental_div_mod_converse(
        k as int,
        (out_w * 3) as int,
        oy as int,
        (ox * 3 + c) as int,
    );
}

/// Every sample of the averaged image is the integer nearest to the mean of the `factor` by
/// `factor` samples of its channel in its block, and the greater of two that are equally
/// near. Block column `ox` begins at column `ox * factor`, and block row `oy` at row
/// `oy * factor`.
pub proof fn law_average_is_nearest(
    rgb: Seq<u8>,
    width: nat,
    factor: nat,
    out_w: nat,
    out_h: nat,
    ox: nat,
    oy: nat,
    c: nat,
)
    requires
        factor > 0,
        ox < out_w,
        oy < out_h,
        c < 3,
    ensures
        averaged(rgb, width, factor, out_w, out_h).len() == out_w * out_h * 3,
        ({
            let n = factor * factor;
            let sum = total(block_samples(rgb, width, factor, ox, oy, c, n));
            let mean = averaged(rgb, width, factor, out_w, out_h)[((oy * out_w + ox) * 3
                + c) as int];
            -n < 2 * (mean * n - sum) <= n
        }),
{
    let n = factor * factor;
    let sum = block_sum(rgb, width, ox * factor, oy * factor, factor, factor, c);
    assert(n > 0) by (nonlinear_arith)
        requires
            factor > 0,
            n == factor * factor,
    ;
    assert(out_w * 3 * out_h == out_w * out_h * 3) by (nonlinear_arith);
    lemma_total_of_block(rgb, width, factor, ox, oy, c, factor, 0);
    lemma_averaged_at(out_w, out_h, ox, oy, c);
    lemma_block_sum_fits(rgb, width, ox * factor, oy * factor, factor, factor, c);
    lemma_rounded_mean(sum, n, 0, 255);
    let mean = (sum + n / 2) / n;
    vstd::arithmetic::div_mod::lemma_fundamental_div_mod((sum + n / 2) as int, n as int);
    assert(n * mean == mean * n) by (nonlinear_arith);
}

/// Sums each channel over `factor` pixels of row `y`, from column `x0` on, onto
/// `acc`.
fn add_row(rgb: &[u8], width: usize, x0: usize, y: usize, factor: usize, acc: [u128; 3]) -> (r: [u128;
    3])
    requires
        x0 + factor <= width,
        (y + 1) * width * 3 <= rgb@.len(),
        forall|c: int| 0 <= c < 3 ==> #[trigger] acc[c] <= 0xffff_ffff_ffff_ffff_ffff_ffff,
    ensures
        forall|c: int|
            0 <= c < 3 ==> #[trigger] r[c] == acc[c] + row_sum(
                rgb@,
                width as nat,
                x0 as nat,
                y as nat,
                factor as nat,
                c as nat,
            ),
{
    let len: usize = rgb.len();
    let mut sum: [u128; 3] = acc;
    let mut i: usize = 0;
    while i < factor
        invariant
            i <= factor,
            len == rgb@.len(),
            x0 + factor <= width,
            (y + 1) * width * 3 <= rgb@.len(),
            forall|c: int| 0 <= c < 3 ==> #[trigger] acc[c] <= 0xffff_ffff_ffff_ffff_ffff_ffff,
            forall|c: int|
                0 <= c < 3 ==> #[trigger] sum[c] == acc[c] + row_sum(
                    rgb@,
                    width as nat,
                    x0 as nat,
                    y as nat,
                    i as nat,
                    c as nat,
                ),
            forall|c: int| 0 <= c < 3 ==> #[trigger] sum[c] <= acc[c] + 255 * i,
        decreases factor - i,
    {
        proof {
            lemma_sample_place(
                width as nat,
                (x0 + i) as nat,
                y as nat,
                2,
                (y + 1) as nat,
                rgb@.len(),
            );
        }
        let p: usize = (y * width + (x0 + i)) * 3;
        let next: [u128; 3] = [
            sum[0] + rgb[p] as u128,
            sum[1] + rgb[p + 1] as u128,
            sum[2] + rgb[p + 2] as u128,
        ];
        assert forall|c: int| 0 <= c < 3 implies #[trigger] next[c] == sum[c] + sample(
            rgb@,
            width as nat,
            (x0 + i) as nat,
            y as nat,
            c as nat,
        ) by {
            assert(c == 0 || c == 1 || c == 2);
        }
        sum = next;
        i = i + 1;
    }
    sum
}

/// Every sample is a byte, so sums over a block have room.
proof fn lemma_block_sum_fits(rgb: Seq<u8>, width: nat, x0: nat, y0: nat, n: nat, m: nat, c: nat)
    ensures
        block_sum(rgb, width, x0, y0, n, m, c) <= 255 * (n * m),
{
    lemma_block_sum_bounds(rgb, width, x0, y0, n, m, c, 0, 255);
}

/// The mean color of the block of `factor` by `factor` pixels whose first pixel is
/// in column `x0` of row `y0`.
fn mean_color(rgb: &[u8], width: usize, factor: usize, x0: usize, y0: usize) -> (r: [u8; 3])
    requires
        factor > 0,
        x0 + factor <= width,
        (y0 + factor) * width * 3 <= rgb@.len(),
    ensures
        forall|c: int|
            0 <= c < 3 ==> #[trigger] r[c] == (block_sum(
                rgb@,
                width as nat,
                x0 as nat,
                y0 as nat,
                factor as nat,
                factor as nat,
                c as nat,
            ) + factor * factor / 2) / (factor * factor),
{
    let len: usize = rgb.len();
    let ghost w = width as nat;
    let ghost f = factor as nat;
    proof {
        assert(factor * factor <= (y0 + factor) * width) by (nonlinear_arith)
            requires
                factor <= width,
                0 <= y0,
                0 < factor,
        ;
        assert(0 < factor * factor) by (nonlinear_arith)
            requires
                0 < factor,
        ;
    }
    let mut sum: [u128; 3] = [0, 0, 0];
    let mut i: usize = 0;
    while i < factor
        invariant
            i <= factor,
            len == rgb@.len(),
            w == width,
            f == factor,
            x0 + factor <= width,
            (y0 + factor) * width * 3 <= rgb@.len(),
            0 < factor * factor <= usize::MAX,
            forall|c: int|
                0 <= c < 3 ==> #[trigger] sum[c] == block_sum(
                    rgb@,
                    w,
                    x0 as nat,
                    y0 as nat,
                    f,
                    i as nat,
                    c as nat,
                ),
        decreases factor - i,
    {
        proof {
            assert forall|c: int| 0 <= c < 3 implies #[trigger] sum[c]
                <= 0xffff_ffff_ffff_ffff_ffff_ffff by {
                lemma_block_sum_fits(rgb@, w, x0 as nat, y0 as nat, f, i as nat, c as nat);
                assert(f * i <= f * f) by (nonlinear_arith)
                    requires
                        i <= f,
                ;
            }
            assert((y0 + i + 1) * width <= (y0 + factor) * width) by (nonlinear_arith)
                requires
                    i + 1 <= factor,
            ;
            assert(y0 + factor <= usize::MAX) by (nonlinear_arith)
                requires
                    (y0 + factor) * width * 3 <= usize::MAX,
                    1 <= width,
            ;
        }
        sum = add_row(rgb, width, x0, y0 + i, factor, sum);
        i = i + 1;
    }
    let block: u128 = factor as u128 * factor as u128;
    proof {
        assert forall|c: int| 0 <= c < 3 implies #[trigger] sum[c] <= 255 * block by {
            lemma_block_sum_fits(rgb@, w, x0 as nat, y0 as nat, f, f, c as nat);
        }
        assert forall|c: int| 0 <= c < 3 implies (#[trigger] sum[c] + block / 2) / block as int
            <= 255 by {
            lemma_rounded_mean(sum[c] as nat, block as nat, 0, 255);
        }
    }
    [
        ((sum[0] + block / 2) / block) as u8,
        ((sum[1] + block / 2) / block) as u8,
        ((sum[2] + block / 2) / block) as u8,
    ]
}

/// Fills `row`, row `oy` of the averaged image.
fn average_row(rgb: &[u8], width: usize, factor: usize, oy: usize, row: &mut [u8])
    requires
        factor > 0,
        old(row)@.len() % 3 == 0,
        old(row)@.len() / 3 * factor <= width,
        (oy + 1) * factor * width * 3 <= rgb@.len(),
    ensures
        final(row)@.len() == old(row)@.len(),
        forall|j: int|
            0 <= j < old(row)@.len() ==> #[trigger] final(row)@[j] == block_average(
                rgb@,
                width as nat,
                factor as nat,
                (j / 3) as nat,
                oy as nat,
                (j % 3) as nat,
            ),
{
    let len: usize = rgb.len();
    let row_len: usize = row.len();
    let out_w: usize = row_len / 3;
    let mut ox: usize = 0;
    while ox < out_w
        invariant
            ox <= out_w,
            row_len == out_w * 3,
            len == rgb@.len(),
            row@.len() == old(row)@.len(),
            row@.len() == out_w * 3,
            factor > 0,
            out_w * factor <= width,
            (oy + 1) * factor * width * 3 <= rgb@.len(),
            forall|j: int|
                0 <= j < ox * 3 ==> #[trigger] row@[j] == block_average(
                    rgb@,
                    width as nat,
                    factor as nat,
                    (j / 3) as nat,
                    oy as nat,
                    (j % 3) as nat,
                ),
        decreases out_w - ox,
    {
        proof {
            assert((ox + 1) * factor <= out_w * factor && (ox + 1) * factor == ox * factor + factor
                && (oy + 1) * factor == oy * factor + factor) by (nonlinear_arith)
                requires
                    ox + 1 <= out_w,
            ;
            assert((oy + 1) * factor <= (oy + 1) * factor * width) by (nonlinear_arith)
                requires
                    1 <= width,
                    0 <= (oy + 1) * factor,
            ;
        }
        let color = mean_color(rgb, width, factor, ox * factor, oy * factor);
        let p: usize = ox * 3;
        row[p] = color[0];
        row[p + 1] = color[1];
        row[p + 2] = color[2];
        assert forall|j: int| 0 <= j < (ox + 1) * 3 implies #[trigger] row@[j] == block_average(
            rgb@,
            width as nat,
            factor as nat,
            (j / 3) as nat,
            oy as nat,
            (j % 3) as nat,
        ) by {
            if j >= ox * 3 {
                let c = j - ox * 3;
                assert(j / 3 == ox && j % 3 == c);
                assert(row@[j] == color[c]);
            }
        }
        ox = ox + 1;
    }
}

/// Calls `rayon`'s `par_chunks_mut`, `enumerate` and `for_each`, with
/// [`average_row`] on each chunk.
///
/// The contract claims of `rayon` that the chunks are the consecutive runs of
/// `row_len` elements, each paired with its place in the order, and that every pair
/// is handed to the function once. What the function does to one chunk is the
/// contract of [`average_row`].
#[verifier::external_body]
fn average_rows(rgb: &[u8], width: usize, factor: usize, row_len: usize, out: &mut Vec<u8>)
    requires
        factor > 0,
        row_len > 0,
        row_len % 3 == 0,
        row_len as int / 3 * factor <= width,
        old(out)@.len() % (row_len as nat) == 0,
        old(out)@.len() / (row_len as nat) * factor * width * 3 <= rgb@.len(),
    ensures
        final(out)@.len() == old(out)@.len(),
        forall|k: int|
            0 <= k < old(out)@.len() ==> #[trigger] final(out)@[k] == block_average(
                rgb@,
                width as nat,
                factor as nat,
                (k % row_len as int / 3) as nat,
                (k / row_len as int) as nat,
                (k % row_len as int % 3) as nat,
            ),
{
    out.par_chunks_mut(row_len).enumerate().for_each(
        |(oy, row)| average_row(rgb, width, factor, oy, row),
    );
}

/// Averages `factor` by `factor` blocks of an interleaved RGB image. Rows and
/// columns that do not fill a whole block are dropped, so the result is
/// `width / factor` by `height / factor` pixels; an image narrower or lower than a
/// block leaves none.
pub fn box_downsample(rgb: &[u8], width: usize, height: usize, factor: usize) -> (r: (
    Vec<u8>,
    usize,
    usize,
))
    requires
        0 < factor,
        factor <= width ==> height as int / factor as int * factor * width * 3 <= rgb@.len(),
    ensures
        r.1 == width as int / factor as int,
        r.2 == height as int / factor as int,
        r.0@ == averaged(rgb@, width as nat, factor as nat, r.1 as nat, r.2 as nat),
{
    let len: usize = rgb.len();
    let out_w: usize = width / factor;
    let out_h: usize = height / factor;
    proof {
        vstd::arithmetic::div_mod::lemma_fundamental_div_mod(width as int, factor as int);
        vstd::arithmetic::div_mod::lemma_fundamental_div_mod(height as int, factor as int);
        assert(out_w * factor <= width) by (nonlinear_arith)
            requires
                width == factor * out_w + width % factor,
                0 <= width % factor,
        ;
    }
    if out_w == 0 || out_h == 0 {
        assert(out_w * 3 * out_h == 0) by (nonlinear_arith)
            requires
                out_w == 0 || out_h == 0,
        ;
        assert(averaged(
            rgb@,
            width as nat,
            factor as nat,
            out_w as nat,
            out_h as nat,
        ) =~= Seq::empty());
        return (Vec::new(), out_w, out_h);
    }
    proof {
        assert(factor <= width) by (nonlinear_arith)
            requires
                out_w * factor <= width,
                1 <= out_w,
                1 <= factor,
        ;
        assert(width <= out_h * factor * width && out_w * 3 * out_h <= out_h * factor * width * 3)
            by (nonlinear_arith)
            requires
                1 <= out_h,
                1 <= factor,
                0 <= out_w <= width,
        ;
        assert(out_w <= width) by (nonlinear_arith)
            requires
                out_w * factor <= width,
                1 <= factor,
        ;
    }
    let row_len: usize = out_w * 3;
    let total: usize = row_len * out_h;
    let mut out: Vec<u8> = vec![0u8; total];
    proof {
        vstd::arithmetic::div_mod::lemma_fundamental_div_mod_converse(
            total as int,
            row_len as int,
            out_h as int,
            0,
        );
    }
    average_rows(rgb, width, factor, row_len, &mut out);
    proof {
        let image = averaged(rgb@, width as nat, factor as nat, out_w as nat, out_h as nat);
        assert forall|k: int| 0 <= k < total implies #[trigger] out@[k] == image[k] by {
            vstd::arithmetic::div_mod::lemma_mod_mod(k, 3, out_w as int);
        }
        assert(out@ =~= image);
    }
    (out, out_w, out_h)
}

} // verus!
