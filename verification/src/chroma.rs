//! White points and the forward matrices of a profile, in exact integers.
//!
//! A forward matrix takes white-balanced camera values to XYZ under D50, so it must
//! take the unit input `(1, 1, 1)` to the D50 white point. Readers that use the
//! matrix as it stands render a color cast otherwise.
use crate::camera::GRAYSCALE_MIX_UNIT;
use vstd::prelude::*;

verus! {

/// White points are in units of `1 / WHITE_UNIT`.
pub const WHITE_UNIT: i32 = 100_000;

/// The adaptation matrix is in units of `1 / ADAPTATION_UNIT`.
pub const ADAPTATION_UNIT: i32 = 10_000_000;

/// CIE D50 in XYZ: the reference white of the profile connection space.
pub open spec fn d50_white() -> Seq<i32> {
    seq![96_422, 100_000, 82_521]
}

/// CIE D65 in XYZ.
pub open spec fn d65_white() -> Seq<i32> {
    seq![95_047, 100_000, 108_883]
}

/// CIE Standard Illuminant A in XYZ.
pub open spec fn std_a_white() -> Seq<i32> {
    seq![109_850, 100_000, 35_585]
}

/// The Bradford adaptation from D65 to D50, row by row.
pub open spec fn d65_to_d50() -> Seq<i32> {
    seq![
        10_478_112,
        228_866,
        -501_270i32,
        295_424,
        9_904_844,
        -170_491i32,
        -92_345i32,
        150_436,
        7_521_316,
    ]
}

pub fn d50_xyz() -> (r: [i32; 3])
    ensures
        r@ == d50_white(),
{
    let r: [i32; 3] = [96_422, 100_000, 82_521];
    assert(r@ =~= d50_white());
    r
}

pub fn d65_xyz() -> (r: [i32; 3])
    ensures
        r@ == d65_white(),
{
    let r: [i32; 3] = [95_047, 100_000, 108_883];
    assert(r@ =~= d65_white());
    r
}

pub fn std_a_xyz() -> (r: [i32; 3])
    ensures
        r@ == std_a_white(),
{
    let r: [i32; 3] = [109_850, 100_000, 35_585];
    assert(r@ =~= std_a_white());
    r
}

pub fn bradford_d65_to_d50() -> (r: [i32; 9])
    ensures
        r@ == d65_to_d50(),
{
    let r: [i32; 9] = [
        10_478_112,
        228_866,
        -501_270,
        295_424,
        9_904_844,
        -170_491,
        -92_345,
        150_436,
        7_521_316,
    ];
    assert(r@ =~= d65_to_d50());
    r
}

/// Element `i` of the product of two 3 by 3 matrices, both row by row.
pub open spec fn product_at(a: Seq<i32>, b: Seq<i32>, i: int) -> int {
    let (row, col) = (i / 3 * 3, i % 3);
    a[row] * b[col] + a[row + 1] * b[3 + col] + a[row + 2] * b[6 + col]
}

fn times(x: i32, y: i32) -> (r: i64)
    ensures
        r == x * y,
{
    assert(-0x4000_0000_0000_0000 <= x * y <= 0x4000_0000_0000_0000) by (nonlinear_arith)
        requires
            -0x8000_0000 <= x <= 0x7fff_ffff,
            -0x8000_0000 <= y <= 0x7fff_ffff,
    ;
    x as i64 * y as i64
}

fn dot(a: &[i32; 9], b: &[i32; 9], i: usize) -> (r: i128)
    requires
        i < 9,
    ensures
        r == product_at(a@, b@, i as int),
{
    let row: usize = i / 3 * 3;
    let col: usize = i % 3;
    let x = times(a[row], b[col]);
    let y = times(a[row + 1], b[3 + col]);
    let z = times(a[row + 2], b[6 + col]);
    x as i128 + y as i128 + z as i128
}

/// The product of two 3 by 3 matrices, row by row.
pub fn mat3_mul(a: &[i32; 9], b: &[i32; 9]) -> (r: [i128; 9])
    ensures
        forall|i: int| 0 <= i < 9 ==> #[trigger] r[i] == product_at(a@, b@, i),
{
    [
        dot(a, b, 0),
        dot(a, b, 1),
        dot(a, b, 2),
        dot(a, b, 3),
        dot(a, b, 4),
        dot(a, b, 5),
        dot(a, b, 6),
        dot(a, b, 7),
        dot(a, b, 8),
    ]
}

/// Element `i` of the forward matrix of a gray profile: every row holds the weights
/// of the mix, scaled to one coordinate of D50. In units of
/// `1 / (WHITE_UNIT * GRAYSCALE_MIX_UNIT)`.
pub open spec fn gray_forward_at(mix: Seq<i32>, i: int) -> int {
    d50_white()[i / 3] * mix[i % 3]
}

/// The forward matrix of a gray profile, row by row.
pub fn gray_forward_matrix(mix: &[i32; 3]) -> (r: [i64; 9])
    ensures
        forall|i: int| 0 <= i < 9 ==> #[trigger] r[i] == gray_forward_at(mix@, i),
{
    let white = d50_xyz();
    [
        times(white[0], mix[0]),
        times(white[0], mix[1]),
        times(white[0], mix[2]),
        times(white[1], mix[0]),
        times(white[1], mix[1]),
        times(white[1], mix[2]),
        times(white[2], mix[0]),
        times(white[2], mix[1]),
        times(white[2], mix[2]),
    ]
}

/// Where a matrix takes the unit input to D65, the forward matrix that is made from
/// it by adaptation takes the unit input to D50, to within a thousandth. The matrix
/// is in units of `1 / (WHITE_UNIT * scale)`.
pub proof fn law_forward_matrix_takes_unit_to_d50(bmt: Seq<i32>, scale: int, row: int)
    requires
        bmt.len() == 9,
        scale > 0,
        0 <= row < 3,
        bmt[0] + bmt[1] + bmt[2] == d65_white()[0] * scale,
        bmt[3] + bmt[4] + bmt[5] == d65_white()[1] * scale,
        bmt[6] + bmt[7] + bmt[8] == d65_white()[2] * scale,
    ensures
        ({
            let unit = product_at(d65_to_d50(), bmt, 3 * row) + product_at(
                d65_to_d50(),
                bmt,
                3 * row + 1,
            ) + product_at(d65_to_d50(), bmt, 3 * row + 2);
            let white = d50_white()[row] * ADAPTATION_UNIT * scale;
            let thousandth = WHITE_UNIT * ADAPTATION_UNIT * scale;
            -thousandth < 1000 * (unit - white) < thousandth
        }),
{
    let a = d65_to_d50();
    let (p, q, s) = (a[3 * row] as int, a[3 * row + 1] as int, a[3 * row + 2] as int);
    let (x, y, z) = (
        bmt[0] + bmt[1] + bmt[2],
        bmt[3] + bmt[4] + bmt[5],
        bmt[6] + bmt[7] + bmt[8],
    );
    lemma_times_sum(p, bmt[0] as int, bmt[1] as int, bmt[2] as int);
    lemma_times_sum(q, bmt[3] as int, bmt[4] as int, bmt[5] as int);
    lemma_times_sum(s, bmt[6] as int, bmt[7] as int, bmt[8] as int);
    assert(p * x + q * y + s * z == (p * 95_047 + q * 100_000 + s * 108_883) * scale)
        by (nonlinear_arith)
        requires
            x == 95_047 * scale,
            y == 100_000 * scale,
            z == 108_883 * scale,
    ;
    let thousandth = WHITE_UNIT * ADAPTATION_UNIT * scale;
    assert(thousandth == 1_000_000_000_000 * scale);
    if row == 0 {
        assert(p == 10_478_112 && q == 228_866 && s == -501_270);
        assert(p * 95_047 + q * 100_000 + s * 108_883 == 964_219_929_854);
        assert(d50_white()[row] * ADAPTATION_UNIT * scale == 964_220_000_000 * scale);
    } else if row == 1 {
        assert(p == 295_424 && q == 9_904_844 && s == -170_491);
        assert(p * 95_047 + q * 100_000 + s * 108_883 == 999_999_993_375);
        assert(d50_white()[row] * ADAPTATION_UNIT * scale == 1_000_000_000_000 * scale);
    } else {
        assert(p == -92_345 && q == 150_436 && s == 7_521_316);
        assert(p * 95_047 + q * 100_000 + s * 108_883 == 825_209_934_813);
        assert(d50_white()[row] * ADAPTATION_UNIT * scale == 825_210_000_000 * scale);
    }
}

/// The forward matrix of a gray profile whose weights add up to the whole takes the
/// unit input to D50 exactly.
pub proof fn law_gray_forward_matrix_takes_unit_to_d50(mix: Seq<i32>, row: int)
    requires
        mix.len() == 3,
        0 <= row < 3,
        mix[0] + mix[1] + mix[2] == GRAYSCALE_MIX_UNIT,
    ensures
        gray_forward_at(mix, 3 * row) + gray_forward_at(mix, 3 * row + 1) + gray_forward_at(
            mix,
            3 * row + 2,
        ) == d50_white()[row] * GRAYSCALE_MIX_UNIT,
{
    let white = d50_white()[row];
    assert(white * mix[0] + white * mix[1] + white * mix[2] == white * (mix[0] + mix[1] + mix[2]))
        by (nonlinear_arith);
}

/// The forward matrix of a gray profile takes every color to a gray one: to the D50 white
/// point, times the color's channels by the weights of the mix.
pub proof fn law_gray_forward_matrix_takes_colors_to_gray(
    mix: Seq<i32>,
    row: int,
    red: int,
    green: int,
    blue: int,
)
    requires
        mix.len() == 3,
        0 <= row < 3,
    ensures
        gray_forward_at(mix, 3 * row) * red + gray_forward_at(mix, 3 * row + 1) * green
            + gray_forward_at(mix, 3 * row + 2) * blue == seq![96_422int, 100_000, 82_521][row] * (
        mix[0] * red + mix[1] * green + mix[2] * blue),
{
    let white = d50_white()[row] as int;
    assert(white == seq![96_422int, 100_000, 82_521][row]);
    let (x, y, z) = (mix[0] as int, mix[1] as int, mix[2] as int);
    lemma_row(white, (x, y, z), (red, green, blue));
    vstd::arithmetic::mul::lemma_mul_is_associative(white, x, red);
    vstd::arithmetic::mul::lemma_mul_is_associative(white, y, green);
    vstd::arithmetic::mul::lemma_mul_is_associative(white, z, blue);
}

/// The product of two matrices takes a vector where the second and then the first would
/// take it.
pub proof fn law_product_composes(a: Seq<i32>, b: Seq<i32>, row: int, x: int, y: int, z: int)
    requires
        a.len() == 9,
        b.len() == 9,
        0 <= row < 3,
    ensures
        product_at(a, b, 3 * row) * x + product_at(a, b, 3 * row + 1) * y + product_at(
            a,
            b,
            3 * row + 2,
        ) * z == a[3 * row] * (b[0] * x + b[1] * y + b[2] * z) + a[3 * row + 1] * (b[3] * x + b[4]
            * y + b[5] * z) + a[3 * row + 2] * (b[6] * x + b[7] * y + b[8] * z),
{
    lemma_composes(
        a[3 * row] as int,
        a[3 * row + 1] as int,
        a[3 * row + 2] as int,
        (b[0] as int, b[1] as int, b[2] as int),
        (b[3] as int, b[4] as int, b[5] as int),
        (b[6] as int, b[7] as int, b[8] as int),
        (x, y, z),
    );
}

proof fn lemma_composes(
    p: int,
    q: int,
    r: int,
    b: (int, int, int),
    c: (int, int, int),
    d: (int, int, int),
    v: (int, int, int),
)
    ensures
        (p * b.0 + q * c.0 + r * d.0) * v.0 + (p * b.1 + q * c.1 + r * d.1) * v.1 + (p * b.2 + q
            * c.2 + r * d.2) * v.2 == p * (b.0 * v.0 + b.1 * v.1 + b.2 * v.2) + q * (c.0 * v.0
            + c.1 * v.1 + c.2 * v.2) + r * (d.0 * v.0 + d.1 * v.1 + d.2 * v.2),
{
    lemma_column(p, q, r, b.0, c.0, d.0, v.0);
    lemma_column(p, q, r, b.1, c.1, d.1, v.1);
    lemma_column(p, q, r, b.2, c.2, d.2, v.2);
    lemma_row(p, b, v);
    lemma_row(q, c, v);
    lemma_row(r, d, v);
}

proof fn lemma_column(p: int, q: int, r: int, b: int, c: int, d: int, v: int)
    ensures
        (p * b + q * c + r * d) * v == p * (b * v) + q * (c * v) + r * (d * v),
{
    let (x, y, z) = (p * b, q * c, r * d);
    assert((x + y + z) * v == x * v + y * v + z * v) by (nonlinear_arith);
    vstd::arithmetic::mul::lemma_mul_is_associative(p, b, v);
    vstd::arithmetic::mul::lemma_mul_is_associative(q, c, v);
    vstd::arithmetic::mul::lemma_mul_is_associative(r, d, v);
}

proof fn lemma_row(p: int, b: (int, int, int), v: (int, int, int))
    ensures
        p * (b.0 * v.0 + b.1 * v.1 + b.2 * v.2) == p * (b.0 * v.0) + p * (b.1 * v.1) + p * (b.2
            * v.2),
{
    lemma_times_sum(p, b.0 * v.0, b.1 * v.1, b.2 * v.2);
}

proof fn lemma_times_sum(p: int, x: int, y: int, z: int)
    ensures
        p * (x + y + z) == p * x + p * y + p * z,
{
    assert(p * (x + y + z) == p * x + p * y + p * z) by (nonlinear_arith);
}

/// Whether a white point has a luminance of one and, to within a ten-thousandth, the
/// chromaticities `x` and `y` in units of `1 / 100000`.
pub open spec fn has_chromaticity(white: Seq<i32>, x: int, y: int) -> bool {
    let sum = white[0] + white[1] + white[2];
    &&& white[1] == 100_000
    &&& -10 * sum < 100_000 * white[0] - x * sum < 10 * sum
    &&& -10 * sum < 100_000 * white[1] - y * sum < 10 * sum
}

/// The white points have the chromaticities that the CIE gives the illuminants.
pub proof fn law_white_points_have_their_chromaticities()
    ensures
        has_chromaticity(std_a_white(), 44_757, 40_745),
        has_chromaticity(d65_white(), 31_271, 32_902),
        has_chromaticity(d50_white(), 34_567, 35_850),
{
}

/// The Bradford matrix, from XYZ to the responses of sharpened cones, in units of
/// `1 / 10000`, row by row.
pub open spec fn bradford() -> Seq<int> {
    seq![8951, 2664, -1614int, -7502int, 17135, 367, 389, -685int, 10296]
}

/// The response of one cone to a color.
pub open spec fn cone(i: int, x: int, y: int, z: int) -> int {
    bradford()[3 * i] * x + bradford()[3 * i + 1] * y + bradford()[3 * i + 2] * z
}

/// The adaptation scales the response of each cone by the ratio of its responses to the two
/// white points, to within a ten-millionth.
pub proof fn law_adaptation_scales_the_cones(i: int, j: int)
    requires
        0 <= i < 3,
        0 <= j < 3,
    ensures
        ({
            let a = d65_to_d50();
            let from = cone(i, 95_047, 100_000, 108_883);
            let to = cone(i, 96_422, 100_000, 82_521);
            let adapted = cone(i, a[j] as int, a[3 + j] as int, a[6 + j] as int);
            -10_000 * from < adapted * from - to * bradford()[3 * i + j] * 10_000_000 < 10_000
                * from
        }),
{
    let a = d65_to_d50();
    let from = cone(i, 95_047, 100_000, 108_883);
    let to = cone(i, 96_422, 100_000, 82_521);
    let adapted = cone(i, a[j] as int, a[3 + j] as int, a[6 + j] as int);
    if i == 0 {
        assert(from == 941428535 && to == 996284428);
        if j == 0 {
            assert(adapted == 94725634878 && bradford()[3 * i + j] == 8951);
        } else if j == 1 {
            assert(adapted == 28192280278 && bradford()[3 * i + j] == 2664);
        } else {
            assert(adapted == -17080459818 && bradford()[3 * i + j] == -1614);
        }
    } else if i == 1 {
        assert(from == 1040417467 && to == 1020427363);
        if j == 0 {
            assert(adapted == -73578596599 && bradford()[3 * i + j] == -7502);
        } else if j == 1 {
            assert(adapted == 168057759220 && bradford()[3 * i + j] == 17135);
        } else {
            assert(adapted == 3599487227 && bradford()[3 * i + j] == 367);
        }
    } else {
        assert(from == 1089532651 && to == 818644374);
        if j == 0 {
            assert(adapted == 2922836008 && bradford()[3 * i + j] == 389);
        } else if j == 1 {
            assert(adapted == -5146900210 && bradford()[3 * i + j] == -685);
        } else {
            assert(adapted == 77361261841 && bradford()[3 * i + j] == 10296);
        }
    }
}

} // verus!
