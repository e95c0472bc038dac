//! IEEE 754 numbers by their bit patterns, and their rounding to the signed
//! rationals that TIFF stores.
//!
//! A matrix element arrives as the bit pattern of a binary32 or binary64
//! number. Its numerator over a given denominator is the number that binary64
//! arithmetic gives: the product with the denominator rounded to 53 significant
//! bits (ties to even), then to an integer (ties away from zero), then
//! saturated to 32 bits.
use vstd::arithmetic::power2::pow2;
use vstd::prelude::*;

verus! {

/// What an IEEE 754 bit pattern stands for. A finite number is
/// `mantissa * 2^exponent`, negated where `negative` is set.
#[derive(Clone, Copy, Debug, PartialEq, Eq)]
pub enum Binary {
    Finite { negative: bool, mantissa: u64, exponent: i32 },
    Infinite { negative: bool },
    NotANumber,
}

/// The number that a binary32 bit pattern stands for.
pub open spec fn binary32(bits: u32) -> Binary {
    let negative = bits >= 0x8000_0000;
    let field = bits / 0x80_0000 % 256;
    let fraction = bits % 0x80_0000;
    if field == 255 {
        if fraction == 0 {
            Binary::Infinite { negative }
        } else {
            Binary::NotANumber
        }
    } else if field == 0 {
        Binary::Finite { negative, mantissa: fraction as u64, exponent: -149i32 }
    } else {
        Binary::Finite {
            negative,
            mantissa: (fraction + 0x80_0000) as u64,
            exponent: (field - 150) as i32,
        }
    }
}

/// The number that a binary64 bit pattern stands for.
pub open spec fn binary64(bits: u64) -> Binary {
    let negative = bits >= 0x8000_0000_0000_0000;
    let field = bits / 0x10_0000_0000_0000 % 2048;
    let fraction = bits % 0x10_0000_0000_0000;
    if field == 2047 {
        if fraction == 0 {
            Binary::Infinite { negative }
        } else {
            Binary::NotANumber
        }
    } else if field == 0 {
        Binary::Finite { negative, mantissa: fraction, exponent: -1074i32 }
    } else {
        Binary::Finite {
            negative,
            mantissa: (fraction + 0x10_0000_0000_0000) as u64,
            exponent: (field - 1075) as i32,
        }
    }
}

/// How many low bits of `p` a 53-bit significand has no room for.
pub open spec fn excess_bits(p: nat) -> nat
    decreases p,
{
    if p < 0x20_0000_0000_0000 {
        0
    } else {
        1 + excess_bits(p / 2)
    }
}

/// `p / unit` rounded to the nearest integer, ties to even.
pub open spec fn nearest_even(p: nat, unit: nat) -> nat {
    let q = p / unit;
    let r = p % unit;
    if 2 * r > unit || (2 * r == unit && q % 2 == 1) {
        q + 1
    } else {
        q
    }
}

/// `p` rounded to 53 significant bits, ties to even.
pub open spec fn significand53(p: nat) -> nat {
    nearest_even(p, pow2(excess_bits(p))) * pow2(excess_bits(p))
}

/// `p * 2^e` rounded to the nearest integer, ties away from zero.
pub open spec fn half_away(p: nat, e: int) -> nat {
    if e >= 0 {
        p * pow2(e as nat)
    } else {
        (2 * p + pow2((-e) as nat)) / (2 * pow2((-e) as nat))
    }
}

/// The 32-bit integer nearest to a magnitude with a sign.
pub open spec fn saturated(negative: bool, magnitude: nat) -> i32 {
    if negative {
        if magnitude >= 0x8000_0000 {
            i32::MIN
        } else {
            (-magnitude) as i32
        }
    } else {
        if magnitude > 0x7fff_ffff {
            i32::MAX
        } else {
            magnitude as i32
        }
    }
}

/// The absolute value of a denominator.
pub open spec fn magnitude(denom: i32) -> nat {
    if denom < 0 {
        (-denom) as nat
    } else {
        denom as nat
    }
}

/// The numerator of `v` over `denom`: `v * denom` in binary64 arithmetic,
/// rounded half away from zero and saturated. Zero where the product is not a
/// number.
pub open spec fn numerator(v: Binary, denom: i32) -> i32 {
    match v {
        Binary::NotANumber => 0,
        Binary::Infinite { negative } => if denom == 0 {
            0
        } else if negative != (denom < 0) {
            i32::MIN
        } else {
            i32::MAX
        },
        Binary::Finite { negative, mantissa, exponent } => saturated(
            negative != (denom < 0),
            half_away(significand53(mantissa as nat * magnitude(denom)), exponent as int),
        ),
    }
}

/// Reads a binary32 bit pattern.
pub fn read_binary32(bits: u32) -> (r: Binary)
    ensures
        r == binary32(bits),
{
    let negative = bits >= 0x8000_0000;
    let field: u32 = bits / 0x80_0000 % 256;
    let fraction: u32 = bits % 0x80_0000;
    if field == 255 {
        if fraction == 0 {
            Binary::Infinite { negative }
        } else {
            Binary::NotANumber
        }
    } else if field == 0 {
        Binary::Finite { negative, mantissa: fraction as u64, exponent: -149 }
    } else {
        Binary::Finite {
            negative,
            mantissa: (fraction + 0x80_0000) as u64,
            exponent: field as i32 - 150,
        }
    }
}

/// Reads a binary64 bit pattern.
pub fn read_binary64(bits: u64) -> (r: Binary)
    ensures
        r == binary64(bits),
{
    let negative = bits >= 0x8000_0000_0000_0000;
    let field: u64 = bits / 0x10_0000_0000_0000 % 2048;
    let fraction: u64 = bits % 0x10_0000_0000_0000;
    if field == 2047 {
        if fraction == 0 {
            Binary::Infinite { negative }
        } else {
            Binary::NotANumber
        }
    } else if field == 0 {
        Binary::Finite { negative, mantissa: fraction, exponent: -1074 }
    } else {
        Binary::Finite {
            negative,
            mantissa: fraction + 0x10_0000_0000_0000,
            exponent: field as i32 - 1075,
        }
    }
}

/// Two to the power `e`.
fn power_of_two(e: u32) -> (r: u128)
    requires
        e <= 127,
    ensures
        r == pow2(e as nat),
{
    let mut r: u128 = 1;
    let mut i: u32 = 0;
    proof {
        vstd::arithmetic::power2::lemma2_to64();
    }
    while i < e
        invariant
            i <= e <= 127,
            r == pow2(i as nat),
            1 <= r,
        decreases e - i,
    {
        proof {
            lemma_pow2_127();
            vstd::arithmetic::power2::lemma_pow2_unfold((i + 1) as nat);
            if i + 1 < 127 {
                vstd::arithmetic::power2::lemma_pow2_strictly_increases((i + 1) as nat, 127);
            }
        }
        r = r * 2;
        i = i + 1;
    }
    r
}

proof fn lemma_pow2_127()
    ensures
        pow2(127) == 0x8000_0000_0000_0000_0000_0000_0000_0000,
{
    vstd::arithmetic::power2::lemma2_to64();
    vstd::arithmetic::power2::lemma2_to64_rest();
    vstd::arithmetic::power2::lemma_pow2_adds(64, 63);
    assert(0x1_0000_0000_0000_0000int * 0x8000_0000_0000_0000int
        == 0x8000_0000_0000_0000_0000_0000_0000_0000int);
}

/// Rounds `p` to 53 significant bits, ties to even.
fn round_significand(p: u128) -> (r: u128)
    requires
        p <= 0x8000_0000_0000_0000_0000_0000,
    ensures
        r == significand53(p as nat),
        r <= 0x1_0000_0000_0000_0000_0000_0000,
{
    let mut unit: u128 = 1;
    let mut q: u128 = p;
    let ghost mut k: nat = 0;
    proof {
        vstd::arithmetic::power2::lemma2_to64();
    }
    while q >= 0x20_0000_0000_0000
        invariant
            p <= 0x8000_0000_0000_0000_0000_0000,
            unit == pow2(k),
            unit >= 1,
            q == p as nat / pow2(k),
            excess_bits(p as nat) == k + excess_bits(q as nat),
            unit <= p || unit == 1,
        decreases q,
    {
        proof {
            vstd::arithmetic::power2::lemma_pow2_unfold(k + 1);
            vstd::arithmetic::div_mod::lemma_div_denominator(p as int, pow2(k) as int, 2);
            vstd::arithmetic::div_mod::lemma_fundamental_div_mod(p as int, unit as int);
            assert(unit * 2 <= unit * q) by (nonlinear_arith)
                requires
                    q >= 2,
                    unit >= 1,
            ;
            assert(unit * 2 == 2 * unit && unit * 2 <= p);
            k = k + 1;
        }
        unit = unit * 2;
        q = q / 2;
    }
    let rest: u128 = p % unit;
    let up = 2 * rest > unit || (2 * rest == unit && q % 2 == 1);
    let n: u128 = if up { q + 1 } else { q };
    proof {
        vstd::arithmetic::div_mod::lemma_fundamental_div_mod(p as int, unit as int);
        assert(q * unit <= p && (q + 1) * unit == q * unit + unit) by (nonlinear_arith)
            requires
                p == unit * q + rest,
                rest >= 0,
        ;
    }
    n * unit
}

/// `p * 2^e` rounded half away from zero, or some number past the 32-bit range
/// where the rounded product is past it.
fn round_half_away(p: u128, e: i32) -> (r: u128)
    requires
        p <= 0x1_0000_0000_0000_0000_0000_0000,
    ensures
        r == half_away(p as nat, e as int) || (r >= 0x8000_0000 && half_away(
            p as nat,
            e as int,
        ) >= 0x8000_0000),
{
    proof {
        vstd::arithmetic::power2::lemma2_to64();
        vstd::arithmetic::power2::lemma2_to64_rest();
    }
    if p == 0 {
        proof {
            if e < 0 {
                let unit = pow2((-e) as nat);
                vstd::arithmetic::power2::lemma_pow2_pos((-e) as nat);
                vstd::arithmetic::div_mod::lemma_basic_div(unit as int, 2 * unit as int);
            }
        }
        0
    } else if e >= 0 {
        if e >= 31 {
            proof {
                if e > 31 {
                    vstd::arithmetic::power2::lemma_pow2_strictly_increases(31, e as nat);
                }
                assert(p * pow2(e as nat) >= 0x8000_0000) by (nonlinear_arith)
                    requires
                        p >= 1,
                        pow2(e as nat) >= 0x8000_0000,
                ;
            }
            0x8000_0000
        } else {
            proof {
                vstd::arithmetic::power2::lemma_pow2_strictly_increases(e as nat, 31);
                assert(p * pow2(e as nat) <= 0x1_0000_0000_0000_0000_0000_0000 * 0x8000_0000)
                    by (nonlinear_arith)
                    requires
                        0 <= p <= 0x1_0000_0000_0000_0000_0000_0000,
                        0 <= pow2(e as nat) <= 0x8000_0000,
                ;
            }
            p * power_of_two(e as u32)
        }
    } else if e < -100 {
        proof {
            let unit = pow2((-e) as nat);
            vstd::arithmetic::power2::lemma_pow2_adds(64, 36);
            vstd::arithmetic::power2::lemma_pow2_strictly_increases(100, (-e) as nat);
            vstd::arithmetic::div_mod::lemma_basic_div(2 * p + unit, 2 * unit as int);
        }
        0
    } else {
        let unit: u128 = power_of_two((-e) as u32);
        proof {
            vstd::arithmetic::power2::lemma_pow2_pos((-e) as nat);
            vstd::arithmetic::power2::lemma_pow2_adds(64, 36);
            if e > -100 {
                vstd::arithmetic::power2::lemma_pow2_strictly_increases((-e) as nat, 100);
            }
        }
        (2 * p + unit) / (2 * unit)
    }
}

/// The numerator of `v` over `denom`.
pub fn numerator_of(v: Binary, denom: i32) -> (r: i32)
    ensures
        r == numerator(v, denom),
{
    match v {
        Binary::NotANumber => 0,
        Binary::Infinite { negative } => if denom == 0 {
            0
        } else if negative != (denom < 0) {
            i32::MIN
        } else {
            i32::MAX
        },
        Binary::Finite { negative, mantissa, exponent } => {
            let size: u128 = if denom < 0 {
                (-(denom as i64)) as u128
            } else {
                denom as u128
            };
            proof {
                assert(0 <= mantissa * size <= 0xffff_ffff_ffff_ffff * 0x8000_0000)
                    by (nonlinear_arith)
                    requires
                        0 <= mantissa <= 0xffff_ffff_ffff_ffff,
                        0 <= size <= 0x8000_0000,
                ;
            }
            let product: u128 = round_significand(mantissa as u128 * size);
            let rounded: u128 = round_half_away(product, exponent);
            let below = negative != (denom < 0);
            if below {
                if rounded >= 0x8000_0000 {
                    i32::MIN
                } else {
                    (-(rounded as i64)) as i32
                }
            } else {
                if rounded > 0x7fff_ffff {
                    i32::MAX
                } else {
                    rounded as i32
                }
            }
        },
    }
}

/// The signed rational of a binary64 number: the nearest multiple of
/// `1 / denom`, with its numerator saturated to 32 bits.
pub fn srational_pair(v: u64, denom: i32) -> (r: (i32, i32))
    ensures
        r == (numerator(binary64(v), denom), denom),
{
    (numerator_of(read_binary64(v), denom), denom)
}

/// Whether two bit patterns, of either width, stand for the same number.
pub open spec fn same_number(a: Binary, b: Binary) -> bool {
    match (a, b) {
        (Binary::NotANumber, Binary::NotANumber) => true,
        (Binary::Infinite { negative: x }, Binary::Infinite { negative: y }) => x == y,
        (
            Binary::Finite { negative: x, mantissa: m, exponent: e },
            Binary::Finite { negative: y, mantissa: n, exponent: f },
        ) => x == y && if e >= f {
            m * pow2((e - f) as nat) == n
        } else {
            n * pow2((f - e) as nat) == m
        },
        _ => false,
    }
}

/// The numerator depends on the number alone: widening a binary32 number to
/// binary64 before the conversion changes nothing.
pub proof fn law_numerator_ignores_width(a: Binary, b: Binary, denom: i32)
    requires
        same_number(a, b),
    ensures
        numerator(a, denom) == numerator(b, denom),
{
    match (a, b) {
        (
            Binary::Finite { negative: x, mantissa: m, exponent: e },
            Binary::Finite { negative: y, mantissa: n, exponent: f },
        ) => {
            let d = magnitude(denom);
            if e >= f {
                let j = (e - f) as nat;
                lemma_rescaled(m as nat * d, e as int, j);
                assert(m as nat * d * pow2(j) == n as nat * d) by (nonlinear_arith)
                    requires
                        m * pow2(j) == n,
                ;
            } else {
                let j = (f - e) as nat;
                lemma_rescaled(n as nat * d, f as int, j);
                assert(n as nat * d * pow2(j) == m as nat * d) by (nonlinear_arith)
                    requires
                        n * pow2(j) == m,
                ;
            }
        },
        _ => {},
    }
}

proof fn lemma_rescaled(p: nat, e: int, j: nat)
    ensures
        half_away(significand53(p * pow2(j)), e - j) == half_away(significand53(p), e),
    decreases j,
{
    vstd::arithmetic::power2::lemma2_to64();
    if j > 0 {
        let i = (j - 1) as nat;
        lemma_rescaled(p, e, i);
        vstd::arithmetic::power2::lemma_pow2_unfold(j);
        assert(p * pow2(j) == 2 * (p * pow2(i))) by (nonlinear_arith)
            requires
                pow2(j) == 2 * pow2(i),
        ;
        lemma_significand_doubles(p * pow2(i));
        lemma_half_away_doubles(significand53(p * pow2(i)), e - i);
    } else {
        assert(p * pow2(0) == p);
    }
}

proof fn lemma_significand_doubles(p: nat)
    ensures
        significand53(2 * p) == 2 * significand53(p),
{
    vstd::arithmetic::power2::lemma2_to64();
    let k = excess_bits(p);
    if p >= 0x10_0000_0000_0000 {
        assert((2 * p) / 2 == p);
        assert(excess_bits(2 * p) == k + 1);
        vstd::arithmetic::power2::lemma_pow2_unfold(k + 1);
        vstd::arithmetic::power2::lemma_pow2_pos(k);
        let unit = pow2(k);
        assert((2 * p) / (2 * unit) == p / unit && (2 * p) % (2 * unit) == 2 * (p % unit)) by {
            let (q, r) = (p as int / unit as int, p as int % unit as int);
            vstd::arithmetic::div_mod::lemma_fundamental_div_mod(p as int, unit as int);
            assert(2 * p == q * (2 * unit) + 2 * r) by (nonlinear_arith)
                requires
                    p == unit * q + r,
            ;
            vstd::arithmetic::div_mod::lemma_fundamental_div_mod_converse(
                2 * p as int,
                2 * unit as int,
                q,
                2 * r,
            );
        }
        let n = nearest_even(p, unit);
        assert(n * (2 * unit) == 2 * (n * unit)) by (nonlinear_arith);
    } else {
        assert(excess_bits(2 * p) == 0 && k == 0);
    }
}

proof fn lemma_half_away_doubles(p: nat, e: int)
    ensures
        half_away(2 * p, e - 1) == half_away(p, e),
{
    vstd::arithmetic::power2::lemma2_to64();
    if e >= 1 {
        vstd::arithmetic::power2::lemma_pow2_unfold(e as nat);
        let unit = pow2((e - 1) as nat);
        assert(2 * p * unit == p * (2 * unit)) by (nonlinear_arith);
    } else if e == 0 {
        assert(p * pow2(0) == p);
        assert((2 * (2 * p) + 2) / 4 == p as int);
    } else {
        let t = (-e) as nat;
        vstd::arithmetic::power2::lemma_pow2_unfold(t + 1);
        vstd::arithmetic::power2::lemma_pow2_pos(t);
        let unit = pow2(t);
        vstd::arithmetic::div_mod::lemma_div_denominator(
            (2 * (2 * p + unit)) as int,
            2,
            2 * unit as int,
        );
    }
}

/// Turning the sign of a finite number turns the sign of its numerator,
/// wherever the numerator has room for both signs.
pub proof fn law_numerator_keeps_sign(mantissa: u64, exponent: i32, denom: i32)
    requires
        numerator(Binary::Finite { negative: false, mantissa, exponent }, denom) > i32::MIN,
        numerator(Binary::Finite { negative: true, mantissa, exponent }, denom) > i32::MIN,
    ensures
        numerator(Binary::Finite { negative: true, mantissa, exponent }, denom) == -numerator(
            Binary::Finite { negative: false, mantissa, exponent },
            denom,
        ),
{
}

/// A finite binary32 number is stored to the nearest step of its denominator:
/// the stored value is off by at most half of `1 / denom`.
pub proof fn law_numerator_is_nearest(bits: u32, denom: i32)
    requires
        1 <= denom <= 0x2000_0000,
        binary32(bits) matches Binary::Finite { negative, mantissa, exponent } && half_away(
            (mantissa * denom) as nat,
            exponent as int,
        ) <= (if negative {
            0x8000_0000nat
        } else {
            0x7fff_ffff
        }),
    ensures
        binary32(bits) matches Binary::Finite { negative, mantissa, exponent } ==> {
            let stored = numerator(binary32(bits), denom);
            let size = if negative {
                -stored
            } else {
                stored as int
            };
            let exact = mantissa * denom;
            if exponent >= 0 {
                size == exact * pow2(exponent as nat)
            } else {
                let unit = pow2((-exponent) as nat) as int;
                -unit <= 2 * (size * unit - exact) <= unit
            }
        },
{
    vstd::arithmetic::power2::lemma2_to64();
    if let Binary::Finite { negative, mantissa, exponent } = binary32(bits) {
        let p = (mantissa * denom) as nat;
        assert(0 <= mantissa * denom <= 0xff_ffff * 0x2000_0000) by (nonlinear_arith)
            requires
                0 <= mantissa <= 0xff_ffff,
                0 <= denom <= 0x2000_0000,
        ;
        assert(excess_bits(p) == 0);
        assert(significand53(p) == p);
        if exponent < 0 {
            let unit = pow2((-exponent) as nat) as int;
            vstd::arithmetic::power2::lemma_pow2_pos((-exponent) as nat);
            let size = (2 * p + unit) / (2 * unit);
            vstd::arithmetic::div_mod::lemma_fundamental_div_mod(2 * p + unit, 2 * unit);
            assert(2 * unit * size == 2 * (size * unit)) by (nonlinear_arith);
        }
    }
}

/// A magnitude with a sign.
pub open spec fn signed(negative: bool, magnitude: nat) -> int {
    if negative {
        -magnitude
    } else {
        magnitude as int
    }
}

/// Whether both are numbers, and the first is at most the second.
pub open spec fn at_most(a: Binary, b: Binary) -> bool {
    match (a, b) {
        (Binary::NotANumber, _) => false,
        (_, Binary::NotANumber) => false,
        (Binary::Infinite { negative: x }, Binary::Infinite { negative: y }) => x || !y,
        (Binary::Infinite { negative: x }, _) => x,
        (_, Binary::Infinite { negative: y }) => !y,
        (
            Binary::Finite { negative: x, mantissa: m, exponent: e },
            Binary::Finite { negative: y, mantissa: n, exponent: f },
        ) => {
            // Both as multiples of the smaller of the two powers of two.
            let low = if e <= f {
                e
            } else {
                f
            };
            signed(x, m as nat * pow2((e - low) as nat)) <= signed(
                y,
                n as nat * pow2((f - low) as nat),
            )
        },
    }
}

/// The conversion keeps the order of numbers over a positive denominator, and
/// turns it round over a negative one.
pub proof fn law_numerator_keeps_order(a: Binary, b: Binary, denom: i32)
    requires
        at_most(a, b),
    ensures
        denom >= 0 ==> numerator(a, denom) <= numerator(b, denom),
        denom <= 0 ==> numerator(b, denom) <= numerator(a, denom),
{
    match (a, b) {
        (
            Binary::Finite { negative: x, mantissa: m, exponent: e },
            Binary::Finite { negative: y, mantissa: n, exponent: f },
        ) => {
            let low = if e <= f {
                e
            } else {
                f
            };
            let d = magnitude(denom);
            let (i, j) = ((e - low) as nat, (f - low) as nat);
            let p = m as nat * pow2(i);
            let q = n as nat * pow2(j);
            lemma_rescaled(m as nat * d, e as int, i);
            lemma_rescaled(n as nat * d, f as int, j);
            assert(m as nat * d * pow2(i) == p * d && n as nat * d * pow2(j) == q * d)
                by (nonlinear_arith)
                requires
                    p == m as nat * pow2(i),
                    q == n as nat * pow2(j),
            ;
            if p <= q {
                vstd::arithmetic::mul::lemma_mul_inequality(p as int, q as int, d as int);
                lemma_rounding_keeps_order(p * d, q * d, low as int);
            }
            if q <= p {
                vstd::arithmetic::mul::lemma_mul_inequality(q as int, p as int, d as int);
                lemma_rounding_keeps_order(q * d, p * d, low as int);
            }
            if x != y && p == q {
                lemma_rounding_keeps_zero(low as int);
                assert(0 * d == 0);
            }
            if d == 0 {
                lemma_rounding_keeps_zero(low as int);
                assert(p * 0 == 0 && q * 0 == 0);
            }
        },
        _ => {
            vstd::arithmetic::power2::lemma2_to64();
            if denom == 0 {
                if let Binary::Finite { mantissa: m, exponent: e, .. } = a {
                    lemma_rounding_keeps_zero(e as int);
                    assert(m as nat * 0 == 0);
                }
                if let Binary::Finite { mantissa: n, exponent: f, .. } = b {
                    lemma_rounding_keeps_zero(f as int);
                    assert(n as nat * 0 == 0);
                }
            }
        },
    }
}

proof fn lemma_rounding_keeps_zero(e: int)
    ensures
        half_away(significand53(0), e) == 0,
{
    vstd::arithmetic::power2::lemma2_to64();
    assert(excess_bits(0) == 0 && nearest_even(0, 1) == 0);
    if e < 0 {
        let unit = pow2((-e) as nat) as int;
        vstd::arithmetic::power2::lemma_pow2_pos((-e) as nat);
        vstd::arithmetic::div_mod::lemma_basic_div(unit, 2 * unit);
    }
}

proof fn lemma_rounding_keeps_order(p: nat, q: nat, e: int)
    requires
        p <= q,
    ensures
        half_away(significand53(p), e) <= half_away(significand53(q), e),
{
    lemma_significand_keeps_order(p, q);
    let (x, y) = (significand53(p) as int, significand53(q) as int);
    if e >= 0 {
        vstd::arithmetic::mul::lemma_mul_inequality(x, y, pow2(e as nat) as int);
    } else {
        let unit = pow2((-e) as nat) as int;
        vstd::arithmetic::power2::lemma_pow2_pos((-e) as nat);
        vstd::arithmetic::div_mod::lemma_div_is_ordered(2 * x + unit, 2 * y + unit, 2 * unit);
    }
}

proof fn lemma_excess_bits(p: nat)
    ensures
        p < 0x20_0000_0000_0000 * pow2(excess_bits(p)),
        excess_bits(p) > 0 ==> 0x10_0000_0000_0000 * pow2(excess_bits(p)) <= p,
    decreases p,
{
    vstd::arithmetic::power2::lemma2_to64();
    if p >= 0x20_0000_0000_0000 {
        lemma_excess_bits(p / 2);
        vstd::arithmetic::power2::lemma_pow2_unfold(excess_bits(p));
    }
}

proof fn lemma_significand_keeps_order(p: nat, q: nat)
    requires
        p <= q,
    ensures
        significand53(p) <= significand53(q),
{
    let (i, j) = (excess_bits(p), excess_bits(q));
    let (u, w) = (pow2(i), pow2(j));
    lemma_excess_bits(p);
    lemma_excess_bits(q);
    vstd::arithmetic::power2::lemma_pow2_pos(i);
    vstd::arithmetic::power2::lemma_pow2_pos(j);
    if i == j {
        lemma_nearest_keeps_order(p, q, u);
        vstd::arithmetic::mul::lemma_mul_inequality(
            nearest_even(p, u) as int,
            nearest_even(q, u) as int,
            u as int,
        );
    } else if i < j {
        lemma_double(i, j);
        // `p` rounds to at most `2^53 * u`, and `q` to at least `2^52 * w`.
        assert(p / u < 0x20_0000_0000_0000) by (nonlinear_arith)
            requires
                p < 0x20_0000_0000_0000 * u,
                u > 0,
        ;
        assert(q / w >= 0x10_0000_0000_0000) by (nonlinear_arith)
            requires
                0x10_0000_0000_0000 * w <= q,
                w > 0,
        ;
        vstd::arithmetic::mul::lemma_mul_inequality(
            nearest_even(p, u) as int,
            0x20_0000_0000_0000,
            u as int,
        );
        vstd::arithmetic::mul::lemma_mul_inequality(
            0x10_0000_0000_0000,
            nearest_even(q, w) as int,
            w as int,
        );
    } else {
        lemma_double(j, i);
    }
}

proof fn lemma_double(i: nat, j: nat)
    requires
        i < j,
    ensures
        2 * pow2(i) <= pow2(j),
{
    vstd::arithmetic::power2::lemma_pow2_unfold(i + 1);
    if i + 1 < j {
        vstd::arithmetic::power2::lemma_pow2_strictly_increases(i + 1, j);
    }
}

proof fn lemma_nearest_keeps_order(p: nat, q: nat, unit: nat)
    requires
        p <= q,
        unit > 0,
    ensures
        nearest_even(p, unit) <= nearest_even(q, unit),
{
    vstd::arithmetic::div_mod::lemma_div_is_ordered(p as int, q as int, unit as int);
    vstd::arithmetic::div_mod::lemma_fundamental_div_mod(p as int, unit as int);
    vstd::arithmetic::div_mod::lemma_fundamental_div_mod(q as int, unit as int);
    assert(p / unit == q / unit ==> p % unit <= q % unit);
}

} // verus!
