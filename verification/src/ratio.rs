//! Exact fractions, the kind of number for which encoding at a scale is plain integer division.
use crate::fixedpoint::{Quantize, Real};
use vstd::prelude::*;

verus! {

/// The fraction `num / den`. A zero denominator stands for infinity of the numerator's sign, or
/// for no number where the numerator is zero too.
#[derive(Debug, Clone, Copy, PartialEq, Eq)]
pub struct Ratio {
    pub num: i128,
    pub den: u128,
}

/// Division that rounds toward zero.
pub open spec fn truncated(n: int, d: int) -> int {
    if n >= 0 {
        n / d
    } else {
        -((-n) / d)
    }
}

/// The nearest integer between two bounds.
pub open spec fn saturated(n: int, least: int, most: int) -> int {
    if n > most {
        most
    } else if n < least {
        least
    } else {
        n
    }
}

/// The absolute value.
pub open spec fn magnitude(n: int) -> int {
    if n >= 0 {
        n
    } else {
        -n
    }
}

impl Ratio {
    /// The integer part of the fraction times the scale, saturated; infinity saturates, and what
    /// is no number counts as zero.
    pub open spec fn scaled(self, scale: int, least: int, most: int) -> int {
        if self.den != 0 {
            saturated(truncated(self.num * scale, self.den as int), least, most)
        } else if scale == 0 || self.num == 0 {
            0
        } else if self.num > 0 {
            most
        } else {
            least
        }
    }

    /// The integer part of the fraction times the scale, within the range of `i128`.
    fn scale_up(&self, scale: u128) -> (v: i128)
        ensures
            v == self.scaled(scale as int, i128::MIN as int, i128::MAX as int),
    {
        if self.den == 0 {
            return if scale == 0 || self.num == 0 {
                0
            } else if self.num > 0 {
                i128::MAX
            } else {
                i128::MIN
            };
        }
        let size: u128 = if self.num == i128::MIN {
            0x8000_0000_0000_0000_0000_0000_0000_0000
        } else if self.num < 0 {
            (-self.num) as u128
        } else {
            self.num as u128
        };
        let ghost n = self.num as int;
        let ghost s = scale as int;
        let ghost d = self.den as int;
        let product = divide_product(size, scale, self.den);
        proof {
            assert((-n) * s == -(n * s)) by (nonlinear_arith);
            assert(n >= 0 ==> n * s >= 0) by (nonlinear_arith)
                requires
                    s >= 0,
            ;
            assert(n <= 0 ==> n * s <= 0) by (nonlinear_arith)
                requires
                    s >= 0,
            ;
            lemma_quotient(size * s, d, product);
        }
        match product {
            Some((quotient, _)) => {
                if self.num < 0 {
                    if quotient >= 0x8000_0000_0000_0000_0000_0000_0000_0000 {
                        i128::MIN
                    } else {
                        -(quotient as i128)
                    }
                } else {
                    if quotient >= 0x8000_0000_0000_0000_0000_0000_0000_0000 {
                        i128::MAX
                    } else {
                        quotient as i128
                    }
                }
            },
            None => {
                if self.num < 0 {
                    i128::MIN
                } else {
                    i128::MAX
                }
            },
        }
    }
}

/// Whether `r` is the quotient and the remainder of `n` over `d`, or the quotient exceeds `u128`.
pub open spec fn is_division(n: int, d: int, r: Option<(u128, u128)>) -> bool {
    match r {
        Some((quotient, rest)) => n == quotient * d + rest && rest < d,
        None => n >= (u128::MAX + 1) * d,
    }
}

proof fn lemma_quotient(n: int, d: int, r: Option<(u128, u128)>)
    requires
        0 <= n,
        0 < d,
        is_division(n, d, r),
    ensures
        match r {
            Some((quotient, _)) => n / d == quotient,
            None => n / d > u128::MAX,
        },
{
    match r {
        Some((quotient, rest)) => {
            vstd::arithmetic::div_mod::lemma_fundamental_div_mod_converse(
                n,
                d,
                quotient as int,
                rest as int,
            );
        },
        None => {
            let bound = u128::MAX + 1;
            vstd::arithmetic::div_mod::lemma_div_is_ordered(bound * d, n, d);
            vstd::arithmetic::div_mod::lemma_div_multiples_vanish(bound, d);
            assert(d * bound == bound * d) by (nonlinear_arith);
        },
    }
}

/// The sum of two numbers that are given by their quotients and remainders over `d`.
fn add_divided(a: (u128, u128), b: (u128, u128), d: u128) -> (r: Option<(u128, u128)>)
    requires
        a.1 < d,
        b.1 < d,
    ensures
        is_division((a.0 * d + a.1) + (b.0 * d + b.1), d as int, r),
{
    let ghost n = (a.0 * d + a.1) + (b.0 * d + b.1);
    let ghost dd = d as int;
    let ghost q = a.0 + b.0;
    assert(n == q * dd + a.1 + b.1) by (nonlinear_arith)
        requires
            n == (a.0 * dd + a.1) + (b.0 * dd + b.1),
            q == a.0 + b.0,
    ;
    assert((q + 1) * dd == q * dd + dd) by (nonlinear_arith);
    let carries = a.1 >= d - b.1;
    let rest: u128 = if carries {
        a.1 - (d - b.1)
    } else {
        a.1 + b.1
    };
    let sum: u128 = match a.0.checked_add(b.0) {
        Some(sum) => sum,
        None => {
            assert(q * dd >= (u128::MAX + 1) * dd) by (nonlinear_arith)
                requires
                    q >= u128::MAX + 1,
                    dd >= 0,
            ;
            return None;
        },
    };
    if !carries {
        return Some((sum, rest));
    }
    match sum.checked_add(1) {
        Some(quotient) => Some((quotient, rest)),
        None => None,
    }
}

/// The quotient and the remainder of `a * b` over `d`, if the quotient fits.
fn divide_product(a: u128, b: u128, d: u128) -> (r: Option<(u128, u128)>)
    requires
        d > 0,
    ensures
        is_division(a * b, d as int, r),
    decreases b,
{
    if b == 0 {
        return Some((0, 0));
    }
    let ghost x = a as int;
    let ghost h = b as int / 2;
    let ghost bit = b as int % 2;
    assert(x * b == x * h + x * h + x * bit) by (nonlinear_arith)
        requires
            b == 2 * h + bit,
    ;
    assert(x * h >= 0 && x * bit >= 0) by (nonlinear_arith)
        requires
            x >= 0,
            h >= 0,
            bit >= 0,
    ;
    let half = match divide_product(a, b / 2, d) {
        Some(half) => half,
        None => return None,
    };
    let twice = match add_divided(half, half, d) {
        Some(twice) => twice,
        None => return None,
    };
    if b % 2 == 0 {
        assert(x * bit == 0) by (nonlinear_arith)
            requires
                bit == 0,
        ;
        return Some(twice);
    }
    assert(x * bit == x) by (nonlinear_arith)
        requires
            bit == 1,
    ;
    proof {
        vstd::arithmetic::div_mod::lemma_fundamental_div_mod(x, d as int);
        assert(d * (x / (d as int)) == (x / (d as int)) * d) by (nonlinear_arith);
    }
    add_divided(twice, (a / d, a % d), d)
}

impl Real for Ratio {
    open spec fn reciprocal_of(n: usize) -> Ratio {
        Ratio { num: 1, den: n as u128 }
    }

    fn reciprocal(n: usize) -> (r: Ratio) {
        Ratio { num: 1, den: n as u128 }
    }
}

impl Quantize<u64, i64> for Ratio {
    open spec fn quantized(self, scale: u64) -> i64 {
        self.scaled(scale as int, i64::MIN as int, i64::MAX as int) as i64
    }

    open spec fn dequantized(self, scale: u64, v: i64) -> bool {
        self.num == v && self.den == scale
    }

    fn quantize(&self, scale: u64) -> (v: i64) {
        let v = self.scale_up(scale as u128);
        if v > i64::MAX as i128 {
            i64::MAX
        } else if v < i64::MIN as i128 {
            i64::MIN
        } else {
            v as i64
        }
    }

    fn dequantize(v: i64, scale: u64) -> (r: Ratio) {
        Ratio { num: v as i128, den: scale as u128 }
    }
}

impl Quantize<u128, i128> for Ratio {
    open spec fn quantized(self, scale: u128) -> i128 {
        self.scaled(scale as int, i128::MIN as int, i128::MAX as int) as i128
    }

    open spec fn dequantized(self, scale: u128, v: i128) -> bool {
        self.num == v && self.den == scale
    }

    fn quantize(&self, scale: u128) -> (v: i128) {
        self.scale_up(scale)
    }

    fn dequantize(v: i128, scale: u128) -> (r: Ratio) {
        Ratio { num: v, den: scale }
    }
}

} // verus!
