//! Binary floating point with 53 significant bits, worked out on integers.
//!
//! Only positive numbers occur here, and none that is too large or too small for the format, so
//! a number is an integer times a power of two, and the result of an operation is the number of
//! the format nearest to the exact result. Of two that are equally near, it is the one whose
//! integer is even.
use vstd::arithmetic::div_mod::{
    lemma_basic_div, lemma_div_is_ordered_by_denominator, lemma_fundamental_div_mod,
};
use vstd::arithmetic::power2::{
    lemma2_to64, lemma2_to64_rest, lemma_pow2_pos, lemma_pow2_strictly_increases,
    lemma_pow2_unfold, pow2,
};
use vstd::prelude::*;

verus! {

/// The number `mantissa` times two to the power of `exponent`.
pub struct Binary {
    pub mantissa: nat,
    pub exponent: int,
}

/// Two to the power of 52: the least mantissa of 53 bits.
pub const LEAST_MANTISSA: u64 = 0x10_0000_0000_0000;

/// The integer nearest to `p / q`. Of two that are equally near, the even one.
pub open spec fn round_half_even(p: nat, q: nat) -> nat {
    let whole = p / q;
    let rest = p % q;
    if 2 * rest < q || (2 * rest == q && whole % 2 == 0) {
        whole
    } else {
        whole + 1
    }
}

/// The distance between two numbers.
pub open spec fn distance(a: nat, b: nat) -> nat {
    if a < b {
        (b - a) as nat
    } else {
        (a - b) as nat
    }
}

/// The number with 53 significant bits that is nearest to `p / q` times two to the power of `k`.
///
/// Powers of two move between the ratio and `k` until the ratio is at least one and less than
/// two. The ratio is then rounded to 52 bits after the point.
pub open spec fn nearest(p: nat, q: nat, k: int) -> Binary
    decreases
            (if p < q {
                1nat
            } else {
                0nat
            }),
            distance(p, q),
        when p > 0 && q > 0
{
    if p < q {
        nearest(2 * p, q, k - 1)
    } else if p >= 2 * q {
        nearest(p, 2 * q, k + 1)
    } else {
        Binary { mantissa: round_half_even(p * LEAST_MANTISSA as nat, q), exponent: k - 52 }
    }
}

/// `a` is at most `b`.
pub open spec fn at_most(a: Binary, b: Binary) -> bool {
    if a.exponent >= b.exponent {
        a.mantissa * pow2((a.exponent - b.exponent) as nat) <= b.mantissa
    } else {
        a.mantissa <= b.mantissa * pow2((b.exponent - a.exponent) as nat)
    }
}

/// The integer nearest to `a`. Of two that are equally near, the greater one.
pub open spec fn round_half_up(a: Binary) -> nat {
    if a.exponent >= 0 {
        a.mantissa * pow2(a.exponent as nat)
    } else {
        let unit = pow2((-a.exponent) as nat);
        (2 * a.mantissa + unit) / (2 * unit)
    }
}

/// A positive number with 53 significant bits.
#[derive(Clone, Copy, Debug, PartialEq, Eq, Structural)]
pub struct Double {
    /// The significant bits.
    pub mantissa: u64,
    /// The power of two that the significant bits are multiplied by.
    pub exponent: i32,
}

impl View for Double {
    type V = Binary;

    open spec fn view(&self) -> Binary {
        Binary { mantissa: self.mantissa as nat, exponent: self.exponent as int }
    }
}

impl Double {
    /// The mantissa has 53 bits, or is the first number with 54.
    pub open spec fn well_formed(self) -> bool {
        LEAST_MANTISSA <= self.mantissa <= 2 * LEAST_MANTISSA
    }
}

/// A ratio of at least one and less than two is rounded to a mantissa of 53 bits, or to the first
/// number with 54.
pub proof fn lemma_mantissa_bounds(p: nat, q: nat)
    requires
        0 < q <= p < 2 * q,
    ensures
        LEAST_MANTISSA <= round_half_even(p * LEAST_MANTISSA as nat, q) <= 2 * LEAST_MANTISSA,
{
    let unit = LEAST_MANTISSA as nat;
    let whole = (p * unit) / q;
    assert(p * unit >= q * unit) by (nonlinear_arith)
        requires
            p >= q,
    ;
    assert(p * unit < 2 * unit * q) by (nonlinear_arith)
        requires
            p < 2 * q,
            unit > 0,
    ;
    lemma_fundamental_div_mod((p * unit) as int, q as int);
    assert(whole >= unit) by (nonlinear_arith)
        requires
            p * unit >= q * unit,
            p * unit == q * whole + (p * unit) % q,
            (p * unit) % q < q,
            q > 0,
    ;
    assert(whole < 2 * unit) by (nonlinear_arith)
        requires
            p * unit < 2 * unit * q,
            p * unit == q * whole + (p * unit) % q,
            (p * unit) % q >= 0,
            q > 0,
    ;
}

/// The nearest integer to `p / q`. Of two that are equally near, the even one.
fn round_ratio(p: u128, q: u128) -> (rounded: u128)
    requires
        0 < q <= 0x2_0000_0000_0000_0000,
        p <= 0x20_0000_0000_0000_0000_0000_0000_0000,
    ensures
        rounded == round_half_even(p as nat, q as nat),
{
    let whole: u128 = p / q;
    let rest: u128 = p % q;
    proof {
        lemma_div_is_ordered_by_denominator(p as int, 1, q as int);
    }
    if 2 * rest < q || (2 * rest == q && whole % 2 == 0) {
        whole
    } else {
        whole + 1
    }
}

/// The number with 53 significant bits that is nearest to `p / q` times two to the power of `k`.
/// The bounds on `k` leave room for the exponent of the result.
pub fn nearest_double(p: u64, q: u64, k: i32) -> (d: Double)
    requires
        p > 0,
        q > 0,
        -1000 <= k <= 1000,
    ensures
        d@ == nearest(p as nat, q as nat, k as int),
        d.well_formed(),
        k - 120 <= d.exponent <= k + 20,
{
    let mut num: u128 = p as u128;
    let mut den: u128 = q as u128;
    let mut power: i32 = k;
    proof {
        lemma2_to64();
    }
    let ghost mut steps: nat = 0;
    while num < den
        invariant
            0 < num < 0x2_0000_0000_0000_0000,
            p > 0,
            q > 0,
            0 < den < 0x1_0000_0000_0000_0000,
            nearest(num as nat, den as nat, power as int) == nearest(p as nat, q as nat, k as int),
            num >= pow2(steps),
            power == k - steps,
            steps <= 64,
            pow2(64) == 0x1_0000_0000_0000_0000,
            -1000 <= k <= 1000,
            steps > 0 ==> num < 2 * den,
        decreases
            if num < den {
                den - num
            } else {
                0
            },
    {
        proof {
            assert(steps < 64);
            lemma_pow2_unfold(steps + 1);
            steps = steps + 1;
        }
        num = 2 * num;
        power = power - 1;
    }
    let ghost low = steps;
    proof {
        steps = 0;
    }
    while num >= 2 * den
        invariant
            0 < den <= num < 0x2_0000_0000_0000_0000,
            p > 0,
            q > 0,
            nearest(num as nat, den as nat, power as int) == nearest(p as nat, q as nat, k as int),
            den >= pow2(steps),
            power == k - low + steps,
            steps <= 64,
            low <= 64,
            pow2(64) == 0x1_0000_0000_0000_0000,
            -1000 <= k <= 1000,
        decreases num - den,
    {
        proof {
            lemma_pow2_unfold(steps + 1);
            steps = steps + 1;
        }
        den = 2 * den;
        power = power + 1;
    }
    proof {
        lemma_mantissa_bounds(num as nat, den as nat);
    }
    let mantissa: u128 = round_ratio(num * (LEAST_MANTISSA as u128), den);
    Double { mantissa: mantissa as u64, exponent: power - 52 }
}

/// Powers of two do not fall as the exponent rises.
proof fn lemma_pow2_ordered(a: nat, b: nat)
    requires
        a <= b,
    ensures
        pow2(a) <= pow2(b),
{
    if a < b {
        lemma_pow2_strictly_increases(a, b);
    }
}

impl Double {
    /// Whether this number is at most another.
    pub fn at_most(&self, other: &Double) -> (answer: bool)
        requires
            self.well_formed(),
            other.well_formed(),
            -1000 <= self.exponent <= 1000,
            -1000 <= other.exponent <= 1000,
        ensures
            answer == at_most(self@, other@),
    {
        let gap: i32 = self.exponent - other.exponent;
        proof {
            lemma2_to64();
            if gap >= 0 {
                let factor = pow2(gap as nat);
                if gap >= 2 {
                    lemma_pow2_ordered(2, gap as nat);
                    assert(self.mantissa * factor >= self.mantissa * 4) by (nonlinear_arith)
                        requires
                            factor >= 4,
                    ;
                }
            } else {
                let factor = pow2((-gap) as nat);
                lemma_pow2_ordered(1, (-gap) as nat);
                assert(other.mantissa * factor >= other.mantissa * 2) by (nonlinear_arith)
                    requires
                        factor >= 2,
                ;
            }
        }
        if gap >= 2 {
            false
        } else if gap == 1 {
            2 * self.mantissa <= other.mantissa
        } else if gap == 0 {
            self.mantissa <= other.mantissa
        } else {
            true
        }
    }

    /// The integer nearest to this number, or the greatest byte where that is less. Of two
    /// integers that are equally near, it is the greater one.
    pub fn to_byte(&self) -> (byte: u8)
        requires
            self.well_formed(),
            -1000 <= self.exponent <= 1000,
        ensures
            byte == (if round_half_up(self@) < 255 {
                round_half_up(self@)
            } else {
                255
            }),
    {
        if self.exponent >= 0 {
            proof {
                let factor = pow2(self.exponent as nat);
                lemma_pow2_pos(self.exponent as nat);
                assert(self.mantissa * factor >= self.mantissa) by (nonlinear_arith)
                    requires
                        factor >= 1,
                ;
            }
            return 255;
        }
        let places: u32 = (-self.exponent) as u32;
        let ghost unit = pow2(places as nat);
        if places > 54 {
            proof {
                lemma2_to64_rest();
                lemma_pow2_ordered(55, places as nat);
                lemma_basic_div(2 * self.mantissa + unit as int, 2 * unit as int);
            }
            return 0;
        }
        let unit: u128 = power_of_two(places);
        let rounded: u128 = (2 * (self.mantissa as u128) + unit) / (2 * unit);
        if rounded < 255 {
            rounded as u8
        } else {
            255
        }
    }
}

fn power_of_two(exponent: u32) -> (power: u128)
    requires
        exponent <= 64,
    ensures
        power == pow2(exponent as nat),
        1 <= power <= 0x1_0000_0000_0000_0000,
{
    let mut power: u128 = 1;
    let mut i: u32 = 0;
    proof {
        lemma2_to64();
    }
    while i < exponent
        invariant
            i <= exponent <= 64,
            power == pow2(i as nat),
            pow2(64) == 0x1_0000_0000_0000_0000,
        decreases exponent - i,
    {
        proof {
            lemma_pow2_unfold((i + 1) as nat);
            lemma_pow2_ordered((i + 1) as nat, 64);
        }
        power = 2 * power;
        i += 1;
    }
    proof {
        lemma_pow2_pos(i as nat);
        lemma_pow2_ordered(i as nat, 64);
    }
    power
}

} // verus!
