//! What rounding to 53 significant bits gives, told without the steps that lead there.
use crate::double::{distance, nearest, round_half_up, Binary, LEAST_MANTISSA};
use crate::double_order::{
    law_rounding_is_near, lemma_half_unit, lemma_round_half_up_lowered, lemma_up, lowered, up,
};
use vstd::arithmetic::div_mod::lemma_fundamental_div_mod;
use vstd::arithmetic::power2::{lemma2_to64, lemma_pow2_adds, lemma_pow2_pos, pow2};
use vstd::prelude::*;

verus! {

/// `mantissa` is the integer nearest to `exact / unit`, which has 53 bits before the point. Of two
/// that are equally near, it is the even one.
pub open spec fn is_rounded_ratio(mantissa: nat, exact: nat, unit: nat) -> bool {
    &&& LEAST_MANTISSA * unit <= exact < 2 * LEAST_MANTISSA * unit
    &&& 2 * distance(exact, mantissa * unit) <= unit
    &&& 2 * distance(exact, mantissa * unit) == unit ==> mantissa % 2 == 0
}

/// `d` is what `p / q` times two to the power of `k` is rounded to: with the exponent that leaves 53
/// bits before the point, its mantissa is the integer nearest to that number.
pub open spec fn is_rounded(d: Binary, p: nat, q: nat, k: int) -> bool {
    is_rounded_ratio(d.mantissa, p * up(k - d.exponent), q * up(d.exponent - k))
}

proof fn lemma_rounded_halves(mantissa: nat, exact: nat, unit: nat)
    requires
        is_rounded_ratio(mantissa, 2 * exact, 2 * unit),
    ensures
        is_rounded_ratio(mantissa, exact, unit),
{
    let least = LEAST_MANTISSA as nat;
    assert(mantissa * (2 * unit) == 2 * (mantissa * unit)) by (nonlinear_arith);
    assert(least * (2 * unit) == 2 * (least * unit)) by (nonlinear_arith);
    assert(2 * least * (2 * unit) == 2 * (2 * least * unit)) by (nonlinear_arith);
}

/// Rounding gives the number with 53 significant bits that is nearest, and of two that are equally
/// near the one with the even mantissa.
pub proof fn law_rounding_gives_the_nearest(p: nat, q: nat, k: int)
    requires
        p > 0,
        q > 0,
    ensures
        is_rounded(nearest(p, q, k), p, q, k),
    decreases
            (if p < q {
                1nat
            } else {
                0nat
            }),
            distance(p, q),
{
    let d = nearest(p, q, k);
    let places = d.exponent - k;
    let m = d.mantissa;
    lemma_up(places);
    lemma_up(-places);
    lemma_up(places - 1);
    lemma_up(-places - 1);
    let exact = p * up(-places);
    let unit = q * up(places);
    assert(k - d.exponent == -places);
    if p < q {
        law_rounding_gives_the_nearest(2 * p, q, k - 1);
        assert(k - 1 - d.exponent == -places - 1);
        assert(d.exponent - (k - 1) == places + 1);
        if places >= 0 {
            let u = up(places);
            assert(q * (2 * u) == 2 * (q * u)) by (nonlinear_arith);
            assert((2 * p) * 1 == 2 * (p * 1));
            lemma_rounded_halves(m, exact, unit);
        } else {
            let u = up(-places - 1);
            assert((2 * p) * u == p * (2 * u)) by (nonlinear_arith);
        }
    } else if p >= 2 * q {
        law_rounding_gives_the_nearest(p, 2 * q, k + 1);
        assert(k + 1 - d.exponent == 1 - places);
        assert(d.exponent - (k + 1) == places - 1);
        if places >= 1 {
            let u = up(places - 1);
            assert((2 * q) * u == q * (2 * u)) by (nonlinear_arith);
        } else {
            let u = up(-places);
            assert(p * (2 * u) == 2 * (p * u)) by (nonlinear_arith);
            assert((2 * q) * 1 == 2 * (q * 1));
            lemma_rounded_halves(m, exact, unit);
        }
    } else {
        assert(pow2(52) == LEAST_MANTISSA) by {
            vstd::arithmetic::power2::lemma2_to64_rest();
        }
        assert(up(52) == LEAST_MANTISSA);
        let whole = exact / q;
        lemma_fundamental_div_mod(exact as int, q as int);
        assert((whole + 1) * q == whole * q + q && whole * q == q * whole) by (nonlinear_arith);
        lemma_half_unit(exact, q);
        assert(unit == q);
        assert(LEAST_MANTISSA * unit <= exact < 2 * LEAST_MANTISSA * unit);
    }
}

proof fn lemma_ratio_moves(p: nat, q: nat, low: int, high: int)
    requires
        low < high,
        q > 0,
    ensures
        (p * up(-low)) * (q * up(high)) == (p * up(-high)) * (q * up(low)) * up(high - low),
        up(high - low) >= 2,
{
    let g = high - low;
    lemma_up(low);
    lemma_up(-low);
    lemma_up(high);
    lemma_up(-high);
    lemma_up(g);
    lemma_up(g - 1);
    lemma2_to64();
    let a = up(-low);
    let b = up(high);
    let c = up(-high);
    let d = up(low);
    let e = up(g);
    if low >= 0 {
        lemma_pow2_adds(low as nat, g as nat);
        assert(a * b == c * d * e) by (nonlinear_arith)
            requires
                a == 1,
                c == 1,
                b == d * e,
        ;
    } else if high <= 0 {
        lemma_pow2_adds((-high) as nat, g as nat);
        assert(a * b == c * d * e) by (nonlinear_arith)
            requires
                b == 1,
                d == 1,
                a == c * e,
        ;
    } else {
        lemma_pow2_adds((-low) as nat, high as nat);
        assert(a * b == c * d * e) by (nonlinear_arith)
            requires
                c == 1,
                d == 1,
                a * b == e,
        ;
    }
    assert((p * a) * (q * b) == (p * c) * (q * d) * e) by (nonlinear_arith)
        requires
            a * b == c * d * e,
    ;
}

proof fn lemma_rounded_has_one_exponent(a: Binary, b: Binary, p: nat, q: nat, k: int)
    requires
        p > 0,
        q > 0,
        is_rounded(a, p, q, k),
        is_rounded(b, p, q, k),
    ensures
        a.exponent >= b.exponent,
{
    let low = a.exponent - k;
    let high = b.exponent - k;
    if low < high {
        let exact_low = p * up(-low);
        let unit_low = q * up(low);
        let exact_high = p * up(-high);
        let unit_high = q * up(high);
        let g = up(high - low);
        assert(k - a.exponent == -low && k - b.exponent == -high);
        lemma_ratio_moves(p, q, low, high);
        let least = LEAST_MANTISSA as nat;
        lemma_up(low);
        lemma_up(high);
        assert(unit_low > 0 && unit_high > 0) by (nonlinear_arith)
            requires
                unit_low == q * up(low),
                unit_high == q * up(high),
                q > 0,
                up(low) > 0,
                up(high) > 0,
        ;
        assert(false) by (nonlinear_arith)
            requires
                exact_low * unit_high == exact_high * unit_low * g,
                g >= 2,
                least * unit_high <= exact_high,
                exact_low < 2 * least * unit_low,
                unit_low > 0,
                unit_high > 0,
        ;
    }
}

/// There is only one number that another one is rounded to.
pub proof fn law_rounding_has_one_result(a: Binary, b: Binary, p: nat, q: nat, k: int)
    requires
        p > 0,
        q > 0,
        is_rounded(a, p, q, k),
        is_rounded(b, p, q, k),
    ensures
        a == b,
{
    lemma_rounded_has_one_exponent(a, b, p, q, k);
    lemma_rounded_has_one_exponent(b, a, p, q, k);
    let unit = q * up(a.exponent - k);
    let exact = p * up(k - a.exponent);
    lemma_up(a.exponent - k);
    assert(unit > 0) by (nonlinear_arith)
        requires
            unit == q * up(a.exponent - k),
            q > 0,
            up(a.exponent - k) > 0,
    ;
    lemma_one_mantissa(a.mantissa, b.mantissa, exact, unit);
    lemma_one_mantissa(b.mantissa, a.mantissa, exact, unit);
}

proof fn lemma_one_mantissa(a: nat, b: nat, exact: nat, unit: nat)
    requires
        unit > 0,
        is_rounded_ratio(a, exact, unit),
        is_rounded_ratio(b, exact, unit),
    ensures
        a >= b,
{
    if a < b {
        assert(b * unit >= a * unit + unit) by (nonlinear_arith)
            requires
                b >= a + 1,
        ;
        if b >= a + 2 {
            assert(b * unit >= a * unit + 2 * unit) by (nonlinear_arith)
                requires
                    b >= a + 2,
            ;
        }
    }
}

/// Rounding to an integer gives the nearest one, and of two that are equally near the greater one.
pub proof fn law_rounding_to_integer(a: Binary, e: int)
    requires
        e <= a.exponent,
        e <= 0,
    ensures
        ({
            let unit = pow2((-e) as nat);
            let twice = 2 * lowered(a, e);
            (2 * round_half_up(a) - 1) * unit <= twice < (2 * round_half_up(a) + 1) * unit
        }),
{
    let unit = pow2((-e) as nat);
    let r = round_half_up(a);
    let top = 2 * lowered(a, e) + unit;
    lemma_pow2_pos((-e) as nat);
    lemma_round_half_up_lowered(a, e);
    lemma_fundamental_div_mod(top as int, (2 * unit) as int);
    assert((2 * r - 1) * unit == (2 * unit) * r - unit) by (nonlinear_arith);
    assert((2 * r + 1) * unit == (2 * unit) * r + unit) by (nonlinear_arith);
}

/// In terms of mantissas with their exponents lowered to the same one, rounding is off by at most
/// one part in two to the power of 53.
pub proof fn law_rounding_error_is_small(p: nat, q: nat, k: int, e: int)
    requires
        p > 0,
        q > 0,
        e <= k,
        e <= nearest(p, q, k).exponent,
    ensures
        ({
            let d = nearest(p, q, k);
            let exact = p * pow2((k - e) as nat);
            let rounded = q * lowered(d, e);
            2 * LEAST_MANTISSA * distance(exact, rounded) <= rounded
        }),
{
    let d = nearest(p, q, k);
    let places = d.exponent - k;
    let m = d.mantissa;
    let least = LEAST_MANTISSA as nat;
    law_rounding_is_near(p, q, k);
    lemma_up(places);
    lemma_up(-places);
    let x = p * up(-places);
    let u = q * up(places);
    let y = m * q * up(places);
    assert(y == m * u) by (nonlinear_arith)
        requires
            y == m * q * up(places),
            u == q * up(places),
    ;
    assert(2 * least * distance(x, y) <= y) by (nonlinear_arith)
        requires
            2 * distance(x, y) <= u,
            y == m * u,
            m >= least,
    ;
    let common = if k <= d.exponent {
        k
    } else {
        d.exponent
    };
    let f = pow2((common - e) as nat);
    lemma2_to64();
    if places >= 0 {
        lemma_pow2_adds(places as nat, (k - e) as nat);
        assert(up(places) * f == pow2((d.exponent - e) as nat));
        assert(up(-places) * f == pow2((k - e) as nat));
    } else {
        lemma_pow2_adds((-places) as nat, (d.exponent - e) as nat);
        assert(up(places) * f == pow2((d.exponent - e) as nat));
        assert(up(-places) * f == pow2((k - e) as nat));
    }
    let exact = p * pow2((k - e) as nat);
    let rounded = q * lowered(d, e);
    let v = up(-places);
    let w = up(places);
    assert(exact == x * f) by (nonlinear_arith)
        requires
            exact == p * (v * f),
            x == p * v,
    ;
    assert(rounded == y * f) by (nonlinear_arith)
        requires
            rounded == q * (m * (w * f)),
            y == m * q * w,
    ;
    assert(distance(exact, rounded) == distance(x, y) * f) by (nonlinear_arith)
        requires
            exact == x * f,
            rounded == y * f,
            distance(exact, rounded) == (if exact < rounded {
                rounded - exact
            } else {
                exact - rounded
            }),
            distance(x, y) == (if x < y {
                y - x
            } else {
                x - y
            }),
            f >= 0,
    ;
    let gap = distance(x, y);
    assert(2 * least * (gap * f) <= y * f) by (nonlinear_arith)
        requires
            2 * least * gap <= y,
            f >= 0,
    ;
}

} // verus!
