//! How rounding to 53 significant bits keeps the order of numbers, and how near it comes.
use crate::double::{
    at_most, distance, lemma_mantissa_bounds, nearest, round_half_even, round_half_up, Binary,
    LEAST_MANTISSA,
};
use crate::rounding::law_rounding_gives_the_nearest;
use vstd::arithmetic::div_mod::{
    lemma_div_is_ordered, lemma_div_multiples_vanish_quotient, lemma_fundamental_div_mod,
    lemma_fundamental_div_mod_converse,
};
use vstd::arithmetic::power2::{lemma2_to64, lemma_pow2_adds, lemma_pow2_pos, lemma_pow2_unfold, pow2};
use vstd::prelude::*;

verus! {

/// Two to the power of `k`, or one where `k` is negative.
pub open spec fn up(k: int) -> nat {
    if k > 0 {
        pow2(k as nat)
    } else {
        1
    }
}

/// Powers of two double from one exponent to the next.
pub proof fn lemma_up(k: int)
    ensures
        up(k) > 0,
        k >= 0 ==> up(k + 1) == 2 * up(k),
        k < 0 ==> up(k + 1) == up(k),
        k >= 0 ==> up(k) == pow2(k as nat),
{
    lemma2_to64();
    if k >= 0 {
        lemma_pow2_pos(k as nat);
        lemma_pow2_unfold((k + 1) as nat);
    }
}

/// `p1 / q1` times two to the power of `k1` is at most `p2 / q2` times two to the power of `k2`.
pub open spec fn scaled_at_most(p1: nat, q1: nat, k1: int, p2: nat, q2: nat, k2: int) -> bool {
    p1 * q2 * up(k1 - k2) <= p2 * q1 * up(k2 - k1)
}

proof fn lemma_round_ordered(p1: nat, q1: nat, p2: nat, q2: nat)
    requires
        q1 > 0,
        q2 > 0,
        p1 * q2 <= p2 * q1,
    ensures
        round_half_even(p1, q1) <= round_half_even(p2, q2),
{
    let w1 = p1 / q1;
    let r1 = p1 % q1;
    let w2 = p2 / q2;
    let r2 = p2 % q2;
    lemma_fundamental_div_mod(p1 as int, q1 as int);
    lemma_fundamental_div_mod(p2 as int, q2 as int);
    assert(w1 <= w2) by (nonlinear_arith)
        requires
            p1 == q1 * w1 + r1,
            p2 == q2 * w2 + r2,
            r1 >= 0,
            r2 < q2,
            q1 > 0,
            q2 > 0,
            p1 * q2 <= p2 * q1,
    ;
    if w1 == w2 {
        assert(r1 * q2 <= r2 * q1) by (nonlinear_arith)
            requires
                p1 == q1 * w1 + r1,
                p2 == q2 * w1 + r2,
                p1 * q2 <= p2 * q1,
        ;
        if 2 * r1 >= q1 {
            assert(2 * r2 >= q2) by (nonlinear_arith)
                requires
                    2 * r1 >= q1,
                    r1 * q2 <= r2 * q1,
                    q1 > 0,
            ;
        }
        if 2 * r1 > q1 {
            assert(2 * r2 > q2) by (nonlinear_arith)
                requires
                    2 * r1 > q1,
                    r1 * q2 <= r2 * q1,
                    q1 > 0,
                    q2 > 0,
            ;
        }
    }
}

proof fn lemma_move_power(p1: nat, q1: nat, k1: int, p2: nat, q2: nat, k2: int)
    requires
        scaled_at_most(p1, q1, k1, p2, q2, k2),
    ensures
        scaled_at_most(2 * p1, q1, k1 - 1, p2, q2, k2),
        scaled_at_most(p1, 2 * q1, k1 + 1, p2, q2, k2),
        scaled_at_most(p1, q1, k1, 2 * p2, q2, k2 - 1),
        scaled_at_most(p1, q1, k1, p2, 2 * q2, k2 + 1),
{
    let g = k1 - k2;
    lemma_up(g);
    lemma_up(-g);
    lemma_up(g - 1);
    lemma_up(-g - 1);
    let a = p1 * q2;
    let b = p2 * q1;
    assert((2 * p1) * q2 == 2 * a && p1 * (2 * q2) == 2 * a) by (nonlinear_arith)
        requires
            a == p1 * q2,
    ;
    assert((2 * p2) * q1 == 2 * b && p2 * (2 * q1) == 2 * b) by (nonlinear_arith)
        requires
            b == p2 * q1,
    ;
    lemma_halves(a, b, g);
    assert(k1 - 1 - k2 == g - 1 && k2 - (k1 - 1) == 1 - g);
    assert(k1 + 1 - k2 == g + 1 && k2 - (k1 + 1) == -g - 1);
    assert(k1 - (k2 - 1) == g + 1 && k2 - 1 - k1 == -g - 1);
    assert(k1 - (k2 + 1) == g - 1 && k2 + 1 - k1 == 1 - g);
}

proof fn lemma_halves(a: nat, b: nat, g: int)
    requires
        a * up(g) <= b * up(-g),
    ensures
        (2 * a) * up(g - 1) <= b * up(1 - g),
        a * up(g + 1) <= (2 * b) * up(-g - 1),
{
    lemma_up(g);
    lemma_up(-g);
    lemma_up(g - 1);
    lemma_up(-g - 1);
    if g >= 1 {
        let u = up(g - 1);
        assert((2 * a) * u == a * (2 * u)) by (nonlinear_arith);
    } else {
        let u = up(-g);
        assert(b * (2 * u) == 2 * (b * u)) by (nonlinear_arith);
    }
    if g >= 0 {
        let u = up(g);
        assert(up(-g) == 1 && up(-g - 1) == 1);
        assert(a * (2 * u) == 2 * (a * u)) by (nonlinear_arith);
        assert(up(g + 1) == 2 * u);
        assert(b * 1 == b && (2 * b) * 1 == 2 * b);
    } else {
        let u = up(-g - 1);
        assert(up(g) == 1 && up(g + 1) == 1);
        assert((2 * b) * u == b * (2 * u)) by (nonlinear_arith);
        assert(up(-g) == 2 * u);
    }
}

/// Rounding keeps the order of numbers: of two numbers, the lesser one is not rounded to the
/// greater result.
pub proof fn law_rounding_keeps_order(p1: nat, q1: nat, k1: int, p2: nat, q2: nat, k2: int)
    requires
        p1 > 0,
        q1 > 0,
        p2 > 0,
        q2 > 0,
        scaled_at_most(p1, q1, k1, p2, q2, k2),
    ensures
        at_most(nearest(p1, q1, k1), nearest(p2, q2, k2)),
    decreases
            (if p1 < q1 {
                1nat
            } else {
                0nat
            }),
            distance(p1, q1),
            (if p2 < q2 {
                1nat
            } else {
                0nat
            }),
            distance(p2, q2),
{
    lemma_move_power(p1, q1, k1, p2, q2, k2);
    if p1 < q1 {
        law_rounding_keeps_order(2 * p1, q1, k1 - 1, p2, q2, k2);
    } else if p1 >= 2 * q1 {
        law_rounding_keeps_order(p1, 2 * q1, k1 + 1, p2, q2, k2);
    } else if p2 < q2 {
        law_rounding_keeps_order(p1, q1, k1, 2 * p2, q2, k2 - 1);
    } else if p2 >= 2 * q2 {
        law_rounding_keeps_order(p1, q1, k1, p2, 2 * q2, k2 + 1);
    } else {
        lemma_rounding_keeps_order(p1, q1, k1, p2, q2, k2);
    }
}

proof fn lemma_rounding_keeps_order(p1: nat, q1: nat, k1: int, p2: nat, q2: nat, k2: int)
    requires
        0 < q1 <= p1 < 2 * q1,
        0 < q2 <= p2 < 2 * q2,
        scaled_at_most(p1, q1, k1, p2, q2, k2),
    ensures
        at_most(nearest(p1, q1, k1), nearest(p2, q2, k2)),
{
    let unit = LEAST_MANTISSA as nat;
    let m1 = round_half_even(p1 * unit, q1);
    let m2 = round_half_even(p2 * unit, q2);
    let g = k1 - k2;
    lemma_mantissa_bounds(p1, q1);
    lemma_mantissa_bounds(p2, q2);
    lemma_up(g);
    lemma_up(-g);
    lemma2_to64();
    if g == 0 {
        assert((p1 * unit) * q2 <= (p2 * unit) * q1) by (nonlinear_arith)
            requires
                p1 * q2 * 1 <= p2 * q1 * 1,
        ;
        lemma_round_ordered(p1 * unit, q1, p2 * unit, q2);
        assert(m1 * 1 == m1);
    } else if g > 0 {
        lemma_up(g - 1);
        let u = up(g - 1);
        assert(p2 * q1 < p1 * q2 * (2 * u)) by (nonlinear_arith)
            requires
                q1 <= p1,
                p2 < 2 * q2,
                u >= 1,
                q1 > 0,
        ;
        assert(p2 * q1 * up(-g) == p2 * q1);
        assert(false);
    } else {
        lemma_up(-g - 1);
        let u = up(-g - 1);
        assert(m1 <= m2 * (2 * u)) by (nonlinear_arith)
            requires
                m1 <= 2 * unit,
                m2 >= unit,
                u >= 1,
        ;
    }
}

/// The mantissa that a number has when its exponent is lowered to `e`.
pub open spec fn lowered(a: Binary, e: int) -> nat {
    a.mantissa * pow2((a.exponent - e) as nat)
}

proof fn lemma_at_most_lowered(a: Binary, b: Binary, e: int)
    requires
        e <= a.exponent,
        e <= b.exponent,
    ensures
        at_most(a, b) <==> lowered(a, e) <= lowered(b, e),
{
    if a.exponent >= b.exponent {
        let f = pow2((a.exponent - b.exponent) as nat);
        let x = pow2((b.exponent - e) as nat);
        lemma_pow2_adds((a.exponent - b.exponent) as nat, (b.exponent - e) as nat);
        lemma_pow2_pos((b.exponent - e) as nat);
        assert((a.mantissa * f <= b.mantissa) == (a.mantissa * (f * x) <= b.mantissa * x))
            by (nonlinear_arith)
            requires
                x > 0,
        ;
    } else {
        let f = pow2((b.exponent - a.exponent) as nat);
        let x = pow2((a.exponent - e) as nat);
        lemma_pow2_adds((b.exponent - a.exponent) as nat, (a.exponent - e) as nat);
        lemma_pow2_pos((a.exponent - e) as nat);
        assert((a.mantissa <= b.mantissa * f) == (a.mantissa * x <= b.mantissa * (f * x)))
            by (nonlinear_arith)
            requires
                x > 0,
        ;
    }
}

/// Numbers compare as their mantissas do when their exponents are lowered to the same one.
pub proof fn law_order_is_that_of_values(a: Binary, b: Binary, e: int)
    requires
        e <= a.exponent,
        e <= b.exponent,
    ensures
        at_most(a, b) <==> a.mantissa * pow2((a.exponent - e) as nat) <= b.mantissa * pow2(
            (b.exponent - e) as nat,
        ),
{
    lemma_at_most_lowered(a, b, e);
}

/// The lesser one of two numbers.
pub open spec fn least(a: int, b: int) -> int {
    if a <= b {
        a
    } else {
        b
    }
}

/// What is at most a number is at most what that number is at most.
pub proof fn lemma_at_most_transitive(a: Binary, b: Binary, c: Binary)
    requires
        at_most(a, b),
        at_most(b, c),
    ensures
        at_most(a, c),
{
    let e = least(a.exponent, least(b.exponent, c.exponent));
    lemma_at_most_lowered(a, b, e);
    lemma_at_most_lowered(b, c, e);
    lemma_at_most_lowered(a, c, e);
}

/// What an integer is rounded from may be told with a lowered exponent.
pub proof fn lemma_round_half_up_lowered(a: Binary, e: int)
    requires
        e <= a.exponent,
        e <= 0,
    ensures
        ({
            let unit = pow2((-e) as nat);
            round_half_up(a) == (2 * lowered(a, e) + unit) / (2 * unit)
        }),
{
    let unit = pow2((-e) as nat);
    lemma_pow2_pos((-e) as nat);
    if a.exponent >= 0 {
        let whole = a.mantissa * pow2(a.exponent as nat);
        lemma_pow2_adds(a.exponent as nat, (-e) as nat);
        let f = pow2(a.exponent as nat);
        assert(a.mantissa * (f * unit) == whole * unit) by (nonlinear_arith)
            requires
                whole == a.mantissa * f,
        ;
        assert(2 * (whole * unit) + unit == whole * (2 * unit) + unit) by (nonlinear_arith);
        lemma_fundamental_div_mod_converse(
            (2 * (whole * unit) + unit) as int,
            (2 * unit) as int,
            whole as int,
            unit as int,
        );
    } else {
        let u = pow2((-a.exponent) as nat);
        let f = pow2((a.exponent - e) as nat);
        lemma_pow2_adds((-a.exponent) as nat, (a.exponent - e) as nat);
        lemma_pow2_pos((-a.exponent) as nat);
        lemma_pow2_pos((a.exponent - e) as nat);
        assert(unit == u * f);
        assert(2 * (a.mantissa * f) + u * f == f * (2 * a.mantissa + u)) by (nonlinear_arith);
        assert(2 * (u * f) == f * (2 * u)) by (nonlinear_arith);
        lemma_div_multiples_vanish_quotient(
            f as int,
            (2 * a.mantissa + u) as int,
            (2 * u) as int,
        );
    }
}

/// Rounding to an integer keeps the order of numbers.
pub proof fn lemma_round_half_up_ordered(a: Binary, b: Binary)
    requires
        at_most(a, b),
    ensures
        round_half_up(a) <= round_half_up(b),
{
    let e = least(0, least(a.exponent, b.exponent));
    let unit = pow2((-e) as nat);
    lemma_pow2_pos((-e) as nat);
    lemma_at_most_lowered(a, b, e);
    lemma_round_half_up_lowered(a, e);
    lemma_round_half_up_lowered(b, e);
    lemma_div_is_ordered(
        (2 * lowered(a, e) + unit) as int,
        (2 * lowered(b, e) + unit) as int,
        (2 * unit) as int,
    );
}

/// Multiplying both by the same ratio and power of two keeps the order of two numbers.
pub proof fn lemma_scale_both(a: Binary, b: Binary, factor: nat, q: nat, k: int)
    requires
        at_most(a, b),
    ensures
        scaled_at_most(factor * a.mantissa, q, a.exponent + k, factor * b.mantissa, q, b.exponent + k),
{
    let g = a.exponent - b.exponent;
    lemma_up(g);
    lemma_up(-g);
    let u = up(g);
    let v = up(-g);
    assert(a.mantissa * u <= b.mantissa * v) by {
        if g >= 0 {
            assert(v == 1);
        } else {
            assert(u == 1);
        }
    }
    let m = a.mantissa;
    let n = b.mantissa;
    assert((factor * m) * q * u <= (factor * n) * q * v) by (nonlinear_arith)
        requires
            m * u <= n * v,
    ;
    assert(a.exponent + k - (b.exponent + k) == g);
    assert(b.exponent + k - (a.exponent + k) == -g);
}

/// A power of two that the ratio can spare may be moved into the exponent at once.
pub proof fn lemma_spare_power(p: nat, q: nat, k: int, n: nat)
    requires
        q > 0,
        p >= q * pow2(n),
    ensures
        nearest(p, q, k) == nearest(p, q * pow2(n), k + n),
    decreases n,
{
    lemma2_to64();
    if n == 0 {
        assert(q * 1 == q);
    } else {
        let m = (n - 1) as nat;
        lemma_pow2_unfold(n);
        lemma_pow2_pos(m);
        let x = pow2(m);
        assert((2 * q) * x == q * (2 * x)) by (nonlinear_arith);
        assert(q * (2 * x) >= 2 * q) by (nonlinear_arith)
            requires
                x >= 1,
        ;
        lemma_spare_power(p, 2 * q, k + 1, m);
    }
}

/// The nearest integer is off by at most a half.
pub proof fn lemma_half_unit(p: nat, q: nat)
    requires
        q > 0,
    ensures
        2 * distance(p, round_half_even(p, q) * q) <= q,
{
    let whole = p / q;
    lemma_fundamental_div_mod(p as int, q as int);
    assert((whole + 1) * q == whole * q + q && whole * q == q * whole) by (nonlinear_arith);
}

/// Rounding comes as near as can be: the result differs from the exact number by no more than
/// half of its own last place.
pub proof fn law_rounding_is_near(p: nat, q: nat, k: int)
    requires
        p > 0,
        q > 0,
    ensures
        ({
            let d = nearest(p, q, k);
            let places = d.exponent - k;
            &&& LEAST_MANTISSA <= d.mantissa <= 2 * LEAST_MANTISSA
            &&& 2 * distance(p * up(-places), d.mantissa * q * up(places)) <= q * up(places)
        }),
{
    let d = nearest(p, q, k);
    let places = d.exponent - k;
    let m = d.mantissa;
    let least_mantissa = LEAST_MANTISSA as nat;
    law_rounding_gives_the_nearest(p, q, k);
    lemma_up(places);
    assert(k - d.exponent == -places);
    let power = up(places);
    let unit = q * power;
    let exact = p * up(-places);
    assert(unit > 0) by (nonlinear_arith)
        requires
            unit == q * power,
            q > 0,
            power > 0,
    ;
    assert(m * q * power == m * unit) by (nonlinear_arith)
        requires
            unit == q * power,
    ;
    let product = m * unit;
    if m < least_mantissa {
        assert(product + unit <= least_mantissa * unit) by (nonlinear_arith)
            requires
                product == m * unit,
                m + 1 <= least_mantissa,
        ;
    }
    if m > 2 * least_mantissa {
        assert(product >= 2 * least_mantissa * unit + unit) by (nonlinear_arith)
            requires
                product == m * unit,
                m >= 2 * least_mantissa + 1,
        ;
    }
}

} // verus!
