//! How near the icon and the percentage of a volume come to its exact share of the base volume.
use crate::double::{at_most, distance, nearest, round_half_up, Binary, LEAST_MANTISSA};
use crate::double_order::{
    law_order_is_that_of_values, law_rounding_is_near, law_rounding_keeps_order, least, lemma_up,
    lowered, scaled_at_most, up,
};
use crate::rounding::{
    is_rounded, law_rounding_error_is_small, law_rounding_gives_the_nearest,
    law_rounding_to_integer,
};
use crate::volume::{icon_for, low_limit, medium_limit, percent_of, share, Icon, Share};
use vstd::arithmetic::mul::lemma_mul_inequality;
use vstd::arithmetic::power2::{lemma2_to64, lemma_pow2_adds, lemma_pow2_pos, pow2};
use vstd::prelude::*;

verus! {

/// Two to the power of 50. The percentage and the limits of the icons are off by less than one part
/// in that many.
pub const PARTS: u64 = 0x4_0000_0000_0000;

/// The share of one volume of another is what comes of rounding both, and then their quotient, to
/// the nearest number with 53 significant bits. Nothing of something is zero, something of nothing
/// is infinite, and nothing of nothing is no number.
pub proof fn law_share_is_rounded_quotient(volume: nat, base_volume: nat)
    ensures
        volume > 0 && base_volume > 0 ==> (share(volume, base_volume) matches Share::Finite(d)
            && exists|a: Binary, b: Binary| #[trigger]
            is_rounded(a, volume, 1, 0) && #[trigger] is_rounded(b, base_volume, 1, 0) && is_rounded(
                d,
                a.mantissa,
                b.mantissa,
                a.exponent - b.exponent,
            )),
        volume == 0 && base_volume > 0 ==> share(volume, base_volume) is Zero,
        volume > 0 && base_volume == 0 ==> share(volume, base_volume) is Infinite,
        volume == 0 && base_volume == 0 ==> share(volume, base_volume) is NotANumber,
{
    if volume > 0 && base_volume > 0 {
        let a = nearest(volume, 1, 0);
        let b = nearest(base_volume, 1, 0);
        law_rounding_gives_the_nearest(volume, 1, 0);
        law_rounding_gives_the_nearest(base_volume, 1, 0);
        law_rounding_is_near(volume, 1, 0);
        law_rounding_is_near(base_volume, 1, 0);
        law_rounding_gives_the_nearest(a.mantissa, b.mantissa, a.exponent - b.exponent);
        assert(is_rounded(a, volume, 1, 0) && is_rounded(b, base_volume, 1, 0));
    }
}

/// The percentage of a share is a hundred times that share, rounded to the nearest number with 53
/// significant bits and then to the nearest integer, upwards from halfway, and it is 255 where that
/// is more. An infinite share has 255, and one that is zero or no number has none.
pub proof fn law_percent_is_rounded_share(share: Share, e: int)
    ensures
        share matches Share::Finite(d) ==> (d.mantissa > 0 && e <= 0 ==> exists|
            h: Binary,
        | #[trigger]
            is_rounded(h, 100 * d.mantissa, 1, d.exponent) && (e <= h.exponent ==> ({
                let unit = pow2((-e) as nat);
                let twice = 2 * lowered(h, e);
                let percent = percent_of(share);
                &&& percent <= 255
                &&& (2 * percent - 1) * unit <= twice
                &&& percent < 255 ==> twice < (2 * percent + 1) * unit
            }))),
        share is Infinite ==> percent_of(share) == 255,
        share is Zero || share is NotANumber ==> percent_of(share) == 0,
{
    if let Share::Finite(d) = share {
        if d.mantissa > 0 && e <= 0 {
            let h = nearest(100 * d.mantissa, 1, d.exponent);
            law_rounding_gives_the_nearest(100 * d.mantissa, 1, d.exponent);
            assert(is_rounded(h, 100 * d.mantissa, 1, d.exponent));
            if e <= h.exponent {
                law_rounding_to_integer(h, e);
                let unit = pow2((-e) as nat);
                let r = round_half_up(h);
                let percent = percent_of(share);
                lemma_pow2_pos((-e) as nat);
                assert((2 * percent - 1) * unit <= (2 * r - 1) * unit) by (nonlinear_arith)
                    requires
                        percent <= r,
                        unit > 0,
                ;
            }
        }
    }
}

/// The icon of a share goes by two limits: 333 and 666 thousandths, each rounded to the nearest number
/// with 53 significant bits. A share up to the first is low, one above it up to the second is medium,
/// and one above that is high. A muted sink and a share of zero have the icon for muted sinks, an
/// infinite share has the highest one, and what is no number has none.
pub proof fn law_icon_goes_by_limits(share: Share, e: int)
    ensures
        is_rounded(low_limit(), 333, 1000, 0),
        is_rounded(medium_limit(), 666, 1000, 0),
        icon_for(true, share) == Some(Icon::Muted),
        share is Zero ==> icon_for(false, share) == Some(Icon::Muted),
        share is Infinite ==> icon_for(false, share) == Some(Icon::High),
        share is NotANumber ==> icon_for(false, share) is None,
        share matches Share::Finite(d) ==> (e <= d.exponent && e <= low_limit().exponent && e
            <= medium_limit().exponent ==> icon_for(false, share) == (if lowered(d, e) <= lowered(
            low_limit(),
            e,
        ) {
            Some(Icon::Low)
        } else if lowered(d, e) <= lowered(medium_limit(), e) {
            Some(Icon::Medium)
        } else {
            Some(Icon::High)
        })),
{
    law_rounding_gives_the_nearest(333, 1000, 0);
    law_rounding_gives_the_nearest(666, 1000, 0);
    if let Share::Finite(d) = share {
        if e <= d.exponent && e <= low_limit().exponent && e <= medium_limit().exponent {
            law_order_is_that_of_values(d, low_limit(), e);
            law_order_is_that_of_values(d, medium_limit(), e);
        }
    }
}

/// `y` is `x` but for one part in two to the power of 53.
spec fn near(x: int, y: int) -> bool {
    0x1f_ffff_ffff_ffff * y <= 0x20_0000_0000_0000 * x <= 0x20_0000_0000_0001 * y
}

proof fn lemma_cancel(p: int, q: int, t: int)
    requires
        p * t <= q * t,
        t > 0,
    ensures
        p <= q,
{
    assert(p <= q) by (nonlinear_arith)
        requires
            p * t <= q * t,
            t > 0,
    ;
}

proof fn lemma_product_not_negative(x: int, y: int)
    requires
        x >= 0,
        y >= 0,
    ensures
        x * y >= 0,
{
    assert(x * y >= 0) by (nonlinear_arith)
        requires
            x >= 0,
            y >= 0,
    ;
}

proof fn lemma_regroup(p: int, q: int, r: int, s: int)
    ensures
        (p * q) * (r * s) == (p * r) * (q * s),
{
    assert((p * q) * (r * s) == (p * r) * (q * s)) by (nonlinear_arith);
}

/// Four bounds, each with a factor `e` and one of `x` and `y`, taken together.
proof fn lemma_from_above(
    h: int,
    b: int,
    c: int,
    d: int,
    a: int,
    v: int,
    t: int,
    f: int,
    e: int,
    x: int,
    y: int,
)
    requires
        h >= 0,
        b >= 0,
        c >= 0,
        d >= 0,
        a >= 0,
        v >= 0,
        t > 0,
        f >= 0,
        e > 0,
        x >= 0,
        y >= 0,
        h * x <= f * d * e,
        (c * d) * x <= (a * t) * e,
        a * x <= (v * t) * e,
        (b * t) * e <= c * y,
    ensures
        (h * b) * (x * x * x) <= (f * v * t) * (e * e * y),
{
    let te = t * e;
    assert(te > 0) by (nonlinear_arith)
        requires
            te == t * e,
            t > 0,
            e > 0,
    ;
    lemma_product_not_negative(x, x);
    lemma_product_not_negative(x * x, x);
    let w1 = h * (x * x * x);
    lemma_product_not_negative(h, x * x * x);
    lemma_mul_inequality((b * t) * e, c * y, w1);
    lemma_product_not_negative(c, y);
    let w2 = (c * y) * (x * x);
    lemma_product_not_negative(c * y, x * x);
    lemma_mul_inequality(h * x, f * d * e, w2);
    lemma_product_not_negative(f, e);
    lemma_product_not_negative(y, x);
    let w3 = (f * e) * (y * x);
    lemma_product_not_negative(f * e, y * x);
    lemma_mul_inequality((c * d) * x, (a * t) * e, w3);
    lemma_product_not_negative(te, f);
    lemma_product_not_negative(e, y);
    let w4 = (te * f) * (e * y);
    lemma_product_not_negative(te * f, e * y);
    lemma_mul_inequality(a * x, (v * t) * e, w4);
    let cube = x * x * x;
    assert((b * t) * e == b * te) by (nonlinear_arith)
        requires
            te == t * e,
    ;
    lemma_regroup(b, te, h, cube);
    assert((b * h) * (te * cube) == ((h * b) * cube) * te) by (nonlinear_arith);
    let cy = c * y;
    assert(cube == x * (x * x)) by (nonlinear_arith)
        requires
            cube == x * x * x,
    ;
    let square = x * x;
    assert(cy * (h * (x * square)) == (h * x) * (cy * square)) by (nonlinear_arith);
    let z = y * (x * x);
    lemma_regroup(d, f * e, c, z);
    assert(f * d * e == d * (f * e)) by (nonlinear_arith);
    assert(w2 == c * z) by (nonlinear_arith)
        requires
            w2 == (c * y) * (x * x),
            z == y * (x * x),
    ;
    assert(z == (y * x) * x) by (nonlinear_arith)
        requires
            z == y * (x * x),
    ;
    assert((f * e) * z == w3 * x) by (nonlinear_arith)
        requires
            z == (y * x) * x,
            w3 == (f * e) * (y * x),
    ;
    assert((d * c) * (w3 * x) == ((c * d) * x) * w3) by (nonlinear_arith);
    let u = f * e * y;
    assert(w3 == u * x) by (nonlinear_arith)
        requires
            w3 == (f * e) * (y * x),
            u == f * e * y,
    ;
    assert(w4 == te * u) by (nonlinear_arith)
        requires
            w4 == (te * f) * (e * y),
            u == f * e * y,
    ;
    assert((a * t) * e == a * te) by (nonlinear_arith)
        requires
            te == t * e,
    ;
    assert((a * te) * (u * x) == (a * x) * (te * u)) by (nonlinear_arith);
    let vt = v * t;
    let vte = vt * e;
    assert(f * v * t == vt * f) by (nonlinear_arith)
        requires
            vt == v * t,
    ;
    assert(e * e * y == e * (e * y)) by (nonlinear_arith);
    lemma_regroup(vt, f, e, e * y);
    assert(f * (e * y) == u) by (nonlinear_arith)
        requires
            u == f * e * y,
    ;
    assert(vte * (te * u) == (vte * u) * te) by (nonlinear_arith);
    lemma_cancel((h * b) * (x * x * x), (f * v * t) * (e * e * y), te);
}

/// The same the other way round.
proof fn lemma_from_below(
    h: int,
    b: int,
    c: int,
    d: int,
    a: int,
    v: int,
    t: int,
    f: int,
    e: int,
    x: int,
    y: int,
)
    requires
        h >= 0,
        b >= 0,
        c >= 0,
        d >= 0,
        a >= 0,
        v >= 0,
        t > 0,
        f >= 0,
        e > 0,
        x >= 0,
        y >= 0,
        f * d * e <= h * y,
        (a * t) * e <= (c * d) * y,
        (v * t) * e <= a * y,
        c * x <= (b * t) * e,
    ensures
        (f * v * t) * (e * e * x) <= (h * b) * (y * y * y),
{
    let te = t * e;
    assert(te > 0) by (nonlinear_arith)
        requires
            te == t * e,
            t > 0,
            e > 0,
    ;
    lemma_product_not_negative(y, y);
    lemma_product_not_negative(y * y, y);
    let w1 = h * (y * y * y);
    lemma_product_not_negative(h, y * y * y);
    lemma_mul_inequality(c * x, (b * t) * e, w1);
    lemma_product_not_negative(c, x);
    let w2 = (c * x) * (y * y);
    lemma_product_not_negative(c * x, y * y);
    lemma_mul_inequality(f * d * e, h * y, w2);
    lemma_product_not_negative(f, e);
    lemma_product_not_negative(x, y);
    let w3 = (f * e) * (x * y);
    lemma_product_not_negative(f * e, x * y);
    lemma_mul_inequality((a * t) * e, (c * d) * y, w3);
    lemma_product_not_negative(te, f);
    lemma_product_not_negative(e, x);
    let w4 = (te * f) * (e * x);
    lemma_product_not_negative(te * f, e * x);
    lemma_mul_inequality((v * t) * e, a * y, w4);
    let cube = y * y * y;
    assert((b * t) * e == b * te) by (nonlinear_arith)
        requires
            te == t * e,
    ;
    lemma_regroup(b, te, h, cube);
    assert((b * h) * (te * cube) == ((h * b) * cube) * te) by (nonlinear_arith);
    let cy = c * x;
    assert(cube == y * (y * y)) by (nonlinear_arith)
        requires
            cube == y * y * y,
    ;
    let square = y * y;
    assert(cy * (h * (y * square)) == (h * y) * (cy * square)) by (nonlinear_arith);
    let z = x * (y * y);
    lemma_regroup(d, f * e, c, z);
    assert(f * d * e == d * (f * e)) by (nonlinear_arith);
    assert(w2 == c * z) by (nonlinear_arith)
        requires
            w2 == (c * x) * (y * y),
            z == x * (y * y),
    ;
    assert(z == (x * y) * y) by (nonlinear_arith)
        requires
            z == x * (y * y),
    ;
    assert((f * e) * z == w3 * y) by (nonlinear_arith)
        requires
            z == (x * y) * y,
            w3 == (f * e) * (x * y),
    ;
    assert((d * c) * (w3 * y) == ((c * d) * y) * w3) by (nonlinear_arith);
    let u = f * e * x;
    assert(w3 == u * y) by (nonlinear_arith)
        requires
            w3 == (f * e) * (x * y),
            u == f * e * x,
    ;
    assert(w4 == te * u) by (nonlinear_arith)
        requires
            w4 == (te * f) * (e * x),
            u == f * e * x,
    ;
    assert((a * t) * e == a * te) by (nonlinear_arith)
        requires
            te == t * e,
    ;
    assert((a * te) * (u * y) == (a * y) * (te * u)) by (nonlinear_arith);
    let vt = v * t;
    let vte = vt * e;
    assert(f * v * t == vt * f) by (nonlinear_arith)
        requires
            vt == v * t,
    ;
    assert(e * e * x == e * (e * x)) by (nonlinear_arith);
    lemma_regroup(vt, f, e, e * x);
    assert(f * (e * x) == u) by (nonlinear_arith)
        requires
            u == f * e * x,
    ;
    assert(vte * (te * u) == (vte * u) * te) by (nonlinear_arith);
    lemma_cancel((f * v * t) * (e * e * x), (h * b) * (y * y * y), te);
}

proof fn lemma_near(x: nat, y: nat)
    requires
        2 * LEAST_MANTISSA * distance(x, y) <= y,
    ensures
        near(x as int, y as int),
{
    let gap = distance(x, y);
    let parts = 2 * LEAST_MANTISSA as int;
    assert(0x20_0000_0000_0000 * gap <= y) by (nonlinear_arith)
        requires
            parts * gap <= y,
            parts == 0x20_0000_0000_0000,
    ;
}

proof fn lemma_near_scaled(x: int, y: int, f: int)
    requires
        near(x, y),
        f >= 0,
    ensures
        near(x * f, y * f),
{
    let e: int = 0x20_0000_0000_0000;
    lemma_mul_inequality((e - 1) * y, e * x, f);
    lemma_mul_inequality(e * x, (e + 1) * y, f);
    assert(((e - 1) * y) * f == (e - 1) * (y * f)) by (nonlinear_arith);
    assert((e * x) * f == e * (x * f)) by (nonlinear_arith);
    assert(((e + 1) * y) * f == (e + 1) * (y * f)) by (nonlinear_arith);
}

/// With all exponents lowered to the same one, a volume, a base volume and their quotient are near to
/// what they are rounded to.
proof fn lemma_share_is_near(volume: nat, base_volume: nat, e: int)
    requires
        volume > 0,
        base_volume > 0,
        ({
            let a = nearest(volume, 1, 0);
            let b = nearest(base_volume, 1, 0);
            let d = nearest(a.mantissa, b.mantissa, a.exponent - b.exponent);
            e <= 0 && e <= a.exponent && e <= b.exponent && e <= a.exponent - b.exponent && e
                <= d.exponent
        }),
    ensures
        ({
            let a = nearest(volume, 1, 0);
            let b = nearest(base_volume, 1, 0);
            let d = nearest(a.mantissa, b.mantissa, a.exponent - b.exponent);
            let unit = pow2((-e) as nat);
            &&& near((volume * unit) as int, lowered(a, e) as int)
            &&& near((base_volume * unit) as int, lowered(b, e) as int)
            &&& near((lowered(a, e) * unit) as int, (lowered(b, e) * lowered(d, e)) as int)
        }),
{
    let a = nearest(volume, 1, 0);
    let b = nearest(base_volume, 1, 0);
    let k = a.exponent - b.exponent;
    let d = nearest(a.mantissa, b.mantissa, k);
    let unit = pow2((-e) as nat);
    law_rounding_is_near(volume, 1, 0);
    law_rounding_is_near(base_volume, 1, 0);
    law_rounding_error_is_small(volume, 1, 0, e);
    law_rounding_error_is_small(base_volume, 1, 0, e);
    law_rounding_error_is_small(a.mantissa, b.mantissa, k, e);
    assert(1 * lowered(a, e) == lowered(a, e) && 1 * lowered(b, e) == lowered(b, e));
    assert(0 - e == -e);
    lemma_near(volume * unit, lowered(a, e));
    lemma_near(base_volume * unit, lowered(b, e));
    let exact = a.mantissa * pow2((k - e) as nat);
    let rounded = b.mantissa * lowered(d, e);
    lemma_near(exact, rounded);
    let x = pow2((b.exponent - e) as nat);
    lemma_near_scaled(exact as int, rounded as int, x as int);
    let f = pow2((k - e) as nat);
    let g = pow2((a.exponent - e) as nat);
    lemma_pow2_adds((k - e) as nat, (b.exponent - e) as nat);
    lemma_pow2_adds((a.exponent - e) as nat, (-e) as nat);
    assert((k - e) + (b.exponent - e) == (a.exponent - e) + (-e));
    assert(f * x == g * unit);
    let m = a.mantissa;
    assert(exact * x == lowered(a, e) * unit) by (nonlinear_arith)
        requires
            exact == m * f,
            lowered(a, e) == m * g,
            f * x == g * unit,
    ;
    let n = b.mantissa;
    let q = lowered(d, e);
    assert(rounded * x == lowered(b, e) * q) by (nonlinear_arith)
        requires
            rounded == n * q,
            lowered(b, e) == n * x,
    ;
}

/// A bound that is off by a ratio, told in a smaller number of parts.
proof fn lemma_parts(p: int, q: int, low: int, high: int)
    requires
        0 <= q,
        0 < low,
        p * low <= q * high,
        high * 0x4_0000_0000_0000 <= low * 0x4_0000_0000_0001,
    ensures
        p * PARTS <= q * (PARTS + 1),
{
    let s: int = 0x4_0000_0000_0000;
    lemma_mul_inequality(p * low, q * high, s);
    lemma_mul_inequality(high * s, low * (s + 1), q);
    assert((q * high) * s == (high * s) * q) by (nonlinear_arith);
    assert((low * (s + 1)) * q == (q * (s + 1)) * low) by (nonlinear_arith);
    assert((p * low) * s == (p * s) * low) by (nonlinear_arith);
    lemma_cancel(p * s, q * (s + 1), low);
}

/// The percentage comes as near to the exact one as can be: with `percent` for a volume, a hundred
/// times the volume lies between `percent` minus and plus a half times the base volume, but for one
/// part in two to the power of 50. Where it is 255, it may be more.
pub proof fn law_percent_is_near(volume: nat, base_volume: nat)
    requires
        base_volume > 0,
    ensures
        ({
            let percent = percent_of(share(volume, base_volume));
            &&& percent <= 255
            &&& (2 * percent - 1) * base_volume * PARTS <= 200 * volume * (PARTS + 1)
            &&& percent < 255 ==> 200 * volume * PARTS <= (2 * percent + 1) * base_volume * (PARTS
                + 1)
        }),
{
    let percent = percent_of(share(volume, base_volume));
    let base = base_volume as int;
    if volume == 0 {
        assert(percent == 0);
        assert((2 * percent - 1) * base == -base && (2 * percent + 1) * base == base)
            by (nonlinear_arith)
            requires
                percent == 0,
        ;
    } else {
        let a = nearest(volume, 1, 0);
        let b = nearest(base_volume, 1, 0);
        let k = a.exponent - b.exponent;
        law_rounding_is_near(volume, 1, 0);
        law_rounding_is_near(base_volume, 1, 0);
        let d = nearest(a.mantissa, b.mantissa, k);
        law_rounding_is_near(a.mantissa, b.mantissa, k);
        let h = nearest(100 * d.mantissa, 1, d.exponent);
        let r = round_half_up(h);
        let e = least(
            0,
            least(
                a.exponent,
                least(b.exponent, least(a.exponent - b.exponent, least(d.exponent, h.exponent))),
            ),
        );
        let t = pow2((-e) as nat);
        lemma_pow2_pos((-e) as nat);
        lemma_share_is_near(volume, base_volume, e);
        law_rounding_error_is_small(100 * d.mantissa, 1, d.exponent, e);
        let f = pow2((d.exponent - e) as nat);
        assert((100 * d.mantissa) * f == 100 * (d.mantissa * f)) by (nonlinear_arith);
        let low_d = lowered(d, e);
        let low_h = lowered(h, e);
        assert(1 * low_h == low_h);
        lemma_near(100 * low_d, low_h);
        law_rounding_to_integer(h, e);
        lemma_percent(
            low_h as int,
            base,
            lowered(b, e) as int,
            low_d as int,
            lowered(a, e) as int,
            volume as int,
            t as int,
            r as int,
        );
        if r >= 255 {
            assert(509 * base <= (2 * r - 1) * base) by (nonlinear_arith)
                requires
                    r >= 255,
                    base > 0,
            ;
        }
    }
}

proof fn lemma_percent(h: int, b: int, c: int, d: int, a: int, v: int, t: int, r: int)
    requires
        h >= 0,
        b > 0,
        c >= 0,
        d >= 0,
        a >= 0,
        v >= 0,
        t > 0,
        r >= 0,
        near(v * t, a),
        near(b * t, c),
        near(a * t, c * d),
        near(100 * d, h),
        (2 * r - 1) * t <= 2 * h,
        2 * h <= (2 * r + 1) * t,
    ensures
        (2 * r - 1) * b * PARTS <= 200 * v * (PARTS + 1),
        200 * v * PARTS <= (2 * r + 1) * b * (PARTS + 1),
{
    let e: int = 0x20_0000_0000_0000;
    let x: int = 0x1f_ffff_ffff_ffff;
    let y: int = 0x20_0000_0000_0001;
    lemma_from_above(h, b, c, d, a, v, t, 100, e, x, y);
    lemma_from_below(h, b, c, d, a, v, t, 100, e, x, y);
    let high = e * e * y;
    let low = x * x * x;
    let over = y * y * y;
    let under = e * e * x;
    assert(low > 0 && under > 0 && high * 0x4_0000_0000_0000 <= low * 0x4_0000_0000_0001 && over
        * 0x4_0000_0000_0000 <= under * 0x4_0000_0000_0001) by (nonlinear_arith)
        requires
            e == 0x20_0000_0000_0000,
            x == 0x1f_ffff_ffff_ffff,
            y == 0x20_0000_0000_0001,
            high == e * e * y,
            low == x * x * x,
            over == y * y * y,
            under == e * e * x,
    ;
    // Twice the bounds, with the integer in the place of what it was rounded from.
    lemma_mul_inequality((2 * r - 1) * t, 2 * h, b);
    lemma_mul_inequality(2 * h, (2 * r + 1) * t, b);
    let p = (2 * r - 1) * b;
    let q = (2 * r + 1) * b;
    assert(((2 * r - 1) * t) * b == p * t) by (nonlinear_arith)
        requires
            p == (2 * r - 1) * b,
    ;
    assert(((2 * r + 1) * t) * b == q * t) by (nonlinear_arith)
        requires
            q == (2 * r + 1) * b,
    ;
    assert((2 * h) * b == 2 * (h * b)) by (nonlinear_arith);
    lemma_mul_inequality(p * t, 2 * (h * b), low);
    lemma_mul_inequality(2 * (h * b), q * t, over);
    let w = 200 * v;
    assert(100 * v * t == (100 * v) * t);
    assert((p * t) * low == (p * low) * t) by (nonlinear_arith);
    assert((q * t) * over == (q * over) * t) by (nonlinear_arith);
    assert((2 * (h * b)) * low == 2 * ((h * b) * low)) by (nonlinear_arith);
    assert((2 * (h * b)) * over == 2 * ((h * b) * over)) by (nonlinear_arith);
    assert(2 * ((100 * v * t) * high) == (w * high) * t) by (nonlinear_arith)
        requires
            w == 200 * v,
    ;
    assert(2 * ((100 * v * t) * under) == (w * under) * t) by (nonlinear_arith)
        requires
            w == 200 * v,
    ;
    lemma_cancel(p * low, w * high, t);
    lemma_cancel(w * under, q * over, t);
    lemma_product_not_negative(2 * r + 1, b);
    if r >= 1 {
        lemma_product_not_negative(2 * r - 1, b);
        lemma_parts(p, w, low, high);
    } else {
        assert(p == -b) by (nonlinear_arith)
            requires
                p == (2 * r - 1) * b,
                r == 0,
        ;
    }
    lemma_parts(w, q, under, over);
}

/// With a base volume of at most two to the power of 40, the percentage is the integer nearest to the
/// exact one, or 255 where that is less.
pub proof fn law_percent_is_nearest(volume: nat, base_volume: nat)
    requires
        0 < base_volume <= 0x100_0000_0000,
    ensures
        ({
            let percent = percent_of(share(volume, base_volume));
            &&& percent <= 255
            &&& (2 * percent - 1) * base_volume <= 200 * volume
            &&& percent < 255 ==> 200 * volume <= (2 * percent + 1) * base_volume
        }),
{
    let percent = percent_of(share(volume, base_volume));
    let w = 200 * volume as int;
    let s = PARTS as int;
    let p = (2 * percent - 1) * base_volume;
    let q = (2 * percent + 1) * base_volume;
    law_percent_is_near(volume, base_volume);
    assert(p <= 509 * base_volume) by (nonlinear_arith)
        requires
            p == (2 * percent - 1) * base_volume,
            percent <= 255,
    ;
    assert(q <= 511 * base_volume) by (nonlinear_arith)
        requires
            q == (2 * percent + 1) * base_volume,
            percent <= 255,
    ;
    lemma_off_by_less_than_one(p as int, w);
    if percent < 255 {
        lemma_off_by_less_than_one(w, q as int);
    }
}

proof fn lemma_off_by_less_than_one(p: int, q: int)
    requires
        p * PARTS <= q * (PARTS + 1),
        p < PARTS || q < PARTS,
    ensures
        p <= q,
{
    let s: int = 0x4_0000_0000_0000;
    if p > q {
        assert(false) by (nonlinear_arith)
            requires
                p * s <= q * (s + 1),
                p >= q + 1,
                p < s || q < s,
                s > 0,
        ;
    }
}

proof fn lemma_within_limit(b: int, c: int, d: int, a: int, v: int, t: int, f: int, l: int)
    requires
        b > 0,
        c >= 0,
        d >= 0,
        a >= 0,
        v >= 0,
        t > 0,
        f >= 0,
        near(v * t, a),
        near(b * t, c),
        near(a * t, c * d),
        near(f * t, 1000 * l),
        d <= l,
    ensures
        1000 * v * PARTS <= f * b * (PARTS + 1),
{
    let e: int = 0x20_0000_0000_0000;
    let x: int = 0x1f_ffff_ffff_ffff;
    let y: int = 0x20_0000_0000_0001;
    lemma_ends_below(v, b, c, d, a, t, f, e, x, y);
    lemma_product_not_negative(f, b);
    assert(y * y * 0x4_0000_0000_0000 <= x * x * 0x4_0000_0000_0001 && x * x > 0)
        by (nonlinear_arith)
        requires
            x == 0x1f_ffff_ffff_ffff,
            y == 0x20_0000_0000_0001,
    ;
    lemma_parts(1000 * v, f * b, x * x, y * y);
}

proof fn lemma_ends_below(
    v: int,
    b: int,
    c: int,
    d: int,
    a: int,
    t: int,
    f: int,
    e: int,
    x: int,
    y: int,
)
    requires
        b >= 0,
        c >= 0,
        d >= 0,
        a >= 0,
        v >= 0,
        t > 0,
        f >= 0,
        e > 0,
        x >= 0,
        y >= 0,
        (v * t) * e <= a * y,
        (a * t) * e <= (c * d) * y,
        c * x <= (b * t) * e,
        (1000 * d) * x <= (f * t) * e,
    ensures
        (1000 * v) * (x * x) <= (f * b) * (y * y),
{
    let te = t * e;
    assert(te > 0) by (nonlinear_arith)
        requires
            te == t * e,
            t > 0,
            e > 0,
    ;
    assert((v * t) * e == v * te && (a * t) * e == a * te && (b * t) * e == b * te && (f * t) * e
        == f * te) by (nonlinear_arith)
        requires
            te == t * e,
    ;
    let xx = x * x;
    let yy = y * y;
    lemma_product_not_negative(x, x);
    lemma_product_not_negative(y, y);
    lemma_product_not_negative(te, xx);
    lemma_product_not_negative(y, xx);
    let w1 = te * xx;
    let w2 = y * xx;
    lemma_mul_inequality(v * te, a * y, w1);
    lemma_mul_inequality(a * te, (c * d) * y, w2);
    // (a y)(te xx) and (a te)(y xx) are the same.
    lemma_regroup(a, y, te, xx);
    let dx = (1000 * d) * x;
    lemma_product_not_negative(1000 * d, x);
    lemma_mul_inequality(c * x, b * te, dx);
    lemma_product_not_negative(b, te);
    lemma_mul_inequality(dx, f * te, b * te);
    // 1000 (c d y)(y xx) is (c x)(1000 d x)(y y).
    assert(1000 * (((c * d) * y) * w2) == ((c * x) * dx) * yy) by {
        let cd = c * d;
        assert((cd * y) * w2 == cd * (yy * xx)) by (nonlinear_arith)
            requires
                w2 == y * xx,
                yy == y * y,
        ;
        lemma_regroup(c, x, 1000 * d, x);
        assert(c * (1000 * d) == 1000 * cd) by (nonlinear_arith)
            requires
                cd == c * d,
        ;
        assert(((1000 * cd) * xx) * yy == 1000 * (cd * (yy * xx))) by (nonlinear_arith);
    }
    let tete = te * te;
    assert(tete > 0) by (nonlinear_arith)
        requires
            tete == te * te,
            te > 0,
    ;
    assert(((1000 * v) * xx) * tete == 1000 * ((v * te) * w1)) by (nonlinear_arith)
        requires
            w1 == te * xx,
            tete == te * te,
    ;
    let bt = b * te;
    let ft = f * te;
    assert((c * x) * dx <= ft * bt);
    lemma_mul_inequality((c * x) * dx, ft * bt, yy);
    lemma_regroup(f, te, b, te);
    assert(((f * b) * tete) * yy == ((f * b) * yy) * tete) by (nonlinear_arith);
    lemma_cancel((1000 * v) * xx, (f * b) * yy, tete);
}

proof fn lemma_beyond_limit(b: int, c: int, d: int, a: int, v: int, t: int, f: int, l: int)
    requires
        b > 0,
        c >= 0,
        d >= 0,
        a >= 0,
        v >= 0,
        t > 0,
        f >= 0,
        l >= 0,
        near(v * t, a),
        near(b * t, c),
        near(a * t, c * d),
        near(f * t, 1000 * l),
        l <= d,
    ensures
        f * b * PARTS <= 1000 * v * (PARTS + 1),
{
    let e: int = 0x20_0000_0000_0000;
    let x: int = 0x1f_ffff_ffff_ffff;
    let y: int = 0x20_0000_0000_0001;
    lemma_ends_above(v, b, c, d, a, t, f, e, x, y);
    assert(y * y * 0x4_0000_0000_0000 <= x * x * 0x4_0000_0000_0001 && x * x > 0)
        by (nonlinear_arith)
        requires
            x == 0x1f_ffff_ffff_ffff,
            y == 0x20_0000_0000_0001,
    ;
    lemma_parts(f * b, 1000 * v, x * x, y * y);
}

proof fn lemma_ends_above(
    v: int,
    b: int,
    c: int,
    d: int,
    a: int,
    t: int,
    f: int,
    e: int,
    x: int,
    y: int,
)
    requires
        b >= 0,
        c >= 0,
        d >= 0,
        a >= 0,
        v >= 0,
        t > 0,
        f >= 0,
        e > 0,
        x >= 0,
        y >= 0,
        a * x <= (v * t) * e,
        (c * d) * x <= (a * t) * e,
        (b * t) * e <= c * y,
        (f * t) * e <= (1000 * d) * y,
    ensures
        (f * b) * (x * x) <= (1000 * v) * (y * y),
{
    let te = t * e;
    assert(te > 0) by (nonlinear_arith)
        requires
            te == t * e,
            t > 0,
            e > 0,
    ;
    assert((v * t) * e == v * te && (a * t) * e == a * te && (b * t) * e == b * te && (f * t) * e
        == f * te) by (nonlinear_arith)
        requires
            te == t * e,
    ;
    let xx = x * x;
    let yy = y * y;
    lemma_product_not_negative(x, x);
    lemma_product_not_negative(y, y);
    let dy = (1000 * d) * y;
    lemma_product_not_negative(b, te);
    lemma_mul_inequality(f * te, dy, b * te);
    lemma_product_not_negative(1000 * d, y);
    lemma_mul_inequality(b * te, c * y, dy);
    let bt = b * te;
    let ft = f * te;
    assert(dy * bt == bt * dy) by (nonlinear_arith);
    assert(ft * bt <= (c * y) * dy);
    lemma_mul_inequality(ft * bt, (c * y) * dy, xx);
    let tete = te * te;
    assert(tete > 0) by (nonlinear_arith)
        requires
            tete == te * te,
            te > 0,
    ;
    lemma_regroup(f, te, b, te);
    assert(((f * b) * tete) * xx == ((f * b) * xx) * tete) by (nonlinear_arith);
    // (c y)(1000 d y)(x x) is 1000 (c d x)(y y x).
    let cd = c * d;
    lemma_product_not_negative(yy, x);
    let w1 = yy * x;
    lemma_mul_inequality(cd * x, a * te, w1);
    lemma_regroup(c, y, 1000 * d, y);
    assert(c * (1000 * d) == 1000 * cd) by (nonlinear_arith)
        requires
            cd == c * d,
    ;
    assert(((1000 * cd) * yy) * xx == 1000 * ((cd * x) * w1)) by (nonlinear_arith)
        requires
            w1 == yy * x,
            xx == x * x,
    ;
    // (a te)(y y x) is (a x)(te y y).
    lemma_product_not_negative(te, yy);
    let w2 = te * yy;
    lemma_mul_inequality(a * x, v * te, w2);
    assert((a * te) * w1 == (a * x) * w2) by (nonlinear_arith)
        requires
            w1 == yy * x,
            w2 == te * yy,
    ;
    assert(1000 * ((v * te) * w2) == ((1000 * v) * yy) * tete) by (nonlinear_arith)
        requires
            w2 == te * yy,
            tete == te * te,
    ;
    lemma_cancel((f * b) * xx, (1000 * v) * yy, tete);
}

/// The place of a share among limits, with all exponents lowered to the same one.
proof fn lemma_limit(volume: nat, base_volume: nat, thousandths: nat)
    requires
        volume > 0,
        base_volume > 0,
        thousandths > 0,
    ensures
        share(volume, base_volume) is Finite,
        at_most(share(volume, base_volume)->Finite_0, nearest(thousandths, 1000, 0)) ==> 1000
            * volume * PARTS <= thousandths * base_volume * (PARTS + 1),
        !at_most(share(volume, base_volume)->Finite_0, nearest(thousandths, 1000, 0))
            ==> thousandths * base_volume * PARTS <= 1000 * volume * (PARTS + 1),
{
    let a = nearest(volume, 1, 0);
    let b = nearest(base_volume, 1, 0);
    let k = a.exponent - b.exponent;
    law_rounding_is_near(volume, 1, 0);
    law_rounding_is_near(base_volume, 1, 0);
    let d = nearest(a.mantissa, b.mantissa, k);
    let l = nearest(thousandths, 1000, 0);
    let e = least(
        0,
        least(
            a.exponent,
            least(b.exponent, least(a.exponent - b.exponent, least(d.exponent, l.exponent))),
        ),
    );
    let t = pow2((-e) as nat);
    lemma_pow2_pos((-e) as nat);
    lemma_share_is_near(volume, base_volume, e);
    law_rounding_error_is_small(thousandths, 1000, 0, e);
    assert(0 - e == -e);
    lemma_near(thousandths * t, 1000 * lowered(l, e));
    law_order_is_that_of_values(d, l, e);
    let low_a = lowered(a, e) as int;
    let low_b = lowered(b, e) as int;
    let low_d = lowered(d, e) as int;
    let low_l = lowered(l, e) as int;
    let v = volume as int;
    let base = base_volume as int;
    let f = thousandths as int;
    if low_d <= low_l {
        lemma_within_limit(base, low_b, low_d, low_a, v, t as int, f, low_l);
    } else {
        lemma_beyond_limit(base, low_b, low_d, low_a, v, t as int, f, low_l);
    }
}

/// The icon goes by the exact share, but for one part in two to the power of 50: it is low up to 333
/// thousandths, medium from there up to 666 thousandths, and high from there on.
pub proof fn law_icon_is_near(volume: nat, base_volume: nat)
    requires
        base_volume > 0,
    ensures
        match icon_for(false, share(volume, base_volume)) {
            Some(Icon::Muted) => volume == 0,
            Some(Icon::Low) => volume > 0 && 1000 * volume * PARTS <= 333 * base_volume * (PARTS + 1),
            Some(Icon::Medium) => 333 * base_volume * PARTS <= 1000 * volume * (PARTS + 1) && 1000
                * volume * PARTS <= 666 * base_volume * (PARTS + 1),
            Some(Icon::High) => 666 * base_volume * PARTS <= 1000 * volume * (PARTS + 1),
            None => false,
        },
        volume == 0 ==> icon_for(false, share(volume, base_volume)) == Some(Icon::Muted),
{
    if volume > 0 {
        lemma_limit(volume, base_volume, 333);
        lemma_limit(volume, base_volume, 666);
    }
}

/// A number with at most 52 bits is not changed by rounding.
proof fn lemma_small_is_exact(n: nat, e: int)
    requires
        0 < n < LEAST_MANTISSA,
        e <= 0,
        e <= nearest(n, 1, 0).exponent,
    ensures
        lowered(nearest(n, 1, 0), e) == n * pow2((-e) as nat),
{
    let a = nearest(n, 1, 0);
    let places = a.exponent;
    let m = a.mantissa;
    law_rounding_gives_the_nearest(n, 1, 0);
    lemma_up(places);
    lemma_up(-places);
    assert(a.exponent - 0 == places && 0 - a.exponent == -places);
    if places > 0 {
        let u = up(places);
        assert(n * up(-places) == n);
        assert(1 * u == u);
        assert(LEAST_MANTISSA * u >= LEAST_MANTISSA) by (nonlinear_arith)
            requires
                u >= 1,
        ;
        assert(false);
    }
    let x = pow2((-places) as nat);
    lemma2_to64();
    assert(up(-places) == x) by {
        if places == 0 {
            assert(x == 1);
        }
    }
    assert(1 * up(places) == 1 && m * 1 == m);
    assert(m == n * x);
    let f = pow2((a.exponent - e) as nat);
    lemma_pow2_adds((-places) as nat, (a.exponent - e) as nat);
    assert((n * x) * f == n * (x * f)) by (nonlinear_arith);
}

/// Where neither volume is changed by rounding, a share up to a limit stays up to it.
proof fn lemma_up_to_limit(volume: nat, base_volume: nat, thousandths: nat)
    requires
        0 < volume < LEAST_MANTISSA,
        0 < base_volume < LEAST_MANTISSA,
        thousandths > 0,
        1000 * volume <= thousandths * base_volume,
    ensures
        share(volume, base_volume) is Finite,
        at_most(share(volume, base_volume)->Finite_0, nearest(thousandths, 1000, 0)),
{
    let a = nearest(volume, 1, 0);
    let b = nearest(base_volume, 1, 0);
    let k = a.exponent - b.exponent;
    law_rounding_is_near(volume, 1, 0);
    law_rounding_is_near(base_volume, 1, 0);
    let e = least(0, least(a.exponent, b.exponent));
    let t = pow2((-e) as nat);
    lemma_pow2_pos((-e) as nat);
    lemma_small_is_exact(volume, e);
    lemma_small_is_exact(base_volume, e);
    let common = least(a.exponent, b.exponent);
    let x = pow2((common - e) as nat);
    lemma_pow2_pos((common - e) as nat);
    let u = up(k);
    let v = up(-k);
    lemma_up(k);
    lemma_up(-k);
    lemma2_to64();
    if k >= 0 {
        lemma_pow2_adds(k as nat, (common - e) as nat);
        assert(v == 1);
    } else {
        lemma_pow2_adds((-k) as nat, (common - e) as nat);
        assert(u == 1);
    }
    let m = a.mantissa;
    let n = b.mantissa;
    assert(pow2((a.exponent - e) as nat) == u * x) by {
        assert(1 * x == x);
    }
    assert(pow2((b.exponent - e) as nat) == v * x) by {
        assert(1 * x == x);
    }
    assert(m * (u * x) == volume * t);
    assert(n * (v * x) == base_volume * t);
    let f = thousandths;
    lemma_mul_inequality((1000 * volume) as int, (f * base_volume) as int, t as int);
    assert((1000 * volume) * t == 1000 * (volume * t)) by (nonlinear_arith);
    assert((f * base_volume) * t == f * (base_volume * t)) by (nonlinear_arith);
    assert((m * 1000 * u) * x == 1000 * (m * (u * x))) by (nonlinear_arith);
    assert((f * n * v) * x == f * (n * (v * x))) by (nonlinear_arith);
    lemma_cancel((m * 1000 * u) as int, (f * n * v) as int, x as int);
    assert(0 - k == -k && k - 0 == k);
    assert(scaled_at_most(m, n, k, f, 1000, 0));
    law_rounding_keeps_order(m, n, k, f, 1000, 0);
}

/// With a base volume of at most two to the power of 40, the icon goes by the exact share: a volume of
/// nothing has the icon for muted sinks, one of up to 333 thousandths is low, one of more up to 666
/// thousandths is medium, and one of more than that is high.
pub proof fn law_icon_is_exact(volume: nat, base_volume: nat)
    requires
        0 < base_volume <= 0x100_0000_0000,
    ensures
        icon_for(false, share(volume, base_volume)) == (if volume == 0 {
            Some(Icon::Muted)
        } else if 1000 * volume <= 333 * base_volume {
            Some(Icon::Low)
        } else if 1000 * volume <= 666 * base_volume {
            Some(Icon::Medium)
        } else {
            Some(Icon::High)
        }),
        icon_for(true, share(volume, base_volume)) == Some(Icon::Muted),
{
    if volume > 0 {
        lemma_limit(volume, base_volume, 333);
        lemma_limit(volume, base_volume, 666);
        let d = share(volume, base_volume)->Finite_0;
        if at_most(d, low_limit()) {
            lemma_off_by_less_than_one((1000 * volume) as int, (333 * base_volume) as int);
        } else if 1000 * volume <= 333 * base_volume {
            lemma_up_to_limit(volume, base_volume, 333);
        }
        if at_most(d, medium_limit()) {
            lemma_off_by_less_than_one((1000 * volume) as int, (666 * base_volume) as int);
        } else if 1000 * volume <= 666 * base_volume {
            lemma_up_to_limit(volume, base_volume, 666);
        }
    }
}

} // verus!
