//! How loud a volume is: its share of the base volume, the icon and the percentage that stand
//! for that share.
use crate::double::{
    at_most, nearest, nearest_double, round_half_even, round_half_up, Binary, Double,
    LEAST_MANTISSA,
};
use crate::double_order::{
    law_rounding_is_near, law_rounding_keeps_order, lemma_at_most_transitive,
    lemma_round_half_up_ordered, lemma_scale_both, lemma_spare_power,
};
use crate::text::{decimal, decimal_text, is_numeral, law_decimal_reads_back, value_of};
use vstd::arithmetic::div_mod::lemma_fundamental_div_mod_converse;
use vstd::arithmetic::power2::{lemma2_to64, lemma2_to64_rest, pow2};
use vstd::prelude::*;
use vstd::string::StringExecFns;

verus! {

/// The share of the base volume that a volume makes up, in floating point.
#[derive(Clone, Copy, Debug, PartialEq, Eq, Structural)]
pub enum Fraction {
    /// Nothing of nothing.
    NotANumber,
    /// Something of nothing.
    Infinite,
    /// Nothing of something.
    Zero,
    /// Something of something.
    Finite(Double),
}

/// A [`Fraction`] over mathematical numbers.
pub enum Share {
    NotANumber,
    Infinite,
    Zero,
    Finite(Binary),
}

impl View for Fraction {
    type V = Share;

    open spec fn view(&self) -> Share {
        match *self {
            Fraction::NotANumber => Share::NotANumber,
            Fraction::Infinite => Share::Infinite,
            Fraction::Zero => Share::Zero,
            Fraction::Finite(d) => Share::Finite(d@),
        }
    }
}

impl Fraction {
    /// What every fraction of two volumes keeps to.
    pub open spec fn well_formed(self) -> bool {
        self matches Fraction::Finite(d) ==> d.well_formed() && -500 <= d.exponent <= 500
    }
}

/// The share that `volume` makes up of `base_volume`: both are rounded to floating point, and so
/// is their quotient.
pub open spec fn share(volume: nat, base_volume: nat) -> Share {
    if base_volume == 0 {
        if volume == 0 {
            Share::NotANumber
        } else {
            Share::Infinite
        }
    } else if volume == 0 {
        Share::Zero
    } else {
        let a = nearest(volume, 1, 0);
        let b = nearest(base_volume, 1, 0);
        Share::Finite(nearest(a.mantissa, b.mantissa, a.exponent - b.exponent))
    }
}

/// The share that `volume` makes up of `base_volume`.
pub fn volume_fraction(volume: u64, base_volume: u64) -> (fraction: Fraction)
    ensures
        fraction@ == share(volume as nat, base_volume as nat),
        fraction.well_formed(),
{
    if base_volume == 0 {
        if volume == 0 {
            Fraction::NotANumber
        } else {
            Fraction::Infinite
        }
    } else if volume == 0 {
        Fraction::Zero
    } else {
        let a = nearest_double(volume, 1, 0);
        let b = nearest_double(base_volume, 1, 0);
        Fraction::Finite(nearest_double(a.mantissa, b.mantissa, a.exponent - b.exponent))
    }
}

/// The icon for a volume.
#[derive(Clone, Copy, Debug, PartialEq, Eq, Structural)]
pub enum Icon {
    Muted,
    Low,
    Medium,
    High,
}

impl Icon {
    /// The name under which icon themes hold this icon.
    pub open spec fn theme_name(self) -> Seq<char> {
        match self {
            Icon::Muted => "audio-volume-muted-symbolic"@,
            Icon::Low => "audio-volume-low-symbolic"@,
            Icon::Medium => "audio-volume-medium-symbolic"@,
            Icon::High => "audio-volume-high-symbolic"@,
        }
    }

    /// The name under which icon themes hold this icon.
    pub fn name(&self) -> (name: &'static str)
        ensures
            name@ == self.theme_name(),
    {
        match *self {
            Icon::Muted => "audio-volume-muted-symbolic",
            Icon::Low => "audio-volume-low-symbolic",
            Icon::Medium => "audio-volume-medium-symbolic",
            Icon::High => "audio-volume-high-symbolic",
        }
    }
}

/// Up to 0.333 of the base volume a volume is low.
pub open spec fn low_limit() -> Binary {
    nearest(333, 1000, 0)
}

/// Up to 0.666 of the base volume a volume that is not low is medium.
pub open spec fn medium_limit() -> Binary {
    nearest(666, 1000, 0)
}

/// The icon for a share of the base volume. Where that share is no number and the sink is not
/// muted, there is none.
pub open spec fn icon_for(mute: bool, share: Share) -> Option<Icon> {
    if mute {
        Some(Icon::Muted)
    } else {
        match share {
            Share::NotANumber => None,
            Share::Zero => Some(Icon::Muted),
            Share::Infinite => Some(Icon::High),
            Share::Finite(d) => if at_most(d, low_limit()) {
                Some(Icon::Low)
            } else if at_most(d, medium_limit()) {
                Some(Icon::Medium)
            } else {
                Some(Icon::High)
            },
        }
    }
}

/// The share in percent: a hundred times the share, rounded to floating point and then to an
/// integer, and at most what a byte can hold.
pub open spec fn percent_of(share: Share) -> nat {
    match share {
        Share::NotANumber => 0,
        Share::Zero => 0,
        Share::Infinite => 255,
        Share::Finite(d) => {
            let percent = round_half_up(nearest(100 * d.mantissa, 1, d.exponent));
            if percent < 255 {
                percent
            } else {
                255
            }
        },
    }
}

impl Fraction {
    /// The icon for this share of the base volume.
    pub fn icon(&self, mute: bool) -> (icon: Option<Icon>)
        requires
            self.well_formed(),
        ensures
            icon == icon_for(mute, self@),
    {
        if mute {
            return Some(Icon::Muted);
        }
        match *self {
            Fraction::NotANumber => None,
            Fraction::Zero => Some(Icon::Muted),
            Fraction::Infinite => Some(Icon::High),
            Fraction::Finite(d) => {
                if d.at_most(&nearest_double(333, 1000, 0)) {
                    Some(Icon::Low)
                } else if d.at_most(&nearest_double(666, 1000, 0)) {
                    Some(Icon::Medium)
                } else {
                    Some(Icon::High)
                }
            },
        }
    }

    /// This share in percent.
    pub fn percent(&self) -> (percent: u8)
        requires
            self.well_formed(),
        ensures
            percent == percent_of(self@),
    {
        match *self {
            Fraction::NotANumber => 0,
            Fraction::Zero => 0,
            Fraction::Infinite => 255,
            Fraction::Finite(d) => nearest_double(100 * d.mantissa, 1, d.exponent).to_byte(),
        }
    }
}

/// The label that shows a percentage.
pub open spec fn percent_label(percent: nat) -> Seq<char> {
    decimal(percent) + "%"@
}

/// The label that shows a percentage.
pub fn percent_text(percent: u8) -> (label: String)
    ensures
        label@ == percent_label(percent as nat),
        label@.last() == '%',
        is_numeral(label@.drop_last()),
        value_of(label@.drop_last()) == percent,
{
    proof {
        law_label_reads_back(percent as nat);
    }
    decimal_text(percent as u128).concat("%")
}

/// The percentage reads back from its label: a numeral for it, and a percent sign.
pub proof fn law_label_reads_back(percent: nat)
    ensures
        percent_label(percent).last() == '%',
        is_numeral(percent_label(percent).drop_last()),
        value_of(percent_label(percent).drop_last()) == percent,
{
    reveal_strlit("%");
    law_decimal_reads_back(percent);
    assert(percent_label(percent).drop_last() =~= decimal(percent));
}

/// How far an icon goes up.
pub open spec fn height(icon: Icon) -> nat {
    match icon {
        Icon::Muted => 0,
        Icon::Low => 1,
        Icon::Medium => 2,
        Icon::High => 3,
    }
}

proof fn lemma_share_ordered(quiet: nat, loud: nat, base_volume: nat)
    requires
        0 < quiet <= loud,
        0 < base_volume,
    ensures
        share(quiet, base_volume) is Finite,
        share(loud, base_volume) is Finite,
        at_most(share(quiet, base_volume)->Finite_0, share(loud, base_volume)->Finite_0),
        share(quiet, base_volume)->Finite_0.mantissa > 0,
        share(loud, base_volume)->Finite_0.mantissa > 0,
{
    let a = nearest(quiet, 1, 0);
    let b = nearest(loud, 1, 0);
    let c = nearest(base_volume, 1, 0);
    law_rounding_is_near(quiet, 1, 0);
    law_rounding_is_near(loud, 1, 0);
    law_rounding_is_near(base_volume, 1, 0);
    law_rounding_keeps_order(quiet, 1, 0, loud, 1, 0);
    lemma_scale_both(a, b, 1, c.mantissa, -c.exponent);
    assert(1 * a.mantissa == a.mantissa && 1 * b.mantissa == b.mantissa);
    assert(a.exponent + (-c.exponent) == a.exponent - c.exponent);
    assert(b.exponent + (-c.exponent) == b.exponent - c.exponent);
    law_rounding_keeps_order(
        a.mantissa,
        c.mantissa,
        a.exponent - c.exponent,
        b.mantissa,
        c.mantissa,
        b.exponent - c.exponent,
    );
    law_rounding_is_near(a.mantissa, c.mantissa, a.exponent - c.exponent);
    law_rounding_is_near(b.mantissa, c.mantissa, b.exponent - c.exponent);
}

/// A louder volume never shows a lesser percentage.
pub proof fn law_percent_rises(quiet: nat, loud: nat, base_volume: nat)
    requires
        quiet <= loud,
    ensures
        percent_of(share(quiet, base_volume)) <= percent_of(share(loud, base_volume)),
{
    if 0 < quiet && 0 < base_volume {
        lemma_share_ordered(quiet, loud, base_volume);
        let a = share(quiet, base_volume)->Finite_0;
        let b = share(loud, base_volume)->Finite_0;
        lemma_scale_both(a, b, 100, 1, 0);
        law_rounding_keeps_order(
            100 * a.mantissa,
            1,
            a.exponent,
            100 * b.mantissa,
            1,
            b.exponent,
        );
        lemma_round_half_up_ordered(
            nearest(100 * a.mantissa, 1, a.exponent),
            nearest(100 * b.mantissa, 1, b.exponent),
        );
    }
}

/// A louder volume never shows a lower icon.
pub proof fn law_icon_rises(quiet: nat, loud: nat, base_volume: nat)
    requires
        quiet <= loud,
        0 < base_volume,
    ensures
        icon_for(false, share(quiet, base_volume)) is Some,
        icon_for(false, share(loud, base_volume)) is Some,
        height(icon_for(false, share(quiet, base_volume))->Some_0) <= height(
            icon_for(false, share(loud, base_volume))->Some_0,
        ),
{
    if 0 < quiet {
        lemma_share_ordered(quiet, loud, base_volume);
        let a = share(quiet, base_volume)->Finite_0;
        let b = share(loud, base_volume)->Finite_0;
        if at_most(b, low_limit()) {
            lemma_at_most_transitive(a, b, low_limit());
        }
        if at_most(b, medium_limit()) {
            lemma_at_most_transitive(a, b, medium_limit());
        }
    }
}

/// A muted sink shows the icon for that, however loud it is.
pub proof fn law_mute_shows(volume: nat, base_volume: nat)
    ensures
        icon_for(true, share(volume, base_volume)) == Some(Icon::Muted),
{
}

/// The base volume itself is a hundred percent.
pub proof fn law_base_volume_is_full(base_volume: nat)
    requires
        0 < base_volume,
    ensures
        percent_of(share(base_volume, base_volume)) == 100,
        icon_for(false, share(base_volume, base_volume)) == Some(Icon::High),
{
    let unit = LEAST_MANTISSA as nat;
    let a = nearest(base_volume, 1, 0);
    law_rounding_is_near(base_volume, 1, 0);
    let m = a.mantissa;
    lemma_round_exact(m * unit, m, unit);
    let one = nearest(m, m, 0);
    assert(one == Binary { mantissa: unit, exponent: -52 });
    assert(share(base_volume, base_volume) == Share::Finite(one));
    lemma2_to64();
    lemma2_to64_rest();
    assert(1 * pow2(58) == pow2(58));
    lemma_spare_power(100 * unit, 1, -52, 58);
    lemma_round_exact((100 * unit) * unit, pow2(58), 0x19_0000_0000_0000);
    let hundred = nearest(100 * unit, 1, -52);
    assert(hundred == Binary { mantissa: 0x19_0000_0000_0000, exponent: -46 });
    assert(pow2(46) == 0x4000_0000_0000);
    lemma_fundamental_div_mod_converse(
        0x32_4000_0000_0000,
        0x8000_0000_0000,
        100,
        0x4000_0000_0000,
    );
    assert(round_half_up(hundred) == 100);
    lemma_limits();
}

proof fn lemma_round_exact(p: nat, q: nat, n: nat)
    requires
        q > 0,
        p == n * q || p == q * n,
    ensures
        round_half_even(p, q) == n,
{
    assert(n * q == q * n) by (nonlinear_arith);
    lemma_fundamental_div_mod_converse(p as int, q as int, n as int, 0);
}

/// The limits of the icons lie below one.
proof fn lemma_limits()
    ensures
        low_limit().exponent == -54,
        low_limit().mantissa < 2 * LEAST_MANTISSA,
        medium_limit().exponent == -53,
        medium_limit().mantissa < 2 * LEAST_MANTISSA,
        !at_most(Binary { mantissa: LEAST_MANTISSA as nat, exponent: -52 }, low_limit()),
        !at_most(Binary { mantissa: LEAST_MANTISSA as nat, exponent: -52 }, medium_limit()),
{
    reveal_with_fuel(nearest, 3);
    lemma2_to64();
    assert(low_limit() == nearest(1332, 1000, -2));
    assert(medium_limit() == nearest(1332, 1000, -1));
}

/// A volume that is at most the base volume shows at most a hundred percent.
pub proof fn law_at_most_full(volume: nat, base_volume: nat)
    requires
        volume <= base_volume,
        0 < base_volume,
    ensures
        percent_of(share(volume, base_volume)) <= 100,
{
    law_percent_rises(volume, base_volume, base_volume);
    law_base_volume_is_full(base_volume);
}

} // verus!
