use vosd::double::{nearest_double, Double};
use vosd::volume::{percent_text, volume_fraction, Fraction, Icon};

fn as_float(fraction: Fraction) -> f64 {
    match fraction {
        Fraction::NotANumber => f64::NAN,
        Fraction::Infinite => f64::INFINITY,
        Fraction::Zero => 0.0,
        Fraction::Finite(d) => float(d),
    }
}

fn float(d: Double) -> f64 {
    (d.mantissa as f64) * 2.0_f64.powi(d.exponent)
}

fn float_icon(mute: bool, fraction: f64) -> Option<Icon> {
    match (mute, fraction) {
        (true, _) => Some(Icon::Muted),
        (false, fs) if fs == 0.0 => Some(Icon::Muted),
        (false, fs) if fs > 0.0 && fs <= 0.333 => Some(Icon::Low),
        (false, fs) if fs > 0.333 && fs <= 0.666 => Some(Icon::Medium),
        (false, fs) if fs > 0.666 => Some(Icon::High),
        _ => None,
    }
}

fn agrees_with_machine(volume: u64, base_volume: u64) {
    let exact = (volume as f64) / (base_volume as f64);
    let fraction = volume_fraction(volume, base_volume);
    let float = as_float(fraction);
    assert!(
        float == exact || (float.is_nan() && exact.is_nan()),
        "{volume} of {base_volume}: {float} is not {exact}"
    );
    assert_eq!(fraction.percent(), (exact * 100.0).round() as u8, "{volume} of {base_volume}");
    assert_eq!(fraction.icon(false), float_icon(false, exact), "{volume} of {base_volume}");
    assert_eq!(fraction.icon(true), Some(Icon::Muted));
}

#[test]
fn every_step_of_a_usual_sink() {
    for volume in 0..=(2 * 65536) {
        agrees_with_machine(volume, 65536);
    }
}

#[test]
fn every_step_of_odd_sinks() {
    for base_volume in [1, 2, 3, 7, 100, 333, 666, 999, 1000, 1001] {
        for volume in 0..=(4 * base_volume) {
            agrees_with_machine(volume, base_volume);
        }
    }
}

#[test]
fn volumes_around_powers_of_two() {
    let mut edges: Vec<u64> = vec![0, u64::MAX];
    for power in 0..64 {
        let edge = 1_u64 << power;
        for offset in 0..4 {
            edges.push(edge.saturating_add(offset));
            edges.push(edge.saturating_sub(offset));
        }
    }
    for volume in &edges {
        for base_volume in &edges {
            agrees_with_machine(*volume, *base_volume);
        }
    }
}

#[test]
fn scattered_volumes() {
    let mut state: u64 = 0x9e37_79b9_7f4a_7c15;
    for round in 0..200_000 {
        state = state.wrapping_mul(6_364_136_223_846_793_005).wrapping_add(1_442_695_040_888_963_407);
        let volume = state >> (round % 60);
        state = state.wrapping_mul(6_364_136_223_846_793_005).wrapping_add(1_442_695_040_888_963_407);
        let base_volume = state >> (round % 53);
        agrees_with_machine(volume, base_volume);
    }
}

#[test]
fn halfway_percentages() {
    for half in 0..600_u64 {
        agrees_with_machine(half, 200);
        agrees_with_machine(half * 1000 + 5, 100_000);
    }
}

#[test]
fn nearest_numbers() {
    assert_eq!(
        nearest_double(1, 1, 0),
        Double { mantissa: 1 << 52, exponent: -52 }
    );
    assert_eq!(float(nearest_double(1, 3, 0)), 1.0 / 3.0);
    assert_eq!(float(nearest_double(333, 1000, 0)), 0.333);
    assert_eq!(float(nearest_double(666, 1000, 0)), 0.666);
    assert_eq!(float(nearest_double(5, 1, 10)), 5120.0);
    // Halfway between two numbers, the even one is taken.
    assert_eq!(float(nearest_double((1 << 53) + 1, 1, 0)), 9_007_199_254_740_992.0);
    assert_eq!(float(nearest_double((1 << 53) + 3, 1, 0)), 9_007_199_254_740_996.0);
    // Rounding up can reach the next power of two.
    assert_eq!(float(nearest_double(u64::MAX, 1, 0)), 18_446_744_073_709_551_616.0);
}

#[test]
fn order_of_numbers() {
    let one = nearest_double(1, 1, 0);
    let two = nearest_double(2, 1, 0);
    let third = nearest_double(1, 3, 0);
    assert!(third.at_most(&one));
    assert!(one.at_most(&one));
    assert!(one.at_most(&two));
    assert!(!two.at_most(&one));
    assert!(!one.at_most(&third));
    assert!(!nearest_double(100, 1, 0).at_most(&one));
    assert!(nearest_double(1, 100, 0).at_most(&one));
}

#[test]
fn bytes() {
    assert_eq!(nearest_double(5, 2, 0).to_byte(), 3);
    assert_eq!(nearest_double(7, 2, 0).to_byte(), 4);
    assert_eq!(nearest_double(49, 100, 0).to_byte(), 0);
    assert_eq!(nearest_double(1, 1000, 0).to_byte(), 0);
    assert_eq!(nearest_double(1, 1, -60).to_byte(), 0);
    assert_eq!(nearest_double(254, 1, 0).to_byte(), 254);
    assert_eq!(nearest_double(255, 1, 0).to_byte(), 255);
    assert_eq!(nearest_double(1000, 1, 0).to_byte(), 255);
    assert_eq!(nearest_double(1, 1, 60).to_byte(), 255);
}

#[test]
fn nothing_of_nothing() {
    let fraction = volume_fraction(0, 0);
    assert_eq!(fraction, Fraction::NotANumber);
    assert_eq!(fraction.icon(false), None);
    assert_eq!(fraction.icon(true), Some(Icon::Muted));
    assert_eq!(fraction.percent(), 0);
}

#[test]
fn something_of_nothing() {
    let fraction = volume_fraction(1, 0);
    assert_eq!(fraction, Fraction::Infinite);
    assert_eq!(fraction.icon(false), Some(Icon::High));
    assert_eq!(fraction.percent(), 255);
}

#[test]
fn icons_by_share() {
    assert_eq!(volume_fraction(0, 1000).icon(false), Some(Icon::Muted));
    assert_eq!(volume_fraction(1, 1000).icon(false), Some(Icon::Low));
    assert_eq!(volume_fraction(333, 1000).icon(false), Some(Icon::Low));
    assert_eq!(volume_fraction(334, 1000).icon(false), Some(Icon::Medium));
    assert_eq!(volume_fraction(666, 1000).icon(false), Some(Icon::Medium));
    assert_eq!(volume_fraction(667, 1000).icon(false), Some(Icon::High));
    assert_eq!(volume_fraction(2000, 1000).icon(false), Some(Icon::High));
    assert_eq!(volume_fraction(2000, 1000).icon(true), Some(Icon::Muted));
}

#[test]
fn icon_names() {
    assert_eq!(Icon::Muted.name(), "audio-volume-muted-symbolic");
    assert_eq!(Icon::Low.name(), "audio-volume-low-symbolic");
    assert_eq!(Icon::Medium.name(), "audio-volume-medium-symbolic");
    assert_eq!(Icon::High.name(), "audio-volume-high-symbolic");
}

#[test]
fn base_volume_is_full() {
    for base_volume in [1, 3, 65536, 9_007_199_254_740_993, u64::MAX] {
        let fraction = volume_fraction(base_volume, base_volume);
        assert_eq!(fraction.percent(), 100);
        assert_eq!(fraction.icon(false), Some(Icon::High));
    }
}

#[test]
fn louder_is_never_less() {
    let mut last = 0;
    for volume in 0..200_000 {
        let percent = volume_fraction(volume, 65536).percent();
        assert!(percent >= last);
        last = percent;
    }
    assert_eq!(last, 255);
}

#[test]
fn labels() {
    assert_eq!(percent_text(0), "0%");
    assert_eq!(percent_text(9), "9%");
    assert_eq!(percent_text(10), "10%");
    assert_eq!(percent_text(100), "100%");
    assert_eq!(percent_text(255), "255%");
}
