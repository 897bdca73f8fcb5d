use sliding_features::fixed::SCALE;
use sliding_features::laguerre_rsi::{all_pass_stage, low_pass_stage, rate};
use sliding_features::{Echo, Fixed, LaguerreRSI, StreamTransform};

const ONE: f64 = 4294967296.0;

fn to_fixed(x: f64) -> Fixed {
    Fixed { raw: (x * ONE).round() as i64 }
}

fn to_real(x: Fixed) -> f64 {
    x.raw as f64 / ONE
}

fn raw(x: i64) -> Fixed {
    Fixed { raw: x }
}

fn prices() -> Vec<f64> {
    let mut seed: u64 = 0x2545_f491_4f6c_dd1d;
    let mut price: f64 = 100.0;
    let mut out: Vec<f64> = Vec::new();
    for _ in 0..400 {
        seed = seed.wrapping_mul(6364136223846793005).wrapping_add(1442695040888963407);
        let step = ((seed >> 33) % 2001) as f64 / 1000.0 - 1.0;
        price += step;
        out.push(price);
    }
    out
}

#[test]
fn laguerre_rsi() {
    let mut lrsi = LaguerreRSI::new_final(16);
    for v in &prices() {
        lrsi.update(to_fixed(*v));
        let last = to_real(lrsi.last());
        assert!(last <= 1.0);
        assert!(last >= -1.0);
    }
}

#[test]
fn laguerre_rsi_plot() {
    let mut lrsi = LaguerreRSI::new_final(16);
    let mut out: Vec<f64> = Vec::new();
    let data = prices();
    for v in &data {
        lrsi.update(to_fixed(*v));
        out.push(to_real(lrsi.last()));
    }
    assert_eq!(out.len(), data.len());
}

#[test]
fn lrsi_stays_between_zero_and_one() {
    for window_len in [1usize, 2, 16, 1000, usize::MAX] {
        let mut lrsi = LaguerreRSI::new_final(window_len);
        for v in &prices() {
            lrsi.update(to_fixed(*v));
            assert!(lrsi.last().raw >= 0);
            assert!(lrsi.last().raw <= SCALE);
        }
    }
}

#[test]
fn lrsi_stays_between_zero_and_one_on_extreme_samples() {
    let mut lrsi = LaguerreRSI::new_final(3);
    for n in 0..60 {
        let sample = if n % 3 == 0 { i64::MAX } else if n % 3 == 1 { i64::MIN } else { n };
        lrsi.update(raw(sample));
        assert!(lrsi.last().raw >= 0);
        assert!(lrsi.last().raw <= SCALE);
    }
}

#[test]
fn lrsi_is_zero_before_any_sample() {
    let lrsi = LaguerreRSI::new_final(16);
    assert_eq!(lrsi.last().raw, 0);
}

#[test]
fn lrsi_first_update_yields_zero() {
    for window_len in [1usize, 2, 3, 16, 255, usize::MAX] {
        let mut lrsi = LaguerreRSI::new_final(window_len);
        lrsi.update(Fixed::from_int(1234));
        assert_eq!(lrsi.last().raw, 0);
    }
}

#[test]
fn lrsi_is_zero_through_the_warm_up() {
    let mut lrsi = LaguerreRSI::new_final(16);
    lrsi.update(Fixed::from_int(10));
    assert_eq!(lrsi.last().raw, 0);
    lrsi.update(Fixed::from_int(-20));
    assert_eq!(lrsi.last().raw, 0);
    lrsi.update(Fixed::from_int(30));
    assert_ne!(lrsi.last().raw, 0);
}

#[test]
fn lrsi_on_a_rising_series_tends_to_one() {
    let mut lrsi = LaguerreRSI::new_final(16);
    let mut seen: Vec<i64> = Vec::new();
    for n in 1..=40 {
        lrsi.update(Fixed::from_int(n));
        seen.push(lrsi.last().raw);
    }
    assert_eq!(seen[2], 3848395773);
    assert_eq!(seen[3], 3848395773);
    assert_eq!(seen[4], 3823847192);
    assert_eq!(seen[5], 3781784029);
    for out in &seen[6..] {
        assert_eq!(*out, SCALE);
    }
}

#[test]
fn lrsi_on_a_falling_series_tends_to_zero() {
    let mut lrsi = LaguerreRSI::new_final(16);
    for n in 0..40 {
        lrsi.update(Fixed::from_int(40 - n));
    }
    assert_eq!(lrsi.last().raw, 0);
}

#[test]
fn lrsi_holds_its_value_when_the_stages_agree() {
    let mut lrsi = LaguerreRSI::new_final(16);
    for n in [0, 0, -7] {
        lrsi.update(Fixed::from_int(n));
    }
    for _ in 0..6 {
        lrsi.update(Fixed::from_int(0));
    }
    // From here on every other step leaves all four stages at zero, where
    // nothing moves and the output of the step before is held.
    for _ in 0..20 {
        lrsi.update(Fixed::from_int(0));
        assert_eq!(lrsi.last().raw, SCALE);
    }
}

#[test]
fn lrsi_settles_at_zero_after_a_decline_drains() {
    let mut lrsi = LaguerreRSI::new_final(16);
    for n in [5, 4, 3, 2, 1] {
        lrsi.update(Fixed::from_int(n));
    }
    for _ in 0..50 {
        lrsi.update(Fixed::from_int(0));
    }
    for _ in 0..20 {
        lrsi.update(Fixed::from_int(0));
        assert_eq!(lrsi.last().raw, 0);
    }
}

#[test]
fn lrsi_with_window_of_one_never_moves() {
    // gamma is one: the first stage repeats its own past, which is zero
    let mut lrsi = LaguerreRSI::new_final(1);
    for n in [3, 1, 4, 1, 5, 9, 2, 6] {
        lrsi.update(Fixed::from_int(n));
        assert_eq!(lrsi.last().raw, 0);
    }
}

#[test]
fn lrsi_window_length_only_sets_the_decay() {
    // a long window leaves the three-entry histories as they are
    let mut lrsi = LaguerreRSI::new_final(100);
    for n in 1..=200 {
        lrsi.update(Fixed::from_int(n));
    }
    assert_eq!(lrsi.last().raw, SCALE);
}

#[test]
fn lrsi_over_an_explicit_echo_equals_the_final_form() {
    let mut chained = LaguerreRSI::new(Echo::new(), 16);
    let mut plain = LaguerreRSI::new_final(16);
    for v in &prices() {
        chained.update(to_fixed(*v));
        plain.update(to_fixed(*v));
        assert_eq!(chained.last(), plain.last());
    }
}

#[test]
fn low_pass_blends_sample_and_history() {
    // gamma = 1/4: 3/4 * 3 + 1/4 * -5 = 1
    assert_eq!(low_pass_stage(raw(SCALE / 4), Fixed::from_int(3), Fixed::from_int(-5)).raw, SCALE);
    // gamma = 2/17, rounded down
    assert_eq!(low_pass_stage(raw(505290270), Fixed::from_int(3), raw(0)).raw, 11369031078);
}

#[test]
fn low_pass_at_the_ends_of_gamma() {
    assert_eq!(low_pass_stage(raw(SCALE), raw(7), raw(9)).raw, 9);
    assert_eq!(low_pass_stage(raw(0), raw(7), raw(9)).raw, 7);
}

#[test]
fn low_pass_rounds_down() {
    assert_eq!(low_pass_stage(raw(1), raw(-1), raw(0)).raw, -1);
    assert_eq!(low_pass_stage(raw(1), raw(1), raw(0)).raw, 0);
}

#[test]
fn all_pass_combines_three_terms() {
    // gamma = 1/4: -1/4 * 3 + -5 + 1/4 * 2 = -5.25
    let out = all_pass_stage(
        raw(SCALE / 4),
        Fixed::from_int(3),
        Fixed::from_int(-5),
        Fixed::from_int(2),
    );
    assert_eq!(out.raw, -22548578304);
    assert_eq!(all_pass_stage(raw(1), raw(1), raw(0), raw(0)).raw, -1);
}

#[test]
fn all_pass_saturates() {
    let half = raw(SCALE / 2);
    assert_eq!(all_pass_stage(half, raw(i64::MAX), raw(i64::MIN), raw(i64::MIN)).raw, i64::MIN);
    assert_eq!(all_pass_stage(half, raw(i64::MIN), raw(i64::MAX), raw(i64::MAX)).raw, i64::MAX);
}

#[test]
fn rate_is_one_when_every_stage_steps_down() {
    assert_eq!(rate(raw(4), raw(3), raw(2), raw(1), raw(7)).raw, SCALE);
}

#[test]
fn rate_is_zero_when_every_stage_steps_up() {
    assert_eq!(rate(raw(1), raw(2), raw(3), raw(4), raw(7)).raw, 0);
}

#[test]
fn rate_holds_when_the_stages_agree() {
    assert_eq!(rate(raw(5), raw(5), raw(5), raw(5), raw(7)).raw, 7);
}

#[test]
fn rate_is_the_share_of_the_upward_total() {
    // up 2, down 1, level: 2 / 3 rounded down
    assert_eq!(rate(raw(3), raw(1), raw(2), raw(2), raw(0)).raw, 2863311530);
    // down 3, up 1: 1 / 4
    assert_eq!(rate(raw(0), raw(3), raw(2), raw(2), raw(0)).raw, 1 << 30);
}

#[test]
fn rate_on_the_widest_swings() {
    let out = rate(raw(i64::MAX), raw(i64::MIN), raw(i64::MAX), raw(i64::MIN), raw(0));
    assert_eq!(out.raw, 2863311530);
}
