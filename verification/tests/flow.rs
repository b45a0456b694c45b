//! The integrator names and choice, the FFT wavenumbers, and the fluid's
//! integer set-up rules.

use simlab::flow::integrator::{Euler, Method, Rk2, Rk4};
use simlab::flow::line::{bit_reverse, integer_wavenumbers};
use simlab::flow::spectral::{mask, two_thirds_keep};
use simlab::md::analysis::{consistency_sample, CheckError};
use simlab::md::fluid::{square_side, FluidError};

#[test]
fn method_names_parse_and_others_are_refused() {
    assert_eq!(Method::parse("euler"), Ok(Method::Euler));
    assert_eq!(Method::parse("rk2"), Ok(Method::Rk2));
    assert_eq!(Method::parse("rk4"), Ok(Method::Rk4));
    assert_eq!(
        Method::parse("rk3"),
        Err("unknown method \"rk3\"; expected euler, rk2 or rk4".to_string())
    );
    assert_eq!(
        Method::parse("Euler"),
        Err("unknown method \"Euler\"; expected euler, rk2 or rk4".to_string())
    );
    assert!(Method::parse("").is_err());
}

#[test]
fn integrators_carry_their_plot_names() {
    assert_eq!(Euler.name(), "euler");
    assert_eq!(Rk2.name(), "rk2");
    assert_eq!(Rk4::classical().name(), "rk4");
    assert!(!Rk4::classical().equal_weights);
    assert_eq!(Rk4 { equal_weights: true }.name(), "rk4-equal");
}

#[test]
fn wavenumbers_come_in_fft_order() {
    assert_eq!(integer_wavenumbers(8), vec![0, 1, 2, 3, -4, -3, -2, -1]);
    assert_eq!(integer_wavenumbers(1), vec![-1]);
    assert!(integer_wavenumbers(0).is_empty());
    assert_eq!(integer_wavenumbers(5), vec![0, 1, -3, -2, -1]);
}

#[test]
fn square_side_accepts_only_even_squares() {
    assert_eq!(square_side(100), Ok(10));
    assert_eq!(square_side(16), Ok(4));
    assert_eq!(square_side(4), Ok(2));
    let refusal = Err(FluidError::Configuration(
        "n must be a perfect square with an even square root".to_string(),
    ));
    assert_eq!(square_side(15), refusal);
    assert_eq!(square_side(25), refusal);
    assert_eq!(square_side(0), refusal);
    assert_eq!(square_side(1), refusal);
    assert_eq!(square_side(usize::MAX), refusal);
    assert_eq!(square_side(4_294_967_296), Ok(65_536));
}

#[test]
fn bit_reversal_orders_the_fft_input() {
    let mut values: Vec<usize> = (0..8).collect();
    bit_reverse(&mut values);
    assert_eq!(values, vec![0, 4, 2, 6, 1, 5, 3, 7]);
    let mut values: Vec<u32> = (0..16).collect();
    bit_reverse(&mut values);
    assert_eq!(values, vec![0, 8, 4, 12, 2, 10, 6, 14, 1, 9, 5, 13, 3, 11, 7, 15]);
    bit_reverse(&mut values);
    assert_eq!(values, (0..16).collect::<Vec<u32>>());
    let mut single = [7i64];
    bit_reverse(&mut single);
    assert_eq!(single, [7]);
    let mut pair = ['a', 'b'];
    bit_reverse(&mut pair);
    assert_eq!(pair, ['a', 'b']);
}

#[test]
fn two_thirds_rule_keeps_the_low_modes() {
    // n = 4: wavenumbers 0, 1, -2, -1 and cutoff 1, so column and row 2 go.
    let keep = two_thirds_keep(4);
    assert_eq!(keep.len(), 16);
    for y in 0..4 {
        for x in 0..4 {
            assert_eq!(keep[y * 4 + x], x != 2 && y != 2, "entry ({x}, {y})");
        }
    }
    // n = 8: cutoff 2 keeps wavenumbers -2..=2, positions 0, 1, 2, 6, 7.
    let keep = two_thirds_keep(8);
    let kept_positions = [0usize, 1, 2, 6, 7];
    for y in 0..8 {
        for x in 0..8 {
            let expected = kept_positions.contains(&x) && kept_positions.contains(&y);
            assert_eq!(keep[y * 8 + x], expected, "entry ({x}, {y})");
        }
    }
    assert_eq!(keep.iter().filter(|&&k| k).count(), 25);
    // n = 2: cutoff 0 keeps only the mean.
    assert_eq!(two_thirds_keep(2), vec![true, false, false, false]);
    assert!(two_thirds_keep(0).is_empty());
}

#[test]
fn mask_zeroes_exactly_the_dropped_modes() {
    let mut values = vec![1, 2, 3, 4, 5];
    mask(&mut values, &[true, false, true, false], 0);
    assert_eq!(values, vec![1, 0, 3, 0, 5]);
    let mut values = vec![7, 8];
    mask(&mut values, &[false, false, false], -1);
    assert_eq!(values, vec![-1, -1]);
}

#[test]
fn consistency_check_samples_at_most_25_evenly_spaced_frames() {
    let expected: Vec<usize> = (0..25).map(|k| 4 * k).collect();
    assert_eq!(consistency_sample(100), expected);
    let expected: Vec<usize> = (0..25).map(|k| 40 * k).collect();
    assert_eq!(consistency_sample(1000), expected);
    // Fewer than 50 frames: stride 1, so the first 25 frames, or all of them.
    assert_eq!(consistency_sample(30), (0..25).collect::<Vec<usize>>());
    assert_eq!(consistency_sample(7), (0..7).collect::<Vec<usize>>());
    assert!(consistency_sample(0).is_empty());
    // 130 frames: stride 5, 25 samples up to 120.
    assert_eq!(consistency_sample(130).last(), Some(&120));
}

#[test]
fn check_failures_print_their_kind_and_exit_with_its_code() {
    let contract = CheckError::Contract("trajectory has 3 frames; expected 4".to_string());
    assert_eq!(contract.describe(), "contract: trajectory has 3 frames; expected 4");
    assert_eq!(contract.exit_code(), 2);
    let physics = CheckError::Physics("secular energy drift too large".to_string());
    assert_eq!(physics.describe(), "physics: secular energy drift too large");
    assert_eq!(physics.exit_code(), 1);
    let setup = FluidError::Configuration("n must be positive".to_string());
    assert_eq!(setup.describe(), "configuration: n must be positive");
}
