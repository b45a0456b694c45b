//! The ramp's step numbering, the course grid, the update names and the
//! points of the peak fit.

use simlab::ising::analysis::fit_window_start;
use simlab::ising::cli::UpdateArg;
use simlab::ising::ramp::{RampSchedule, RampStep, Update};
use simlab::ising::temperature_sweep::{course_temperature_hundredths, size_seed};

/// Every step of a run: the series numbers of the measured steps and the
/// run-wide numbers of the recorded frames.
fn walk(temperatures: usize, discard: u64, measure: u64, every: u64) -> (Vec<u64>, Vec<u64>) {
    let mut schedule = RampSchedule::new(temperatures, discard, measure, every).unwrap();
    let mut series = Vec::new();
    let mut frames = Vec::new();
    loop {
        match schedule.next() {
            RampStep::Discard { .. } => {}
            RampStep::Measure { sweep, global, record, .. } => {
                series.push(sweep);
                if record {
                    frames.push(global);
                }
            }
            RampStep::Done => break,
        }
    }
    (series, frames)
}

#[test]
fn frame_numbers_count_the_whole_ramp_including_discard() {
    let (series, frames) = walk(3, 3, 8, 2);
    assert_eq!(frames, vec![5, 7, 9, 11, 16, 18, 20, 22, 27, 29, 31, 33]);
    let expected: Vec<u64> = (0..3).flat_map(|_| 1..=8).collect();
    assert_eq!(series, expected);
}

#[test]
fn cluster_flip_steps_are_numbered_like_sweeps() {
    // One step is one cluster flip, so the global counter moves by one per
    // step just as it does for a Metropolis sweep.
    let (series, frames) = walk(3, 3, 8, 2);
    assert_eq!(series, (0..3).flat_map(|_| 1..=8).collect::<Vec<u64>>());
    assert_eq!(frames, vec![5, 7, 9, 11, 16, 18, 20, 22, 27, 29, 31, 33]);

    let (series, frames) = walk(2, 2, 6, 0);
    assert_eq!(series.len(), 12);
    assert!(frames.is_empty());
}

#[test]
fn snapshot_cadence_follows_the_same_schedule() {
    // Two equilibration sweeps, four recording sweeps, a frame every second.
    let (_, frames) = walk(3, 2, 4, 2);
    assert_eq!(frames, [4, 6, 10, 12, 16, 18]);
}

#[test]
fn the_schedule_names_each_step_and_then_stops() {
    let mut schedule = RampSchedule::new(2, 1, 2, 2).unwrap();
    assert_eq!(schedule.next(), RampStep::Discard { temperature: 0, global: 1 });
    assert_eq!(
        schedule.next(),
        RampStep::Measure { temperature: 0, sweep: 1, global: 2, record: false }
    );
    assert_eq!(
        schedule.next(),
        RampStep::Measure { temperature: 0, sweep: 2, global: 3, record: true }
    );
    assert_eq!(schedule.next(), RampStep::Discard { temperature: 1, global: 4 });
    assert_eq!(
        schedule.next(),
        RampStep::Measure { temperature: 1, sweep: 1, global: 5, record: false }
    );
    assert_eq!(
        schedule.next(),
        RampStep::Measure { temperature: 1, sweep: 2, global: 6, record: true }
    );
    assert_eq!(schedule.next(), RampStep::Done);
    assert_eq!(schedule.next(), RampStep::Done);
}

#[test]
fn a_schedule_needs_a_countable_length() {
    assert!(RampSchedule::new(3, u64::MAX, 1, 1).is_none());
    assert!(RampSchedule::new(2, u64::MAX / 2, 1, 1).is_none());
    assert!(RampSchedule::new(0, 5, 5, 1).is_some());
    let mut empty = RampSchedule::new(0, 5, 5, 1).unwrap();
    assert_eq!(empty.next(), RampStep::Done);
    let mut nothing = RampSchedule::new(4, 0, 0, 1).unwrap();
    assert_eq!(nothing.next(), RampStep::Done);
}

#[test]
fn a_schedule_without_measured_steps_only_discards() {
    // Two temperatures, three equilibration steps each, nothing measured.
    let mut schedule = RampSchedule::new(2, 3, 0, 2).unwrap();
    let mut steps = Vec::new();
    loop {
        match schedule.next() {
            RampStep::Discard { temperature, global } => steps.push((temperature, global)),
            RampStep::Measure { .. } => panic!("no step is measured"),
            RampStep::Done => break,
        }
    }
    assert_eq!(steps, vec![(0, 1), (0, 2), (0, 3), (1, 4), (1, 5), (1, 6)]);
}

#[test]
fn the_observation_interval_does_not_depend_on_the_run_length() {
    let (short, _) = walk(1, 0, 20, 0);
    let (long, _) = walk(1, 0, 40, 0);
    assert_eq!(short.len(), 20);
    assert_eq!(long.len(), 40);
    assert_eq!(short, long[..20]);
}

#[test]
fn course_grid_has_the_fixed_coarse_and_critical_points() {
    let grid: Vec<f64> = course_temperature_hundredths()
        .into_iter()
        .map(|value| value as f64 / 100.0)
        .collect();
    assert_eq!(grid.len(), 27);
    assert_eq!(grid.first(), Some(&1.5));
    assert_eq!(grid.last(), Some(&3.5));
    assert!(grid.contains(&2.05));
    assert!(grid.contains(&2.6));
    assert!(!grid.contains(&2.65));
}

#[test]
fn the_course_grid_merges_both_lists_in_order() {
    let grid = course_temperature_hundredths();
    let mut expected: Vec<i32> = (150..=350).step_by(10).collect();
    expected.extend((200..=260).step_by(5));
    expected.sort_unstable();
    expected.dedup();
    assert_eq!(grid, expected);
}

#[test]
fn size_32_draws_from_its_own_seed() {
    assert_eq!(size_seed(32, 42), 1042);
    assert_eq!(size_seed(64, 42), 42);
    assert_eq!(size_seed(16, 7), 7);
}

#[test]
fn update_names_match_the_contract() {
    assert_eq!(Update::Metropolis.name(), "metropolis");
    assert_eq!(Update::Wolff.name(), "wolff");
    assert_eq!(Update::Metropolis.time_unit(), "sweep");
    assert_eq!(Update::Wolff.time_unit(), "cluster_flip");
    assert_eq!(Update::Metropolis.statistic(), "acceptance");
    assert_eq!(Update::Wolff.statistic(), "mean_cluster_size");
    assert_eq!(Update::from(UpdateArg::Metropolis), Update::Metropolis);
    assert_eq!(Update::from(UpdateArg::Wolff), Update::Wolff);
}

#[test]
fn the_peak_fit_centres_five_points_on_the_maximum_when_it_can() {
    assert_eq!(fit_window_start(4, 10), 2);
    assert_eq!(fit_window_start(7, 10), 5);
    assert_eq!(fit_window_start(0, 10), 0);
    assert_eq!(fit_window_start(1, 10), 0);
    assert_eq!(fit_window_start(9, 10), 5);
    assert_eq!(fit_window_start(3, 5), 0);
    assert_eq!(fit_window_start(20, 27), 18);
    for count in 5..40 {
        for maximum in 0..count {
            let start = fit_window_start(maximum, count);
            assert!(start + 5 <= count);
            assert!(start <= maximum && maximum < start + 5);
        }
    }
}

#[test]
fn measured_steps_restart_at_one_at_each_temperature() {
    // Three temperatures, three discarded and five measured steps at each.
    let mut schedule = RampSchedule::new(3, 3, 5, 0).unwrap();
    let mut blocks: Vec<(usize, Vec<u64>)> = Vec::new();
    let mut rows = 0;
    loop {
        match schedule.next() {
            RampStep::Discard { .. } => {}
            RampStep::Measure { temperature, sweep, .. } => {
                rows += 1;
                match blocks.last_mut() {
                    Some((last, sweeps)) if *last == temperature => sweeps.push(sweep),
                    _ => blocks.push((temperature, vec![sweep])),
                }
            }
            RampStep::Done => break,
        }
    }
    assert_eq!(rows, 15);
    assert_eq!(blocks.len(), 3);
    for (t, sweeps) in &blocks {
        assert_eq!(sweeps, &(1..=5).collect::<Vec<u64>>(), "at temperature {t}");
    }
    let temperatures: Vec<usize> = blocks.iter().map(|(t, _)| *t).collect();
    assert!(temperatures.windows(2).all(|pair| pair[0] < pair[1]));
}

#[test]
fn frames_are_recorded_only_when_every_is_positive() {
    // Two temperatures, two discarded and six measured steps at each.
    let (series, frames) = walk(2, 2, 6, 0);
    assert_eq!(series.len(), 12);
    assert!(frames.is_empty());
    let (_, frames) = walk(2, 2, 6, 2);
    assert_eq!(frames.len(), 6);
}

#[test]
fn wolff_names_the_cluster_flip_time_unit() {
    let update = Update::from(UpdateArg::Wolff);
    assert_eq!(update.name(), "wolff");
    assert_eq!(update.time_unit(), "cluster_flip");
    let update = Update::from(UpdateArg::Metropolis);
    assert_eq!(update.name(), "metropolis");
    assert_eq!(update.time_unit(), "sweep");
}
