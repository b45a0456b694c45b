//! Physics: the periodic energy, the five flip energies, and the sweep.

use std::collections::BTreeSet;

use rand::Rng;
use rand::SeedableRng;
use rand_chacha::ChaCha8Rng;
use simlab::ising::lattice::Lattice;
use simlab::ising::metropolis::{sweep, ProposalLog, Proposals, SweepStats};

/// Independent recomputation: sum over the `2 * l^2` bonds of the torus.
fn brute_force_energy(l: usize, spins: &[i8]) -> i64 {
    let mut total = 0i64;
    for row in 0..l {
        for col in 0..l {
            let here = spins[row * l + col] as i64;
            let right = spins[row * l + (col + 1) % l] as i64;
            let down = spins[((row + 1) % l) * l + col] as i64;
            total -= here * right;
            total -= here * down;
        }
    }
    total
}

fn random_spins(l: usize, rng: &mut ChaCha8Rng) -> Vec<i8> {
    (0..l * l)
        .map(|_| if rng.random::<f64>() < 0.5 { -1 } else { 1 })
        .collect()
}

fn energy_per_site(lattice: &Lattice) -> f64 {
    lattice.energy() as f64 / lattice.site_count() as f64
}

fn magnetization(lattice: &Lattice) -> f64 {
    lattice.spin_sum() as f64 / lattice.site_count() as f64
}

/// The Metropolis rule at temperature `t`: sites drawn uniformly, a proposal
/// accepted when a uniform draw is below `min(1, exp(-dE / T))`.
struct Metropolis<'a> {
    rng: &'a mut ChaCha8Rng,
    t: f64,
}

impl Proposals for Metropolis<'_> {
    fn site(&mut self, l: usize) -> (usize, usize) {
        let k = self.rng.random_range(0..l * l);
        (k / l, k % l)
    }

    fn accepted(&mut self, delta_energy: i32) -> bool {
        let p = (-(delta_energy as f64) / self.t).exp().min(1.0);
        self.rng.random::<f64>() < p
    }
}

fn metropolis_sweep(lattice: &mut Lattice, t: f64, rng: &mut ChaCha8Rng) -> SweepStats {
    sweep(lattice, &mut ProposalLog::new(Metropolis { rng, t }))
}

#[test]
fn energy_matches_a_brute_force_bond_sum() {
    let mut rng = ChaCha8Rng::seed_from_u64(2026);
    for l in [2usize, 3, 5, 8] {
        let up = Lattice::all_up(l);
        assert_eq!(up.energy(), -2 * (l * l) as i64);
        assert_eq!(energy_per_site(&up), -2.0);
        assert_eq!(up.energy(), brute_force_energy(l, up.spins()));

        let down = Lattice::from_spins(l, vec![-1; l * l]).unwrap();
        assert_eq!(down.energy(), brute_force_energy(l, down.spins()));
        assert_eq!(down.energy(), -2 * (l * l) as i64);

        // An even checkerboard disagrees on every bond, so every bond costs +1.
        // An odd side has a frustrated wrap seam: those bonds agree instead.
        let checker: Vec<i8> = (0..l * l)
            .map(|k| if (k / l + k % l) % 2 == 0 { 1 } else { -1 })
            .collect();
        let checker = Lattice::from_spins(l, checker).unwrap();
        if l % 2 == 0 {
            assert_eq!(checker.energy(), 2 * (l * l) as i64);
            assert_eq!(energy_per_site(&checker), 2.0);
        }
        assert_eq!(checker.energy(), brute_force_energy(l, checker.spins()));

        for _ in 0..8 {
            let spins = random_spins(l, &mut rng);
            let lattice = Lattice::from_spins(l, spins.clone()).unwrap();
            assert_eq!(lattice.energy(), brute_force_energy(l, &spins));
            assert_eq!(
                energy_per_site(&lattice),
                lattice.energy() as f64 / (l * l) as f64
            );
        }
    }
}

#[test]
fn the_corner_bonds_wrap_around_the_torus() {
    let l = 8;
    let mut spins = vec![1i8; l * l];
    spins[0] = -1;
    let lattice = Lattice::from_spins(l, spins).unwrap();
    // 128 bonds; the four touching the flipped corner now disagree.
    assert_eq!(lattice.energy(), -128 + 2 * 4);
    assert_eq!(energy_per_site(&lattice), -120.0 / 64.0);
    assert_eq!(lattice.neighbor_sum(0, 0), 4);
    assert_eq!(lattice.delta_energy(0, 0), -8);
    assert_eq!(magnetization(&lattice), 62.0 / 64.0);
}

#[test]
fn a_single_flip_takes_one_of_five_delta_energies() {
    let l = 3;
    let neighbours = [(0usize, 1usize), (2, 1), (1, 0), (1, 2)];
    for (down, expected) in [(0usize, 8i32), (1, 4), (2, 0), (3, -4), (4, -8)] {
        let mut spins = vec![1i8; l * l];
        for (index, (row, col)) in neighbours.iter().enumerate() {
            if index < down {
                spins[row * l + col] = -1;
            }
        }
        let lattice = Lattice::from_spins(l, spins).unwrap();
        assert_eq!(lattice.neighbor_sum(1, 1), 4 - 2 * down as i32);
        assert_eq!(lattice.delta_energy(1, 1), expected);

        // Flipping a down spin with the same neighbours flips the sign.
        let mut flipped = lattice.clone();
        flipped.flip(1, 1);
        assert_eq!(flipped.delta_energy(1, 1), -expected);
    }
}

#[test]
fn delta_energy_predicts_the_measured_energy_change() {
    let l = 8;
    let mut rng = ChaCha8Rng::seed_from_u64(11);
    let lattice = Lattice::from_spins(l, random_spins(l, &mut rng)).unwrap();
    let mut board = lattice.clone();
    let mut seen = BTreeSet::new();
    for row in 0..l {
        for col in 0..l {
            let delta = board.delta_energy(row, col);
            assert!(matches!(delta, -8 | -4 | 0 | 4 | 8), "delta {delta}");
            seen.insert(delta);

            let before = board.energy();
            board.flip(row, col);
            assert_eq!(board.energy() - before, delta as i64);
            board.flip(row, col);
            assert_eq!(board, lattice);
        }
    }
    assert!(seen.len() >= 3, "only saw {seen:?}");
}

#[test]
fn a_sweep_proposes_l_squared_sites_with_replacement() {
    let mut rng = ChaCha8Rng::seed_from_u64(1);
    let mut lattice = Lattice::all_up(4);
    let stats = metropolis_sweep(&mut lattice, 2.3, &mut rng);
    assert_eq!(stats.proposals, 16);
    assert!(stats.accepted <= 16);
}

#[test]
fn a_cold_sweep_never_accepts_an_uphill_flip_from_all_up() {
    let mut rng = ChaCha8Rng::seed_from_u64(3);
    let mut lattice = Lattice::all_up(6);
    let stats = metropolis_sweep(&mut lattice, 1e-9, &mut rng);
    assert_eq!(stats.accepted, 0);
    assert_eq!(stats.proposals, 36);
    assert_eq!(lattice, Lattice::all_up(6));
}

#[test]
fn a_cold_ramp_takes_the_one_downhill_flip_and_stops() {
    let l = 8;
    let mut spins = vec![1i8; l * l];
    spins[0] = -1;
    let mut lattice = Lattice::from_spins(l, spins).unwrap();
    let mut rng = ChaCha8Rng::seed_from_u64(9);
    let mut accepted = 0u64;
    for _ in 0..50 {
        accepted += metropolis_sweep(&mut lattice, 0.05, &mut rng).accepted;
    }
    assert_eq!(accepted, 1);
    assert_eq!(lattice, Lattice::all_up(l));
    assert_eq!(lattice.energy(), -2 * (l * l) as i64);
}

#[test]
fn magnetization_is_the_signed_mean_spin() {
    let l = 4;
    let mut spins = vec![1i8; l * l];
    spins[0] = -1;
    spins[5] = -1;
    let lattice = Lattice::from_spins(l, spins).unwrap();
    // Sixteen spins, two of them down: the mean is 14/16 minus 2/16.
    assert_eq!(magnetization(&lattice), 12.0 / 16.0);
    assert_eq!(magnetization(&lattice).abs(), 12.0 / 16.0);

    let mut flipped = lattice.clone();
    for row in 0..l {
        for col in 0..l {
            flipped.flip(row, col);
        }
    }
    assert_eq!(magnetization(&flipped), -12.0 / 16.0);
    assert_eq!(magnetization(&flipped).abs(), 12.0 / 16.0);
}

#[test]
fn the_lattice_constructor_rejects_bad_spins() {
    assert!(Lattice::from_spins(1, vec![1]).is_err());
    assert!(Lattice::from_spins(2, vec![1, 1, 1]).is_err());
    assert!(Lattice::from_spins(2, vec![1, 1, 0, 1]).is_err());
    assert!(Lattice::from_spins(2, vec![1, 1, 1, 1]).is_ok());
}

#[test]
fn refusals_name_their_reason() {
    assert_eq!(
        Lattice::from_spins(1, vec![1]).unwrap_err(),
        "lattice side must be at least 2"
    );
    assert_eq!(
        Lattice::from_spins(2, vec![1, 1, 1]).unwrap_err(),
        "expected l * l spins"
    );
    assert_eq!(
        Lattice::from_spins(usize::MAX, vec![1, 1, 1, 1]).unwrap_err(),
        "expected l * l spins"
    );
    assert_eq!(
        Lattice::from_spins(2, vec![1, 1, 0, 1]).unwrap_err(),
        "every spin must be +1 or -1"
    );
}

#[test]
fn coordinates_wrap_modulo_the_side() {
    let mut spins = vec![1i8; 9];
    spins[4] = -1;
    let lattice = Lattice::from_spins(3, spins).unwrap();
    assert_eq!(lattice.index(1, 1), 4);
    assert_eq!(lattice.index(4, 7), 4);
    assert_eq!(lattice.index(3, 5), 2);
    assert_eq!(lattice.spin(4, 4), -1);
    assert_eq!(lattice.neighbors(0), (6, 3, 2, 1));
    assert_eq!(lattice.neighbors(4), (1, 7, 3, 5));
    assert_eq!(lattice.site_count(), 9);
    assert_eq!(lattice.l(), 3);
    assert_eq!(lattice.spin_sum(), 7);
}

#[test]
fn a_two_by_two_torus_counts_each_pair_twice() {
    let lattice = Lattice::from_spins(2, vec![1, -1, 1, 1]).unwrap();
    // Site 1's left and right neighbour are both site 0.
    assert_eq!(lattice.neighbors(1), (3, 3, 0, 0));
    assert_eq!(lattice.neighbor_sum(0, 1), 4);
    assert_eq!(lattice.delta_energy(0, 1), -8);
    assert_eq!(lattice.energy(), 0);
    assert_eq!(lattice.energy(), brute_force_energy(2, lattice.spins()));
}

#[test]
fn flip_index_flips_one_site_and_moves_the_energy_by_its_cost() {
    let mut lattice = Lattice::all_up(5);
    let cost = lattice.delta_energy_of(12);
    assert_eq!(cost, 8);
    lattice.flip_index(12);
    assert_eq!(lattice.spins()[12], -1);
    assert_eq!(lattice.energy(), -50 + 8);
    assert_eq!(lattice.delta_energy_of(12), -8);
}

/// A source that proposes the sites in order and accepts every proposal.
struct EveryOneInTurn {
    next: usize,
}

impl Proposals for EveryOneInTurn {
    fn site(&mut self, l: usize) -> (usize, usize) {
        let k = self.next;
        self.next += 1;
        (k / l, k % l)
    }

    fn accepted(&mut self, _delta_energy: i32) -> bool {
        true
    }
}

#[test]
fn a_sweep_that_accepts_everything_flips_every_visited_site() {
    let mut lattice = Lattice::all_up(4);
    let stats = sweep(&mut lattice, &mut ProposalLog::new(EveryOneInTurn { next: 0 }));
    assert_eq!(stats, SweepStats { accepted: 16, proposals: 16 });
    assert_eq!(lattice, Lattice::from_spins(4, vec![-1; 16]).unwrap());
}

/// Proposes the sites in order, accepts by a fixed script, and keeps the
/// energy changes it was asked about.
struct Scripted {
    next: usize,
    accept: Vec<bool>,
    asked: Vec<i32>,
}

impl Proposals for Scripted {
    fn site(&mut self, l: usize) -> (usize, usize) {
        let k = self.next;
        self.next += 1;
        (k / l, k % l)
    }

    fn accepted(&mut self, delta_energy: i32) -> bool {
        self.asked.push(delta_energy);
        self.accept[self.asked.len() - 1]
    }
}

#[test]
fn each_decision_is_asked_about_the_flip_cost_in_the_current_lattice() {
    let accept: Vec<bool> = (0..16).map(|k| k % 3 == 0).collect();
    let mut lattice = Lattice::all_up(4);
    let mut log = ProposalLog::new(Scripted { next: 0, accept: accept.clone(), asked: Vec::new() });
    let stats = sweep(&mut lattice, &mut log);
    let source = log.into_source();
    assert_eq!(source.next, 16);

    // Replay by hand: the cost at each site in the lattice as it then stood.
    let mut replay = Lattice::all_up(4);
    let mut expected = Vec::new();
    let mut energy = replay.energy();
    for k in 0..16 {
        let cost = replay.delta_energy_of(k);
        expected.push(cost);
        if accept[k] {
            replay.flip_index(k);
            energy += cost as i64;
        }
    }
    assert_eq!(source.asked, expected);
    assert_eq!(stats, SweepStats { accepted: 6, proposals: 16 });
    assert_eq!(lattice, replay);
    assert_eq!(lattice.energy(), energy);
}

#[test]
fn a_sweep_that_declines_everything_leaves_the_lattice_alone() {
    let spins: Vec<i8> = (0..25).map(|k| if k % 4 == 0 { -1 } else { 1 }).collect();
    let before = Lattice::from_spins(5, spins).unwrap();
    let mut lattice = before.clone();
    let mut log = ProposalLog::new(Scripted { next: 0, accept: vec![false; 25], asked: Vec::new() });
    let stats = sweep(&mut lattice, &mut log);
    assert_eq!(stats, SweepStats { accepted: 0, proposals: 25 });
    assert_eq!(lattice, before);
    assert_eq!(log.into_source().asked.len(), 25);
}
