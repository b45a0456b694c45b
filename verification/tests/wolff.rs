//! The Wolff single-cluster update: the growth and the flip.

use std::collections::HashSet;

use rand::Rng;
use rand::SeedableRng;
use rand_chacha::ChaCha8Rng;
use simlab::ising::lattice::Lattice;
use simlab::ising::wolff::{cluster_flip, grow_cluster, BondLog, BondSource};

/// Equation 16 written out again: the bond probability `1 - exp(-2 / T)`.
fn p(temperature: f64) -> f64 {
    1.0 - (-2.0 / temperature).exp()
}

/// Bonds drawn at probability `p(T)`: one uniform per aligned neighbour.
struct Bonds<'a> {
    rng: &'a mut ChaCha8Rng,
    probability: f64,
}

impl BondSource for Bonds<'_> {
    fn bond_added(&mut self) -> bool {
        self.rng.random::<f64>() < self.probability
    }
}

fn grow(lattice: &Lattice, seed: usize, temperature: f64, rng: &mut ChaCha8Rng) -> Vec<usize> {
    let probability = p(temperature);
    grow_cluster(lattice, seed, probability >= 1.0, &mut BondLog::new(Bonds { rng, probability }))
}

/// One Wolff move: the first draw picks the seed, then the cluster flips.
fn flip(lattice: &mut Lattice, temperature: f64, rng: &mut ChaCha8Rng) -> usize {
    let seed = rng.random_range(0..lattice.site_count());
    let probability = p(temperature);
    cluster_flip(lattice, seed, probability >= 1.0, &mut BondLog::new(Bonds { rng, probability }))
}

fn random_spins(l: usize, rng: &mut ChaCha8Rng) -> Vec<i8> {
    (0..l * l)
        .map(|_| if rng.random::<f64>() < 0.5 { -1 } else { 1 })
        .collect()
}

/// The four wrapped neighbour indices of `index`, duplicates included.
fn neighbours(l: usize, index: usize) -> [usize; 4] {
    let (row, col) = (index / l, index % l);
    [
        ((row + l - 1) % l) * l + col,
        ((row + 1) % l) * l + col,
        row * l + (col + l - 1) % l,
        row * l + (col + 1) % l,
    ]
}

fn one_down(l: usize, down: usize) -> Lattice {
    let mut spins = vec![1i8; l * l];
    spins[down] = -1;
    Lattice::from_spins(l, spins).unwrap()
}

fn checkerboard(l: usize) -> Lattice {
    let spins: Vec<i8> = (0..l * l)
        .map(|k| if (k / l + k % l) % 2 == 0 { 1 } else { -1 })
        .collect();
    Lattice::from_spins(l, spins).unwrap()
}

#[test]
fn a_checkerboard_never_grows_past_its_seed() {
    // Every neighbour of a checkerboard site has the opposite spin, so no
    // bond is ever aligned: the cluster is the seed alone, whatever the draws.
    let l = 6;
    let lattice = checkerboard(l);
    for temperature in [1.0, 2.26919, 2.3, 3.0, 5.0] {
        for seed in 0..l * l {
            let mut rng = ChaCha8Rng::seed_from_u64(seed as u64);
            let cluster = grow(&lattice, seed, temperature, &mut rng);
            assert_eq!(cluster, vec![seed], "seed {seed} at T = {temperature}");
        }
    }
}

#[test]
fn a_cold_cluster_swallows_the_whole_aligned_component() {
    // At T -> 0 Equation 16 is exactly one, so the cluster is the connected
    // component of equal spins: the whole lattice when they all agree.
    let l = 4;
    let all_up = Lattice::all_up(l);
    let mut rng = ChaCha8Rng::seed_from_u64(4);
    let cluster = grow(&all_up, 5, 1e-9, &mut rng);
    let set: HashSet<usize> = cluster.iter().copied().collect();
    assert_eq!(set, (0..l * l).collect::<HashSet<usize>>());
    assert_eq!(cluster[0], 5, "the seed is the first site grown");

    // One down spin: an up seed cannot cross it, the down seed cannot leave.
    let lattice = one_down(l, 0);
    let up_seed = l + 1;
    let cluster = grow(&lattice, up_seed, 1e-9, &mut rng);
    assert_eq!(cluster.len(), l * l - 1);
    assert!(!cluster.contains(&0));
    assert!(cluster.iter().all(|site| lattice.spins()[*site] == 1));

    let cluster = grow(&lattice, 0, 1e-9, &mut rng);
    assert_eq!(cluster, vec![0]);
}

#[test]
fn the_grown_cluster_only_holds_the_seed_spin_and_is_connected() {
    let l = 8;
    let mut rng = ChaCha8Rng::seed_from_u64(8);
    let lattice = Lattice::from_spins(l, random_spins(l, &mut rng)).unwrap();
    for seed in 0..l * l {
        let temperature = 2.3;
        let cluster = grow(&lattice, seed, temperature, &mut rng);
        let set: HashSet<usize> = cluster.iter().copied().collect();
        assert_eq!(set.len(), cluster.len(), "seed {seed} repeats a site");
        assert_eq!(cluster[0], seed, "seed {seed} is not grown first");
        let spin = lattice.spins()[seed];
        assert!(
            cluster.iter().all(|site| lattice.spins()[*site] == spin),
            "seed {seed} grew an opposite-spin site"
        );
        for site in &cluster {
            assert!(
                *site == seed
                    || neighbours(l, *site)
                        .iter()
                        .any(|neighbour| set.contains(neighbour)),
                "site {site} has no neighbour inside the cluster"
            );
        }
    }
}

#[test]
fn a_flipped_cluster_is_exactly_the_cluster_that_was_grown() {
    let l = 8;
    let mut rng = ChaCha8Rng::seed_from_u64(2026);
    let before = Lattice::from_spins(l, random_spins(l, &mut rng)).unwrap();
    for _ in 0..25 {
        let temperature = rng.random_range(1.5..3.5);

        // The move's first draw picks the seed, so a clone that makes the same
        // first draw reconstructs the cluster the move is about to grow.
        let mut probe = rng.clone();
        let seed = probe.random_range(0..l * l);
        let grown: HashSet<usize> = grow(&before, seed, temperature, &mut probe)
            .into_iter()
            .collect();

        let mut after = before.clone();
        let size = flip(&mut after, temperature, &mut rng);
        let changed: HashSet<usize> = (0..l * l)
            .filter(|index| before.spins()[*index] != after.spins()[*index])
            .collect();

        assert_eq!(size, grown.len());
        assert_eq!(changed, grown, "T = {temperature}, seed = {seed}");
        assert!(!changed.is_empty(), "a cluster flip moved no spin");
    }
}

#[test]
fn the_whole_cluster_flips_at_every_temperature() {
    // There is no acceptance test: whatever the move grew is what moved.
    let l = 8;
    let mut rng = ChaCha8Rng::seed_from_u64(11);
    let before = Lattice::from_spins(l, random_spins(l, &mut rng)).unwrap();
    for temperature in [1.0, 2.26919, 2.3, 3.0, 10.0] {
        let mut probe = rng.clone();
        let seed = probe.random_range(0..l * l);
        let grown: HashSet<usize> = grow(&before, seed, temperature, &mut probe)
            .into_iter()
            .collect();

        let mut after = before.clone();
        flip(&mut after, temperature, &mut rng);
        for index in 0..l * l {
            let flipped = before.spins()[index] != after.spins()[index];
            assert_eq!(
                flipped,
                grown.contains(&index),
                "T = {temperature}, site {index}: flipped {flipped}"
            );
        }
    }
}

#[test]
fn every_cluster_size_is_between_one_and_l_squared() {
    let l = 6;
    let mut rng = ChaCha8Rng::seed_from_u64(6);
    let mut lattice = Lattice::all_up(l);
    for step in 0..500 {
        let size = flip(&mut lattice, 2.3, &mut rng);
        assert!((1..=l * l).contains(&size), "step {step}: size {size}");
    }
}

#[test]
fn the_same_seed_reproduces_the_cluster_size_sequence() {
    let l = 8;
    let sequence = |seed: u64| {
        let mut rng = ChaCha8Rng::seed_from_u64(seed);
        let mut lattice = Lattice::all_up(l);
        let sizes: Vec<usize> = (0..200)
            .map(|_| flip(&mut lattice, 2.3, &mut rng))
            .collect();
        (sizes, lattice)
    };
    let (first, first_lattice) = sequence(42);
    let (second, second_lattice) = sequence(42);
    assert_eq!(first, second);
    assert_eq!(first_lattice, second_lattice);
    let (other, _) = sequence(1042);
    assert_ne!(first, other, "seed 1042 produced the same cluster sizes as 42");
}

/// Bonds that are never added: only a certain growth leaves the seed.
struct NoBonds;

impl BondSource for NoBonds {
    fn bond_added(&mut self) -> bool {
        false
    }
}

/// Counts the decisions it is asked for and adds every bond.
struct CountingBonds {
    asked: usize,
}

impl BondSource for CountingBonds {
    fn bond_added(&mut self) -> bool {
        self.asked += 1;
        true
    }
}

#[test]
fn declined_bonds_keep_the_seed_alone_and_certain_growth_draws_nothing() {
    let lattice = Lattice::all_up(5);
    assert_eq!(grow_cluster(&lattice, 7, false, &mut BondLog::new(NoBonds)), vec![7]);
    assert_eq!(grow_cluster(&lattice, 7, true, &mut BondLog::new(NoBonds)).len(), 25);

    let mut counting = BondLog::new(CountingBonds { asked: 0 });
    let cluster = grow_cluster(&lattice, 7, true, &mut counting);
    assert_eq!(cluster.len(), 25);
    assert_eq!(counting.into_source().asked, 0);

    // Drawing every bond: each aligned, unclustered neighbour costs a draw.
    let mut counting = BondLog::new(CountingBonds { asked: 0 });
    let cluster = grow_cluster(&lattice, 7, false, &mut counting);
    assert_eq!(cluster.len(), 25);
    assert_eq!(counting.into_source().asked, 24);
}

#[test]
fn a_two_by_two_torus_decides_both_bonds_of_a_pair() {
    // On l = 2 a neighbour appears twice; the second appearance is drawn
    // again only when the first declined it.
    let lattice = Lattice::all_up(2);
    let mut counting = BondLog::new(CountingBonds { asked: 0 });
    let cluster = grow_cluster(&lattice, 0, false, &mut counting);
    assert_eq!(cluster.len(), 4);
    assert_eq!(counting.into_source().asked, 3);
    let mut lattice = Lattice::all_up(2);
    assert_eq!(cluster_flip(&mut lattice, 3, true, &mut BondLog::new(NoBonds)), 4);
    assert_eq!(lattice, Lattice::from_spins(2, vec![-1; 4]).unwrap());
}

/// Answers the bond decisions from a fixed script and counts them.
struct Scripted {
    answers: Vec<bool>,
    asked: usize,
}

impl BondSource for Scripted {
    fn bond_added(&mut self) -> bool {
        let answer = self.answers[self.asked];
        self.asked += 1;
        answer
    }
}

#[test]
fn growth_follows_the_stack_order_and_one_decision_per_aligned_neighbour() {
    // All up on 3 x 3, seed 4 (the centre).
    let lattice = Lattice::all_up(3);
    let mut log = BondLog::new(Scripted {
        answers: vec![true, false, true, false, false, false, false, false, false, false],
        asked: 0,
    });
    let cluster = grow_cluster(&lattice, 4, false, &mut log);
    // Pop 4: up 1 yes, down 7 no, left 3 yes, right 5 no; stack [1, 3].
    // Pop 3: up 0 no, down 6 no, left 5 (wrapped) no, right 4 clustered.
    // Pop 1: up 7 (wrapped) no, down 4 clustered, left 0 no, right 2 no.
    assert_eq!(cluster, vec![4, 3, 1]);
    assert_eq!(log.into_source().asked, 10);
}

#[test]
fn a_checkerboard_draws_no_bond_decision() {
    let board = checkerboard(6);
    for seed in 0..36 {
        let mut log = BondLog::new(CountingBonds { asked: 0 });
        assert_eq!(grow_cluster(&board, seed, false, &mut log), vec![seed]);
        assert_eq!(log.into_source().asked, 0);
    }
}
