//! The periodic `l x l` lattice of `+1`/`-1` spins, stored row-major.

use vstd::prelude::*;
use vstd::arithmetic::div_mod::{
    lemma_fundamental_div_mod, lemma_fundamental_div_mod_converse, lemma_mod_pos_bound,
};

verus! {

/// The most sites a lattice may hold.  Every energy and spin sum of such a
/// lattice fits in an `i64`; no machine can allocate more anyway.
pub open spec fn max_sites() -> int {
    0x1000_0000_0000_0000
}

/// The position after `x` on a ring of `l` positions.
pub open spec fn next(l: int, x: int) -> int {
    if x + 1 == l {
        0
    } else {
        x + 1
    }
}

/// The position before `x` on a ring of `l` positions.
pub open spec fn prev(l: int, x: int) -> int {
    if x == 0 {
        l - 1
    } else {
        x - 1
    }
}

/// Row-major index of `(r, c)`.
pub open spec fn site_of(l: int, r: int, c: int) -> int {
    r * l + c
}

pub open spec fn row_of(l: int, k: int) -> int {
    k / l
}

pub open spec fn col_of(l: int, k: int) -> int {
    k % l
}

/// The wrapped neighbour to the right of site `k`.
pub open spec fn right_of(l: int, k: int) -> int {
    site_of(l, row_of(l, k), next(l, col_of(l, k)))
}

/// The wrapped neighbour to the left of site `k`.
pub open spec fn left_of(l: int, k: int) -> int {
    site_of(l, row_of(l, k), prev(l, col_of(l, k)))
}

/// The wrapped neighbour below site `k`.
pub open spec fn down_of(l: int, k: int) -> int {
    site_of(l, next(l, row_of(l, k)), col_of(l, k))
}

/// The wrapped neighbour above site `k`.
pub open spec fn up_of(l: int, k: int) -> int {
    site_of(l, prev(l, row_of(l, k)), col_of(l, k))
}

/// `j` is one of the four wrapped neighbours of `k`.
pub open spec fn adjacent(l: int, k: int, j: int) -> bool {
    j == up_of(l, k) || j == down_of(l, k) || j == left_of(l, k) || j == right_of(l, k)
}

/// A side of at least two, `l * l` spins, each `+1` or `-1`.
pub open spec fn valid_spins(l: int, s: Seq<i8>) -> bool {
    &&& 2 <= l
    &&& s.len() == l * l
    &&& s.len() <= max_sites()
    &&& forall|k: int| 0 <= k < s.len() ==> s[k] == 1 || s[k] == -1
}

/// The spin value of a site after it is flipped.
pub open spec fn opposite(x: i8) -> i8 {
    if x == 1 {
        -1i8
    } else {
        1i8
    }
}

/// The spins with site `k` flipped.
pub open spec fn flipped(s: Seq<i8>, k: int) -> Seq<i8> {
    s.update(k, opposite(s[k]))
}

/// Sum of the four wrapped neighbours of site `k`.
pub open spec fn neighbor_sum_at(l: int, s: Seq<i8>, k: int) -> int {
    s[up_of(l, k)] + s[down_of(l, k)] + s[left_of(l, k)] + s[right_of(l, k)]
}

/// The energy change of flipping site `k`: `2 s_k` times its neighbour sum.
pub open spec fn flip_cost(l: int, s: Seq<i8>, k: int) -> int {
    2 * s[k] * neighbor_sum_at(l, s, k)
}

/// The two bonds that site `k` owns: to its right and to its lower neighbour.
pub open spec fn bond_energy(l: int, s: Seq<i8>, k: int) -> int {
    -(s[k] * (s[right_of(l, k)] + s[down_of(l, k)]))
}

/// The bonds owned by the sites before `m`.
pub open spec fn energy_upto(l: int, s: Seq<i8>, m: int) -> int
    decreases m,
{
    if m <= 0 {
        0
    } else {
        energy_upto(l, s, m - 1) + bond_energy(l, s, m - 1)
    }
}

/// Total energy `-sum_<ij> s_i s_j` over the `2 l^2` bonds of the torus.
pub open spec fn total_energy(l: int, s: Seq<i8>) -> int {
    energy_upto(l, s, l * l)
}

/// The sum of the spins before `m`.
pub open spec fn spin_sum_upto(s: Seq<i8>, m: int) -> int
    decreases m,
{
    if m <= 0 {
        0
    } else {
        spin_sum_upto(s, m - 1) + s[m - 1]
    }
}

/// The sum of all spins.
pub open spec fn total_spin(s: Seq<i8>) -> int {
    spin_sum_upto(s, s.len() as int)
}

/// The spin sum of the first `m` spins is the number of up spins among them
/// less the number of down spins.
proof fn lemma_spin_sum_upto_counts(s: Seq<i8>, m: int)
    requires
        0 <= m <= s.len(),
        forall|k: int| 0 <= k < s.len() ==> s[k] == 1 || s[k] == -1,
    ensures
        spin_sum_upto(s, m) == s.take(m).filter(|x: i8| x == 1).len() - s.take(m).filter(
            |x: i8| x == -1,
        ).len(),
    decreases m,
{
    reveal(Seq::filter);
    if m == 0 {
        assert(s.take(0) =~= Seq::<i8>::empty());
    } else {
        lemma_spin_sum_upto_counts(s, m - 1);
        let whole = s.take(m);
        assert(whole.drop_last() =~= s.take(m - 1));
        assert(whole.last() == s[m - 1]);
    }
}

/// The spin sum is the number of up spins less the number of down spins: so
/// a lattice with every spin up sums to `l * l`, one with every spin down to
/// `-l * l`, and the sum lies between those.
pub proof fn lemma_spin_sum_counts(s: Seq<i8>)
    requires
        forall|k: int| 0 <= k < s.len() ==> s[k] == 1 || s[k] == -1,
    ensures
        total_spin(s) == s.filter(|x: i8| x == 1).len() - s.filter(|x: i8| x == -1).len(),
        (forall|k: int| 0 <= k < s.len() ==> s[k] == 1) ==> total_spin(s) == s.len(),
        (forall|k: int| 0 <= k < s.len() ==> s[k] == -1) ==> total_spin(s) == -s.len(),
        -s.len() <= total_spin(s) <= s.len(),
{
    lemma_spin_sum_upto_counts(s, s.len() as int);
    assert(s.take(s.len() as int) =~= s);
    let up = |x: i8| x == 1;
    let down = |x: i8| x == -1;
    s.filter_lemma(up);
    s.filter_lemma(down);
    if forall|k: int| 0 <= k < s.len() ==> s[k] == 1 {
        assert(s.filter(up) =~= s) by {
            lemma_filter_all(s, up);
        }
        s.lemma_all_neg_filter_empty(down);
    }
    if forall|k: int| 0 <= k < s.len() ==> s[k] == -1 {
        assert(s.filter(down) =~= s) by {
            lemma_filter_all(s, down);
        }
        s.lemma_all_neg_filter_empty(up);
    }
    lemma_filter_split(s, up, down);
}

/// Filtering by a predicate every element meets keeps the whole sequence.
proof fn lemma_filter_all(s: Seq<i8>, p: spec_fn(i8) -> bool)
    requires
        forall|k: int| 0 <= k < s.len() ==> p(s[k]),
    ensures
        s.filter(p) == s,
    decreases s.len(),
{
    reveal(Seq::filter);
    if s.len() > 0 {
        lemma_filter_all(s.drop_last(), p);
        assert(s.drop_last().push(s.last()) =~= s);
    }
}

/// When every element meets exactly one of two predicates, the two filtered
/// sequences share out the whole.
proof fn lemma_filter_split(s: Seq<i8>, p: spec_fn(i8) -> bool, q: spec_fn(i8) -> bool)
    requires
        forall|k: int| 0 <= k < s.len() ==> (p(s[k]) != q(s[k])),
    ensures
        s.filter(p).len() + s.filter(q).len() == s.len(),
    decreases s.len(),
{
    reveal(Seq::filter);
    if s.len() > 0 {
        lemma_filter_split(s.drop_last(), p, q);
    }
}

/// Replacing spin `k` moves the spin sum of any prefix that holds it by the
/// difference.
proof fn lemma_spin_sum_update(s: Seq<i8>, k: int, v: i8, m: int)
    requires
        0 <= k < s.len(),
        0 <= m <= s.len(),
    ensures
        spin_sum_upto(s.update(k, v), m) == spin_sum_upto(s, m) + if k < m {
            v - s[k]
        } else {
            0
        },
    decreases m,
{
    if m > 0 {
        lemma_spin_sum_update(s, k, v, m - 1);
    }
}

/// Flipping a spin moves the spin sum by twice its opposite: `-2 s_k`.
pub proof fn lemma_flip_spin_sum(s: Seq<i8>, k: int)
    requires
        0 <= k < s.len(),
        s[k] == 1 || s[k] == -1,
    ensures
        total_spin(flipped(s, k)) == total_spin(s) - 2 * s[k],
{
    lemma_spin_sum_update(s, k, opposite(s[k]), s.len() as int);
}

/// Row-major index of `(row, col)` with both coordinates reduced modulo `l`.
pub open spec fn wrapped_index(l: int, row: int, col: int) -> int {
    site_of(l, row % l, col % l)
}

/// Site `r * l + c` of the grid lies inside it and has row `r` and column `c`.
pub proof fn lemma_site(l: int, r: int, c: int)
    requires
        0 <= r < l,
        0 <= c < l,
    ensures
        0 <= site_of(l, r, c) < l * l,
        row_of(l, site_of(l, r, c)) == r,
        col_of(l, site_of(l, r, c)) == c,
{
    assert(0 <= r * l + c < l * l) by (nonlinear_arith)
        requires
            0 <= r < l,
            0 <= c < l,
    ;
    lemma_fundamental_div_mod_converse(r * l + c, l, r, c);
}

/// A wrapped index lies inside the grid.
pub proof fn lemma_wrapped_index(l: int, row: int, col: int)
    requires
        0 < l,
        0 <= row,
        0 <= col,
    ensures
        0 <= wrapped_index(l, row, col) < l * l,
{
    lemma_mod_pos_bound(row, l);
    lemma_mod_pos_bound(col, l);
    lemma_site(l, row % l, col % l);
}

/// Every site of the grid splits into a row and a column inside it.
pub proof fn lemma_split(l: int, k: int)
    requires
        0 < l,
        0 <= k < l * l,
    ensures
        0 <= row_of(l, k) < l,
        0 <= col_of(l, k) < l,
        k == site_of(l, row_of(l, k), col_of(l, k)),
{
    let q = k / l;
    let r = k % l;
    lemma_fundamental_div_mod(k, l);
    lemma_mod_pos_bound(k, l);
    assert(0 <= q < l && k == q * l + r) by (nonlinear_arith)
        requires
            k == l * q + r,
            0 <= r < l,
            0 <= k < l * l,
            0 < l,
    ;
}

/// The four neighbours of a site lie in the grid, and the neighbour relations
/// undo each other.
pub proof fn lemma_neighbors(l: int, k: int)
    requires
        2 <= l,
        0 <= k < l * l,
    ensures
        0 <= right_of(l, k) < l * l,
        0 <= left_of(l, k) < l * l,
        0 <= down_of(l, k) < l * l,
        0 <= up_of(l, k) < l * l,
        right_of(l, k) != k,
        left_of(l, k) != k,
        down_of(l, k) != k,
        up_of(l, k) != k,
        left_of(l, k) != up_of(l, k),
        down_of(l, k) != right_of(l, k),
        right_of(l, left_of(l, k)) == k,
        left_of(l, right_of(l, k)) == k,
        down_of(l, up_of(l, k)) == k,
        up_of(l, down_of(l, k)) == k,
        down_of(l, left_of(l, k)) != k,
        right_of(l, up_of(l, k)) != k,
{
    lemma_split(l, k);
    let r = row_of(l, k);
    let c = col_of(l, k);
    lemma_site(l, r, next(l, c));
    lemma_site(l, r, prev(l, c));
    lemma_site(l, next(l, r), c);
    lemma_site(l, prev(l, r), c);
    lemma_site(l, next(l, r), prev(l, c));
    lemma_site(l, prev(l, r), next(l, c));
}

/// A site whose right (lower) neighbour is `p` is the left (upper) neighbour
/// of `p`.
pub proof fn lemma_neighbor_inverse(l: int, k: int, p: int)
    requires
        2 <= l,
        0 <= k < l * l,
        0 <= p < l * l,
    ensures
        right_of(l, k) == p ==> k == left_of(l, p),
        down_of(l, k) == p ==> k == up_of(l, p),
{
    lemma_split(l, k);
    lemma_split(l, p);
    let r = row_of(l, k);
    let c = col_of(l, k);
    lemma_site(l, r, next(l, c));
    lemma_site(l, next(l, r), c);
}

/// The neighbour sum, the flip cost and the bonds of a site take one of a few
/// values.
pub proof fn lemma_local_values(l: int, s: Seq<i8>, k: int)
    requires
        valid_spins(l, s),
        0 <= k < l * l,
    ensures
        neighbor_sum_at(l, s, k) == -4 || neighbor_sum_at(l, s, k) == -2 || neighbor_sum_at(
            l,
            s,
            k,
        ) == 0 || neighbor_sum_at(l, s, k) == 2 || neighbor_sum_at(l, s, k) == 4,
        flip_cost(l, s, k) == -8 || flip_cost(l, s, k) == -4 || flip_cost(l, s, k) == 0
            || flip_cost(l, s, k) == 4 || flip_cost(l, s, k) == 8,
        -2 <= bond_energy(l, s, k) <= 2,
{
    lemma_neighbors(l, k);
    let x = s[k] as int;
    let n = neighbor_sum_at(l, s, k);
    let b = s[right_of(l, k)] + s[down_of(l, k)];
    assert(x == 1 || x == -1);
    assert(-2 <= b <= 2);
    assert(2 * x * n == 2 * n || 2 * x * n == -2 * n) by (nonlinear_arith)
        requires
            x == 1 || x == -1,
    ;
    assert(x * b == b || x * b == -b) by (nonlinear_arith)
        requires
            x == 1 || x == -1,
    ;
}

/// The partial energies are bounded by two per owning site.
pub proof fn lemma_energy_bound(l: int, s: Seq<i8>, m: int)
    requires
        valid_spins(l, s),
        0 <= m <= l * l,
    ensures
        -2 * m <= energy_upto(l, s, m) <= 2 * m,
    decreases m,
{
    if m > 0 {
        lemma_energy_bound(l, s, m - 1);
        lemma_local_values(l, s, m - 1);
    }
}

/// How much the bonds owned by site `k` change when site `p` flips.
pub open spec fn bond_change(l: int, s: Seq<i8>, p: int, k: int) -> int {
    bond_energy(l, flipped(s, p), k) - bond_energy(l, s, k)
}

/// The bond change of a site that is owned by some site before `m`.
pub open spec fn change_if_before(l: int, s: Seq<i8>, p: int, k: int, m: int) -> int {
    if k < m {
        bond_change(l, s, p, k)
    } else {
        0
    }
}

/// Only the site itself, its left and its upper neighbour own a bond that
/// touches the flipped site, so only their bonds change.
proof fn lemma_flip_energy_upto(l: int, s: Seq<i8>, p: int, m: int)
    requires
        valid_spins(l, s),
        0 <= p < l * l,
        0 <= m <= l * l,
    ensures
        energy_upto(l, flipped(s, p), m) - energy_upto(l, s, m) == change_if_before(l, s, p, p, m)
            + change_if_before(l, s, p, left_of(l, p), m) + change_if_before(
            l,
            s,
            p,
            up_of(l, p),
            m,
        ),
    decreases m,
{
    if m > 0 {
        let k = m - 1;
        lemma_flip_energy_upto(l, s, p, k);
        lemma_neighbors(l, k);
        lemma_neighbors(l, p);
        lemma_neighbor_inverse(l, k, p);
        if k != p && k != left_of(l, p) && k != up_of(l, p) {
            assert(bond_change(l, s, p, k) == 0);
        }
    }
}

/// Flipping one site changes the total energy by exactly its flip cost.
pub proof fn lemma_flip_energy(l: int, s: Seq<i8>, p: int)
    requires
        valid_spins(l, s),
        0 <= p < l * l,
    ensures
        total_energy(l, flipped(s, p)) == total_energy(l, s) + flip_cost(l, s, p),
{
    lemma_flip_energy_upto(l, s, p, l * l);
    lemma_neighbors(l, p);
    let lp = left_of(l, p);
    let up = up_of(l, p);
    lemma_neighbors(l, lp);
    lemma_neighbors(l, up);
    let t = flipped(s, p);
    let x = s[p] as int;
    let r = s[right_of(l, p)] as int;
    let d = s[down_of(l, p)] as int;
    let a = s[lp] as int;
    let b = s[up] as int;
    let e = s[down_of(l, lp)] as int;
    let f = s[right_of(l, up)] as int;
    assert(bond_change(l, s, p, p) == 2 * x * (r + d)) by (nonlinear_arith)
        requires
            bond_change(l, s, p, p) == -((-x) * (r + d)) + x * (r + d),
    {
    }
    assert(bond_change(l, s, p, lp) == 2 * a * x) by (nonlinear_arith)
        requires
            bond_change(l, s, p, lp) == -(a * ((-x) + e)) + a * (x + e),
    {
    }
    assert(bond_change(l, s, p, up) == 2 * b * x) by (nonlinear_arith)
        requires
            bond_change(l, s, p, up) == -(b * (f + (-x))) + b * (f + x),
    {
    }
    assert(flip_cost(l, s, p) == 2 * x * (r + d) + 2 * a * x + 2 * b * x) by (nonlinear_arith)
        requires
            flip_cost(l, s, p) == 2 * x * (b + d + a + r),
    {
    }
}

/// Flipping a valid spin keeps the spins valid.
pub proof fn lemma_flip_valid(l: int, s: Seq<i8>, k: int)
    requires
        valid_spins(l, s),
        0 <= k < l * l,
    ensures
        valid_spins(l, flipped(s, k)),
        flipped(flipped(s, k), k) == s,
{
    assert(flipped(flipped(s, k), k) =~= s);
}

/// Flipping a site negates its own flip cost: its neighbours are unchanged.
pub proof fn lemma_flip_negates_cost(l: int, s: Seq<i8>, p: int)
    requires
        valid_spins(l, s),
        0 <= p < l * l,
    ensures
        flip_cost(l, flipped(s, p), p) == -flip_cost(l, s, p),
{
    lemma_neighbors(l, p);
    let n = neighbor_sum_at(l, s, p);
    let x = s[p] as int;
    assert(neighbor_sum_at(l, flipped(s, p), p) == n);
    assert(2 * (-x) * n == -(2 * x * n)) by (nonlinear_arith);
}

/// Every bond of a lattice with all spins equal agrees: the energy is
/// `-2 l^2`, the ground state.
pub proof fn lemma_uniform_energy(l: int, s: Seq<i8>)
    requires
        valid_spins(l, s),
        forall|k: int| 0 <= k < s.len() ==> #[trigger] s[k] == s[0],
    ensures
        total_energy(l, s) == -2 * (l * l),
{
    lemma_uniform_energy_upto(l, s, l * l);
}

proof fn lemma_uniform_energy_upto(l: int, s: Seq<i8>, m: int)
    requires
        valid_spins(l, s),
        forall|k: int| 0 <= k < s.len() ==> #[trigger] s[k] == s[0],
        0 <= m <= l * l,
    ensures
        energy_upto(l, s, m) == -2 * m,
    decreases m,
{
    if m > 0 {
        lemma_uniform_energy_upto(l, s, m - 1);
        lemma_neighbors(l, m - 1);
        assert(s[m - 1] == s[0]);
        assert(s[right_of(l, m - 1)] == s[0]);
        assert(s[down_of(l, m - 1)] == s[0]);
    }
}

/// The checkerboard: `+1` where row plus column is even, `-1` elsewhere.
pub open spec fn is_checkerboard(l: int, s: Seq<i8>) -> bool {
    forall|k: int|
        0 <= k < s.len() ==> #[trigger] s[k] == if (row_of(l, k) + col_of(l, k)) % 2 == 0 {
            1i8
        } else {
            -1i8
        }
}

/// On an even side every bond of the checkerboard disagrees, so its energy is
/// `+2 l^2`, the highest there is.  (An odd side has a frustrated wrap seam.)
pub proof fn lemma_even_checkerboard_energy(l: int, s: Seq<i8>)
    requires
        valid_spins(l, s),
        l % 2 == 0,
        is_checkerboard(l, s),
    ensures
        total_energy(l, s) == 2 * (l * l),
{
    lemma_checkerboard_energy_upto(l, s, l * l);
}

proof fn lemma_checkerboard_energy_upto(l: int, s: Seq<i8>, m: int)
    requires
        valid_spins(l, s),
        l % 2 == 0,
        is_checkerboard(l, s),
        0 <= m <= l * l,
    ensures
        energy_upto(l, s, m) == 2 * m,
    decreases m,
{
    if m > 0 {
        let k = m - 1;
        lemma_checkerboard_energy_upto(l, s, k);
        lemma_split(l, k);
        let r = row_of(l, k);
        let c = col_of(l, k);
        lemma_site(l, r, next(l, c));
        lemma_site(l, next(l, r), c);
        assert(s[k] == if (r + c) % 2 == 0 { 1i8 } else { -1i8 });
        assert(s[right_of(l, k)] == if (r + next(l, c)) % 2 == 0 { 1i8 } else { -1i8 });
        assert(s[down_of(l, k)] == if (next(l, r) + c) % 2 == 0 { 1i8 } else { -1i8 });
        assert((r + next(l, c)) % 2 != (r + c) % 2);
        assert((next(l, r) + c) % 2 != (r + c) % 2);
        assert(s[right_of(l, k)] == -s[k]);
        assert(s[down_of(l, k)] == -s[k]);
    }
}

/// The message of a refused spin list.
pub open spec fn from_spins_error(l: int, s: Seq<i8>) -> Seq<char> {
    if l < 2 {
        "lattice side must be at least 2"@
    } else if s.len() != l * l {
        "expected l * l spins"@
    } else {
        "every spin must be +1 or -1"@
    }
}

/// A square `l x l` lattice of spins, stored row-major.
#[derive(Clone, Debug, PartialEq, Eq)]
pub struct Lattice {
    l: usize,
    spins: Vec<i8>,
}

impl Lattice {
    /// The side `l`.
    pub closed spec fn side(&self) -> int {
        self.l as int
    }

    /// The `l * l` spins in row-major order.
    pub closed spec fn cells(&self) -> Seq<i8> {
        self.spins@
    }

    /// A side of at least two and `l * l` spins, each `+1` or `-1`.
    pub open spec fn wf(&self) -> bool {
        valid_spins(self.side(), self.cells())
    }

    /// A lattice with every spin up.
    pub fn all_up(l: usize) -> (lattice: Self)
        requires
            2 <= l,
            l * l <= max_sites(),
            l * l <= usize::MAX,
        ensures
            lattice.wf(),
            lattice.side() == l,
            lattice.cells() == Seq::new((l * l) as nat, |k: int| 1i8),
    {
        let n = l * l;
        let spins = vec![1i8; n];
        let lattice = Lattice { l, spins };
        assert(lattice.cells() =~= Seq::new((l * l) as nat, |k: int| 1i8));
        lattice
    }

    /// A lattice from an explicit row-major spin list.
    ///
    /// Refused unless the side is at least two, there are exactly `l * l`
    /// spins and every spin is `+1` or `-1`.
    pub fn from_spins(l: usize, spins: Vec<i8>) -> (res: Result<Self, String>)
        requires
            spins@.len() <= max_sites(),
        ensures
            res is Ok <==> valid_spins(l as int, spins@),
            res matches Ok(lattice) ==> lattice.wf() && lattice.side() == l && lattice.cells()
                == spins@,
            res matches Err(message) ==> message@ == from_spins_error(l as int, spins@),
    {
        let len = spins.len();
        if l < 2 {
            proof {
                reveal_strlit("lattice side must be at least 2");
            }
            return Err("lattice side must be at least 2".to_owned());
        }
        let n = match l.checked_mul(l) {
            Some(n) => n,
            None => {
                proof {
                    reveal_strlit("expected l * l spins");
                }
                return Err("expected l * l spins".to_owned());
            },
        };
        if len != n {
            proof {
                reveal_strlit("expected l * l spins");
            }
            return Err("expected l * l spins".to_owned());
        }
        let mut k: usize = 0;
        while k < n
            invariant
                n == spins@.len(),
                2 <= l,
                n == l * l,
                k <= n,
                forall|j: int| 0 <= j < k ==> spins@[j] == 1 || spins@[j] == -1,
            decreases n - k,
        {
            let value = spins[k];
            if value != 1 && value != -1 {
                proof {
                    reveal_strlit("every spin must be +1 or -1");
                }
                return Err("every spin must be +1 or -1".to_owned());
            }
            k = k + 1;
        }
        Ok(Lattice { l, spins })
    }

    /// The side `l`.
    pub fn l(&self) -> (side: usize)
        ensures
            side == self.side(),
    {
        self.l
    }

    /// The spins in row-major order.
    pub fn spins(&self) -> (spins: &[i8])
        ensures
            spins@ == self.cells(),
    {
        self.spins.as_slice()
    }

    /// The number of sites, `l * l`.
    pub fn site_count(&self) -> (count: usize)
        requires
            self.wf(),
        ensures
            count == self.side() * self.side(),
    {
        self.spins.len()
    }

    /// Row-major index of `(row, col)`; both coordinates are reduced modulo `l`.
    pub fn index(&self, row: usize, col: usize) -> (k: usize)
        requires
            self.wf(),
        ensures
            k == wrapped_index(self.side(), row as int, col as int),
            k < self.side() * self.side(),
    {
        let l = self.l;
        let n = self.spins.len();
        proof {
            lemma_mod_pos_bound(row as int, l as int);
            lemma_mod_pos_bound(col as int, l as int);
            lemma_site(l as int, (row % l) as int, (col % l) as int);
        }
        (row % l) * l + col % l
    }

    /// The spin at `(row, col)`, coordinates reduced modulo `l`.
    pub fn spin(&self, row: usize, col: usize) -> (value: i8)
        requires
            self.wf(),
        ensures
            value == self.cells()[wrapped_index(self.side(), row as int, col as int)],
    {
        let k = self.index(row, col);
        self.spins[k]
    }

    /// The wrapped neighbours of site `k`: above, below, left and right.
    ///
    /// For `l = 2` the same site appears twice, once for each of the two bonds
    /// that glue a pair of sites on a torus of that size.
    pub fn neighbors(&self, k: usize) -> (n: (usize, usize, usize, usize))
        requires
            self.wf(),
            k < self.side() * self.side(),
        ensures
            n.0 == up_of(self.side(), k as int),
            n.1 == down_of(self.side(), k as int),
            n.2 == left_of(self.side(), k as int),
            n.3 == right_of(self.side(), k as int),
            n.0 < self.side() * self.side(),
            n.1 < self.side() * self.side(),
            n.2 < self.side() * self.side(),
            n.3 < self.side() * self.side(),
    {
        let l = self.l;
        let n = self.spins.len();
        proof {
            lemma_split(l as int, k as int);
            lemma_neighbors(l as int, k as int);
        }
        let r = k / l;
        let c = k % l;
        let r_next = if r + 1 == l { 0 } else { r + 1 };
        let r_prev = if r == 0 { l - 1 } else { r - 1 };
        let c_next = if c + 1 == l { 0 } else { c + 1 };
        let c_prev = if c == 0 { l - 1 } else { c - 1 };
        (r_prev * l + c, r_next * l + c, r * l + c_prev, r * l + c_next)
    }

    /// Sum of the four wrapped neighbours of `(row, col)`.
    pub fn neighbor_sum(&self, row: usize, col: usize) -> (sum: i32)
        requires
            self.wf(),
        ensures
            sum == neighbor_sum_at(
                self.side(),
                self.cells(),
                wrapped_index(self.side(), row as int, col as int),
            ),
    {
        let k = self.index(row, col);
        self.neighbor_sum_of(k)
    }

    fn neighbor_sum_of(&self, k: usize) -> (sum: i32)
        requires
            self.wf(),
            k < self.side() * self.side(),
        ensures
            sum == neighbor_sum_at(self.side(), self.cells(), k as int),
            -4 <= sum <= 4,
    {
        let (up, down, left, right) = self.neighbors(k);
        self.spins[up] as i32 + self.spins[down] as i32 + self.spins[left] as i32
            + self.spins[right] as i32
    }

    /// Energy change of flipping `(row, col)`, one of `-8, -4, 0, 4, 8`.
    pub fn delta_energy(&self, row: usize, col: usize) -> (delta: i32)
        requires
            self.wf(),
        ensures
            delta == flip_cost(
                self.side(),
                self.cells(),
                wrapped_index(self.side(), row as int, col as int),
            ),
            delta == -8 || delta == -4 || delta == 0 || delta == 4 || delta == 8,
    {
        let k = self.index(row, col);
        self.delta_energy_of(k)
    }

    /// Energy change of flipping site `k`.
    pub fn delta_energy_of(&self, k: usize) -> (delta: i32)
        requires
            self.wf(),
            k < self.side() * self.side(),
        ensures
            delta == flip_cost(self.side(), self.cells(), k as int),
            delta == -8 || delta == -4 || delta == 0 || delta == 4 || delta == 8,
    {
        proof {
            lemma_local_values(self.side(), self.cells(), k as int);
        }
        let sum = self.neighbor_sum_of(k);
        let here = self.spins[k] as i32;
        2 * here * sum
    }

    /// Total energy `-sum_<ij> s_i s_j` over the `2 l^2` bonds, between
    /// `-2 l^2` and `2 l^2`.
    pub fn energy(&self) -> (total: i64)
        requires
            self.wf(),
        ensures
            total == total_energy(self.side(), self.cells()),
            -2 * (self.side() * self.side()) <= total <= 2 * (self.side() * self.side()),
    {
        let n = self.spins.len();
        let mut total: i64 = 0;
        let mut k: usize = 0;
        while k < n
            invariant
                self.wf(),
                n == self.side() * self.side(),
                k <= n,
                total == energy_upto(self.side(), self.cells(), k as int),
            decreases n - k,
        {
            proof {
                lemma_energy_bound(self.side(), self.cells(), k as int);
                lemma_local_values(self.side(), self.cells(), k as int);
            }
            let (_, down, _, right) = self.neighbors(k);
            let here = self.spins[k] as i64;
            let bond = here * (self.spins[right] as i64 + self.spins[down] as i64);
            total = total - bond;
            k = k + 1;
        }
        proof {
            lemma_energy_bound(self.side(), self.cells(), n as int);
        }
        total
    }

    /// The sum of all spins; the magnetization is this over `l * l`.
    pub fn spin_sum(&self) -> (sum: i64)
        requires
            self.wf(),
        ensures
            sum == total_spin(self.cells()),
            -(self.side() * self.side()) <= sum <= self.side() * self.side(),
    {
        let n = self.spins.len();
        let mut sum: i64 = 0;
        let mut k: usize = 0;
        while k < n
            invariant
                self.wf(),
                n == self.cells().len(),
                k <= n,
                sum == spin_sum_upto(self.cells(), k as int),
                -(k as int) <= sum <= k,
            decreases n - k,
        {
            sum = sum + self.spins[k] as i64;
            k = k + 1;
        }
        sum
    }

    /// Flip the spin at `(row, col)`, coordinates reduced modulo `l`.
    ///
    /// The energy changes by exactly what `delta_energy` predicted.
    pub fn flip(&mut self, row: usize, col: usize)
        requires
            old(self).wf(),
        ensures
            final(self).wf(),
            final(self).side() == old(self).side(),
            final(self).cells() == flipped(
                old(self).cells(),
                wrapped_index(old(self).side(), row as int, col as int),
            ),
            total_energy(final(self).side(), final(self).cells()) == total_energy(
                old(self).side(),
                old(self).cells(),
            ) + flip_cost(
                old(self).side(),
                old(self).cells(),
                wrapped_index(old(self).side(), row as int, col as int),
            ),
    {
        let k = self.index(row, col);
        self.flip_index(k);
    }

    /// Flip the spin of site `k`.
    pub fn flip_index(&mut self, k: usize)
        requires
            old(self).wf(),
            k < old(self).side() * old(self).side(),
        ensures
            final(self).wf(),
            final(self).side() == old(self).side(),
            final(self).cells() == flipped(old(self).cells(), k as int),
            total_energy(final(self).side(), final(self).cells()) == total_energy(
                old(self).side(),
                old(self).cells(),
            ) + flip_cost(old(self).side(), old(self).cells(), k as int),
    {
        proof {
            lemma_flip_valid(self.side(), self.cells(), k as int);
            lemma_flip_energy(self.side(), self.cells(), k as int);
        }
        let value = self.spins[k];
        self.spins.set(k, -value);
        assert(self.cells() =~= flipped(old(self).cells(), k as int));
    }
}

} // verus!
