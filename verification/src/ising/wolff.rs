//! The Wolff single-cluster update.
//!
//! The cluster grows along the bonds of the Fortuin-Kasteleyn representation:
//! a neighbour joins when its spin equals the seed's and its bond is added.
//! Whether a bond is added is decided by the bond probability
//! `p = 1 - exp(-2 / T)` and a uniform draw; the library takes those decisions
//! from a [`BondSource`], through a [`BondLog`] that records every decision,
//! and the caller says whether `p` is exactly one, in which case no decision
//! is drawn at all and every aligned neighbour joins.  The grown cluster is
//! the one that [`growth`] gives for the recorded decisions.

use vstd::prelude::*;
use vstd::set_lib::{lemma_int_range, lemma_len_subset, set_int_range};
use vstd::seq_lib::lemma_no_dup_in_concat;
use crate::ising::lattice::{
    adjacent, down_of, flipped, left_of, lemma_neighbors, opposite, right_of, up_of, valid_spins, Lattice,
};

verus! {

/// Where the bond decisions of a cluster growth come from.
pub trait BondSource {
    /// Whether the bond to the next aligned, unclustered neighbour is added.
    fn bond_added(&mut self) -> bool;
}

/// A bond source together with the record of every decision drawn from it
/// through this log, oldest first.
pub struct BondLog<B: BondSource> {
    source: B,
    decisions: Ghost<Seq<bool>>,
}

impl<B: BondSource> BondLog<B> {
    /// The decisions drawn so far, oldest first.
    pub closed spec fn decisions(&self) -> Seq<bool> {
        self.decisions@
    }

    /// The source the decisions come from.
    pub closed spec fn source(&self) -> B {
        self.source
    }

    /// A log of `source` with nothing drawn yet.
    pub fn new(source: B) -> (log: Self)
        ensures
            log.decisions() == Seq::<bool>::empty(),
            log.source() == source,
    {
        BondLog { source, decisions: Ghost(Seq::empty()) }
    }

    /// The source, with whatever state the draws left it in.
    pub fn into_source(self) -> (source: B)
        ensures
            source == self.source(),
    {
        self.source
    }

    /// Draw the next decision and record it.
    fn bond_added(&mut self) -> (added: bool)
        ensures
            final(self).decisions() == old(self).decisions().push(added),
    {
        let added = self.source.bond_added();
        self.decisions = Ghost(self.decisions@.push(added));
        added
    }
}

/// A distinct list of sites below `n` has at most `n` entries.
pub proof fn lemma_distinct_sites_bound(s: Seq<usize>, n: int)
    requires
        0 <= n,
        s.no_duplicates(),
        forall|i: int| 0 <= i < s.len() ==> s[i] < n,
    ensures
        s.len() <= n,
{
    let t = s.map_values(|x: usize| x as int);
    assert(t.no_duplicates()) by {
        assert forall|i: int, j: int| 0 <= i < t.len() && 0 <= j < t.len() && i != j implies t[i]
            != t[j] by {
            assert(s[i] != s[j]);
        }
    }
    t.unique_seq_to_set();
    lemma_int_range(0, n);
    assert(t.to_set().subset_of(set_int_range(0, n)));
    lemma_len_subset(t.to_set(), set_int_range(0, n));
}

/// What every grown cluster is, whatever the bond decisions: the seed first,
/// no site twice, only sites of the seed's spin, and every later site next to
/// an earlier one.
pub open spec fn grown_from(l: int, s: Seq<i8>, seed: int, cluster: Seq<usize>) -> bool {
    &&& cluster.len() >= 1
    &&& cluster[0] == seed
    &&& cluster.no_duplicates()
    &&& forall|i: int| 0 <= i < cluster.len() ==> cluster[i] < l * l && s[cluster[i] as int] == s[seed]
    &&& forall|i: int|
        #![trigger cluster[i]]
        0 < i < cluster.len() ==> exists|j: int|
            #![trigger cluster[j]]
            0 <= j < i && adjacent(l, cluster[j] as int, cluster[i] as int)
}

/// No aligned neighbour of a cluster site is left outside the cluster.
pub open spec fn closed_under_aligned(l: int, s: Seq<i8>, seed: int, cluster: Seq<usize>) -> bool {
    forall|i: int, y: int|
        0 <= i < cluster.len() && 0 <= y < l * l && #[trigger] adjacent(l, cluster[i] as int, y)
            && s[y] == s[seed] ==> cluster.contains(y as usize)
}

/// Where a cluster growth stands: the growth stack, the marks of the sites
/// in the cluster or on the stack, the cluster so far, and how many bond
/// decisions it has drawn.
#[verifier::ext_equal]
pub struct GrowthState {
    pub stack: Seq<usize>,
    pub marks: Seq<bool>,
    pub cluster: Seq<usize>,
    pub used: nat,
}

/// Decision `i` of `ds`; a decision past the end counts as declined.
pub open spec fn decision(ds: Seq<bool>, i: int) -> bool {
    0 <= i < ds.len() && ds[i]
}

/// Examine neighbour `y` of the site just taken into the cluster.  A marked
/// or opposite-spin neighbour is skipped without a decision; otherwise it
/// joins at once when `certain`, and else the next decision of `ds` says
/// whether it joins.
pub open spec fn examine(
    cells: Seq<i8>,
    spin: i8,
    certain: bool,
    ds: Seq<bool>,
    g: GrowthState,
    y: int,
) -> GrowthState {
    if g.marks[y] || cells[y] != spin {
        g
    } else if certain {
        GrowthState { stack: g.stack.push(y as usize), marks: g.marks.update(y, true), ..g }
    } else if decision(ds, g.used as int) {
        GrowthState {
            stack: g.stack.push(y as usize),
            marks: g.marks.update(y, true),
            used: g.used + 1,
            ..g
        }
    } else {
        GrowthState { used: g.used + 1, ..g }
    }
}

/// What examining a neighbour does, whatever the state of the growth.
///
/// A neighbour that is already marked or has the opposite spin leaves the
/// growth exactly as it was: no bond decision is drawn and nothing joins.  An
/// unmarked neighbour of the seed's spin draws exactly one decision (none
/// when `certain`) and joins, on top of the stack and marked, exactly when
/// `certain` or that decision adds its bond; the cluster itself is untouched.
pub proof fn lemma_examine_draws(
    cells: Seq<i8>,
    spin: i8,
    certain: bool,
    ds: Seq<bool>,
    g: GrowthState,
    y: int,
)
    ensures
        (g.marks[y] || cells[y] != spin) ==> examine(cells, spin, certain, ds, g, y) == g,
        !g.marks[y] && cells[y] == spin ==> ({
            let e = examine(cells, spin, certain, ds, g, y);
            &&& e.used == g.used + if certain {
                0nat
            } else {
                1nat
            }
            &&& e.cluster == g.cluster
            &&& (certain || (g.used < ds.len() && ds[g.used as int])) ==> e.stack == g.stack.push(
                y as usize,
            ) && e.marks == g.marks.update(y, true)
            &&& !(certain || (g.used < ds.len() && ds[g.used as int])) ==> e.stack == g.stack
                && e.marks == g.marks
        }),
{
}

/// One growth step from a non-empty stack takes exactly the top of the stack
/// into the cluster, draws at most one decision per neighbour (none when
/// `certain`), and never unmarks a site.
pub proof fn lemma_step_takes_top(
    l: int,
    cells: Seq<i8>,
    spin: i8,
    certain: bool,
    ds: Seq<bool>,
    g: GrowthState,
)
    requires
        g.stack.len() > 0,
        2 <= l,
        g.marks.len() == l * l,
        g.stack.last() < l * l,
    ensures
        growth_step(l, cells, spin, certain, ds, g).cluster == g.cluster.push(g.stack.last()),
        g.used <= growth_step(l, cells, spin, certain, ds, g).used <= g.used + 4,
        certain ==> growth_step(l, cells, spin, certain, ds, g).used == g.used,
        growth_step(l, cells, spin, certain, ds, g).marks.len() == g.marks.len(),
        forall|k: int|
            0 <= k < g.marks.len() && #[trigger] g.marks[k] ==> growth_step(
                l,
                cells,
                spin,
                certain,
                ds,
                g,
            ).marks[k],
{
    let k = g.stack.last() as int;
    lemma_neighbors(l, k);
    let t = GrowthState { stack: g.stack.drop_last(), cluster: g.cluster.push(g.stack.last()), ..g };
    let t1 = examine(cells, spin, certain, ds, t, up_of(l, k));
    let t2 = examine(cells, spin, certain, ds, t1, down_of(l, k));
    let t3 = examine(cells, spin, certain, ds, t2, left_of(l, k));
    let t4 = examine(cells, spin, certain, ds, t3, right_of(l, k));
    assert(t1.marks.len() == g.marks.len());
    assert(t2.marks.len() == g.marks.len());
    assert(t3.marks.len() == g.marks.len());
    assert(t4.marks.len() == g.marks.len());
}

/// One step of the growth: take the top of the stack into the cluster and
/// examine its neighbours above, below, left and right, in that order.  An
/// empty stack is left as it is.
pub open spec fn growth_step(
    l: int,
    cells: Seq<i8>,
    spin: i8,
    certain: bool,
    ds: Seq<bool>,
    g: GrowthState,
) -> GrowthState {
    if g.stack.len() == 0 {
        g
    } else {
        let site = g.stack.last();
        let k = site as int;
        let t = GrowthState { stack: g.stack.drop_last(), cluster: g.cluster.push(site), ..g };
        let t1 = examine(cells, spin, certain, ds, t, up_of(l, k));
        let t2 = examine(cells, spin, certain, ds, t1, down_of(l, k));
        let t3 = examine(cells, spin, certain, ds, t2, left_of(l, k));
        examine(cells, spin, certain, ds, t3, right_of(l, k))
    }
}

/// The growth before its first step: the seed alone on the stack and marked.
pub open spec fn growth_start(l: int, seed: int) -> GrowthState {
    GrowthState {
        stack: seq![seed as usize],
        marks: Seq::new((l * l) as nat, |k: int| k == seed),
        cluster: Seq::empty(),
        used: 0,
    }
}

/// The growth after `k` steps, with the bond decisions `ds`.
pub open spec fn growth_after(
    l: int,
    cells: Seq<i8>,
    seed: int,
    certain: bool,
    ds: Seq<bool>,
    k: nat,
) -> GrowthState
    decreases k,
{
    if k == 0 {
        growth_start(l, seed)
    } else {
        growth_step(
            l,
            cells,
            cells[seed],
            certain,
            ds,
            growth_after(l, cells, seed, certain, ds, (k - 1) as nat),
        )
    }
}

/// The finished growth from `seed` with the bond decisions `ds`: each step
/// takes one site into the cluster, so after `l * l` steps the stack is empty.
pub open spec fn growth(l: int, cells: Seq<i8>, seed: int, certain: bool, ds: Seq<bool>) -> GrowthState {
    growth_after(l, cells, seed, certain, ds, (l * l) as nat)
}

/// `small` is the start of `big`.
pub open spec fn starts(small: Seq<bool>, big: Seq<bool>) -> bool {
    small.len() <= big.len() && big.take(small.len() as int) == small
}

/// An examination that reads no decision past the end of `ds` reads the same
/// decisions from any longer list that starts with `ds`.
proof fn lemma_examine_extends(
    cells: Seq<i8>,
    spin: i8,
    certain: bool,
    ds: Seq<bool>,
    big: Seq<bool>,
    g: GrowthState,
    y: int,
)
    requires
        starts(ds, big),
        examine(cells, spin, certain, ds, g, y).used <= ds.len(),
    ensures
        examine(cells, spin, certain, big, g, y) == examine(cells, spin, certain, ds, g, y),
        examine(cells, spin, certain, ds, g, y).used >= g.used,
{
    if g.used < ds.len() {
        assert(big[g.used as int] == big.take(ds.len() as int)[g.used as int]);
    }
}

/// A growth step that reads no decision past the end of `ds` reads the same
/// decisions from any longer list that starts with `ds`.
proof fn lemma_step_extends(
    l: int,
    cells: Seq<i8>,
    spin: i8,
    certain: bool,
    ds: Seq<bool>,
    big: Seq<bool>,
    g: GrowthState,
)
    requires
        starts(ds, big),
        growth_step(l, cells, spin, certain, ds, g).used <= ds.len(),
    ensures
        growth_step(l, cells, spin, certain, big, g) == growth_step(l, cells, spin, certain, ds, g),
        growth_step(l, cells, spin, certain, ds, g).used >= g.used,
{
    if g.stack.len() > 0 {
        let site = g.stack.last();
        let k = site as int;
        let t = GrowthState { stack: g.stack.drop_last(), cluster: g.cluster.push(site), ..g };
        let t1 = examine(cells, spin, certain, ds, t, up_of(l, k));
        let t2 = examine(cells, spin, certain, ds, t1, down_of(l, k));
        let t3 = examine(cells, spin, certain, ds, t2, left_of(l, k));
        let t4 = examine(cells, spin, certain, ds, t3, right_of(l, k));
        assert(t1.used >= t.used);
        assert(t2.used >= t1.used);
        assert(t3.used >= t2.used);
        assert(t4.used >= t3.used);
        lemma_examine_extends(cells, spin, certain, ds, big, t, up_of(l, k));
        lemma_examine_extends(cells, spin, certain, ds, big, t1, down_of(l, k));
        lemma_examine_extends(cells, spin, certain, ds, big, t2, left_of(l, k));
        lemma_examine_extends(cells, spin, certain, ds, big, t3, right_of(l, k));
    }
}

/// A growth that has read no decision past the end of `ds` reads the same
/// decisions from any longer list that starts with `ds`.
proof fn lemma_growth_extends(
    l: int,
    cells: Seq<i8>,
    seed: int,
    certain: bool,
    ds: Seq<bool>,
    big: Seq<bool>,
    k: nat,
)
    requires
        starts(ds, big),
        growth_after(l, cells, seed, certain, ds, k).used <= ds.len(),
    ensures
        growth_after(l, cells, seed, certain, big, k) == growth_after(l, cells, seed, certain, ds, k),
    decreases k,
{
    if k > 0 {
        let prev = growth_after(l, cells, seed, certain, ds, (k - 1) as nat);
        lemma_step_extends(l, cells, cells[seed], certain, ds, big, prev);
        lemma_growth_extends(l, cells, seed, certain, ds, big, (k - 1) as nat);
    }
}

/// Once the stack is empty the growth stays where it is.
proof fn lemma_growth_settled(
    l: int,
    cells: Seq<i8>,
    seed: int,
    certain: bool,
    ds: Seq<bool>,
    k: nat,
    later: nat,
)
    requires
        growth_after(l, cells, seed, certain, ds, k).stack.len() == 0,
        k <= later,
    ensures
        growth_after(l, cells, seed, certain, ds, later) == growth_after(l, cells, seed, certain, ds, k),
    decreases later,
{
    if later > k {
        lemma_growth_settled(l, cells, seed, certain, ds, k, (later - 1) as nat);
    }
}

/// `a` starts `b` and `b` starts `c`: `a` starts `c`; and dropping the same
/// first entries of both keeps it so.
proof fn lemma_starts(a: Seq<bool>, b: Seq<bool>, c: Seq<bool>, base: int)
    requires
        starts(a, b),
        starts(b, c),
        0 <= base <= a.len(),
    ensures
        starts(a, c),
        starts(a.skip(base), c.skip(base)),
        starts(b.skip(base), c.skip(base)),
{
    assert(c.take(a.len() as int) =~= b.take(a.len() as int));
    assert(c.skip(base).take(a.skip(base).len() as int) =~= a.skip(base));
    assert(c.skip(base).take(b.skip(base).len() as int) =~= b.skip(base));
}

/// One pass of the growth loop, its four neighbour examinations each made
/// with the decisions drawn so far, is one growth step with all of them.
proof fn lemma_growth_step(
    l: int,
    cells: Seq<i8>,
    seed: int,
    certain: bool,
    base: int,
    k: nat,
    ds0: Seq<bool>,
    l1: Seq<bool>,
    l2: Seq<bool>,
    l3: Seq<bool>,
    l4: Seq<bool>,
    l5: Seq<bool>,
    t: GrowthState,
    t1: GrowthState,
    t2: GrowthState,
    t3: GrowthState,
    t4: GrowthState,
)
    requires
        0 <= base <= l1.len(),
        ds0 == l1.skip(base),
        starts(l1, l2),
        starts(l2, l3),
        starts(l3, l4),
        starts(l4, l5),
        ({
            let g = growth_after(l, cells, seed, certain, ds0, k);
            &&& g.stack.len() > 0
            &&& t == GrowthState {
                stack: g.stack.drop_last(),
                cluster: g.cluster.push(g.stack.last()),
                ..g
            }
            &&& examine(cells, cells[seed], certain, l2.skip(base), t, up_of(l, g.stack.last() as int)) == t1
            &&& examine(cells, cells[seed], certain, l3.skip(base), t1, down_of(l, g.stack.last() as int)) == t2
            &&& examine(cells, cells[seed], certain, l4.skip(base), t2, left_of(l, g.stack.last() as int)) == t3
            &&& examine(cells, cells[seed], certain, l5.skip(base), t3, right_of(l, g.stack.last() as int)) == t4
        }),
        t.used == l1.len() - base,
        t1.used == l2.len() - base,
        t2.used == l3.len() - base,
        t3.used == l4.len() - base,
        t4.used == l5.len() - base,
    ensures
        growth_after(l, cells, seed, certain, l5.skip(base), k + 1) == t4,
{
    let big = l5.skip(base);
    let spin = cells[seed];
    let g = growth_after(l, cells, seed, certain, ds0, k);
    let site = g.stack.last() as int;
    lemma_starts(l1, l2, l3, base);
    lemma_starts(l1, l3, l4, base);
    lemma_starts(l1, l4, l5, base);
    lemma_starts(l2, l3, l4, base);
    lemma_starts(l2, l4, l5, base);
    lemma_starts(l3, l4, l5, base);
    assert(starts(l4.skip(base), big));
    assert(starts(l3.skip(base), big));
    assert(starts(l2.skip(base), big));
    assert(starts(ds0, big));
    lemma_examine_extends(cells, spin, certain, l2.skip(base), big, t, up_of(l, site));
    lemma_examine_extends(cells, spin, certain, l3.skip(base), big, t1, down_of(l, site));
    lemma_examine_extends(cells, spin, certain, l4.skip(base), big, t2, left_of(l, site));
    assert(big.take(big.len() as int) =~= big);
    lemma_examine_extends(cells, spin, certain, big, big, t3, right_of(l, site));
    lemma_growth_extends(l, cells, seed, certain, ds0, big, k);
}

/// Consider one neighbour of the site being grown from: it joins when it is
/// not in the cluster yet, has the seed's spin, and its bond is added.  A
/// neighbour that is already clustered or has the opposite spin is skipped
/// without drawing a decision, and so is every neighbour when `certain`.
fn visit<B: BondSource>(
    spins: &[i8],
    seed_spin: i8,
    certain: bool,
    bonds: &mut BondLog<B>,
    neighbor: usize,
    in_cluster: &mut Vec<bool>,
    stack: &mut Vec<usize>,
    Ghost(base): Ghost<int>,
    Ghost(cluster): Ghost<Seq<usize>>,
)
    requires
        neighbor < old(in_cluster)@.len(),
        old(in_cluster)@.len() == spins@.len(),
        0 <= base <= old(bonds).decisions().len(),
    ensures
        final(in_cluster)@.len() == old(in_cluster)@.len(),
        (final(stack)@ == old(stack)@ && final(in_cluster)@ == old(in_cluster)@) || (
        !old(in_cluster)@[neighbor as int] && spins@[neighbor as int] == seed_spin
            && final(stack)@ == old(stack)@.push(neighbor) && final(in_cluster)@ == old(
            in_cluster,
        )@.update(neighbor as int, true)),
        certain && !old(in_cluster)@[neighbor as int] && spins@[neighbor as int] == seed_spin
            ==> final(stack)@ == old(stack)@.push(neighbor),
        starts(old(bonds).decisions(), final(bonds).decisions()),
        certain ==> final(bonds).decisions() == old(bonds).decisions(),
        examine(
            spins@,
            seed_spin,
            certain,
            final(bonds).decisions().skip(base),
            GrowthState {
                stack: old(stack)@,
                marks: old(in_cluster)@,
                cluster,
                used: (old(bonds).decisions().len() - base) as nat,
            },
            neighbor as int,
        ) == (GrowthState {
            stack: final(stack)@,
            marks: final(in_cluster)@,
            cluster,
            used: (final(bonds).decisions().len() - base) as nat,
        }),
{
    let ghost before = bonds.decisions();
    if !in_cluster[neighbor] && spins[neighbor] == seed_spin {
        if certain {
            in_cluster.set(neighbor, true);
            stack.push(neighbor);
        } else {
            let added = bonds.bond_added();
            proof {
                let ds = bonds.decisions().skip(base);
                assert(ds[before.len() - base] == added);
            }
            if added {
                in_cluster.set(neighbor, true);
                stack.push(neighbor);
            }
        }
    }
    assert(bonds.decisions().take(before.len() as int) =~= before);
}

/// The growth stack is consistent with the cluster so far: no site twice, no
/// site in both, the marks are exactly the sites in either, every stacked site
/// has the seed's spin and (once the cluster is started) a neighbour in it.
pub open spec fn frontier_ok(
    l: int,
    cells: Seq<i8>,
    spin: i8,
    cluster: Seq<usize>,
    stack: Seq<usize>,
    marks: Seq<bool>,
) -> bool {
    &&& marks.len() == l * l
    &&& stack.no_duplicates()
    &&& forall|i: int, j: int|
        0 <= i < cluster.len() && 0 <= j < stack.len() ==> cluster[i] != stack[j]
    &&& forall|k: int|
        0 <= k < l * l ==> (#[trigger] marks[k] <==> (cluster.contains(k as usize)
            || stack.contains(k as usize)))
    &&& forall|i: int|
        0 <= i < stack.len() ==> #[trigger] stack[i] < l * l && cells[stack[i] as int] == spin
    &&& cluster.len() > 0 ==> forall|i: int|
        #![trigger stack[i]]
        0 <= i < stack.len() ==> exists|j: int|
            #![trigger cluster[j]]
            0 <= j < cluster.len() && adjacent(l, cluster[j] as int, stack[i] as int)
}

/// The cluster so far: started at the seed, no site twice, only the seed's
/// spin, every later site next to an earlier one.
pub open spec fn cluster_ok(l: int, cells: Seq<i8>, seed: int, cluster: Seq<usize>) -> bool {
    &&& cluster.len() > 0 ==> cluster[0] == seed
    &&& cluster.no_duplicates()
    &&& forall|i: int|
        0 <= i < cluster.len() ==> #[trigger] cluster[i] < l * l && cells[cluster[i] as int]
            == cells[seed]
    &&& forall|i: int|
        #![trigger cluster[i]]
        0 < i < cluster.len() ==> exists|j: int|
            #![trigger cluster[j]]
            0 <= j < i && adjacent(l, cluster[j] as int, cluster[i] as int)
}

/// Every aligned neighbour of a cluster site is marked.
pub open spec fn marked_around(
    l: int,
    cells: Seq<i8>,
    spin: i8,
    cluster: Seq<usize>,
    upto: int,
    marks: Seq<bool>,
) -> bool {
    forall|i: int, y: int|
        0 <= i < upto && 0 <= y < l * l && #[trigger] adjacent(l, cluster[i] as int, y) && cells[y]
            == spin ==> marks[y]
}

/// Taking the top of the stack into the cluster keeps both consistent.
proof fn lemma_take(
    l: int,
    cells: Seq<i8>,
    seed: int,
    cluster: Seq<usize>,
    stack: Seq<usize>,
    marks: Seq<bool>,
)
    requires
        frontier_ok(l, cells, cells[seed], cluster, stack, marks),
        cluster_ok(l, cells, seed, cluster),
        stack.len() > 0,
        0 <= seed < l * l,
        l * l <= usize::MAX,
        cluster.len() == 0 ==> stack == seq![seed as usize],
    ensures
        frontier_ok(l, cells, cells[seed], cluster.push(stack.last()), stack.drop_last(), marks),
        cluster_ok(l, cells, seed, cluster.push(stack.last())),
{
    let site = stack.last();
    let c1 = cluster.push(site);
    let s1 = stack.drop_last();
    if cluster.len() > 0 {
        assert(c1[0] == cluster[0]);
    }
    assert forall|k: int| 0 <= k < l * l implies (#[trigger] marks[k] <==> (c1.contains(
        k as usize,
    ) || s1.contains(k as usize))) by {
        if stack.contains(k as usize) {
            let j = choose|j: int| 0 <= j < stack.len() && stack[j] == k as usize;
            if j == stack.len() - 1 {
                assert(c1[cluster.len() as int] == k as usize);
            } else {
                assert(s1[j] == k as usize);
            }
        }
        if cluster.contains(k as usize) {
            let j = choose|j: int| 0 <= j < cluster.len() && cluster[j] == k as usize;
            assert(c1[j] == k as usize);
        }
        if c1.contains(k as usize) {
            let j = choose|j: int| 0 <= j < c1.len() && c1[j] == k as usize;
            if j < cluster.len() {
                assert(cluster[j] == k as usize);
            }
        }
        if s1.contains(k as usize) {
            let j = choose|j: int| 0 <= j < s1.len() && s1[j] == k as usize;
            assert(stack[j] == k as usize);
        }
    }
    assert forall|i: int| 0 <= i < s1.len() implies #[trigger] s1[i] < l * l && cells[s1[i] as int]
        == cells[seed] by {
        assert(s1[i] == stack[i]);
    }
    if cluster.len() > 0 {
        assert forall|i: int| #![trigger s1[i]] 0 <= i < s1.len() implies exists|j: int|
            #![trigger c1[j]]
            0 <= j < c1.len() && adjacent(l, c1[j] as int, s1[i] as int) by {
            assert(s1[i] == stack[i]);
            let j = choose|j: int| 0 <= j < cluster.len() && adjacent(l, cluster[j] as int, stack[i] as int);
            assert(c1[j] == cluster[j]);
        }
        assert forall|i: int| #![trigger c1[i]] 0 < i < c1.len() implies exists|j: int|
            #![trigger c1[j]]
            0 <= j < i && adjacent(l, c1[j] as int, c1[i] as int) by {
            if i < cluster.len() {
                let j = choose|j: int| 0 <= j < i && adjacent(l, cluster[j] as int, cluster[i] as int);
                assert(c1[j] == cluster[j]);
            } else {
                let j = choose|j: int|
                    0 <= j < cluster.len() && adjacent(l, cluster[j] as int, stack[stack.len() - 1] as int);
                assert(c1[j] == cluster[j]);
            }
        }
    } else {
        assert(s1.len() == 0);
        assert(c1[0] == seed as usize);
    }
    assert(c1.no_duplicates()) by {
        assert forall|i: int, j: int| 0 <= i < c1.len() && 0 <= j < c1.len() && i != j implies c1[i]
            != c1[j] by {
            if i < cluster.len() && j < cluster.len() {
            } else if i < cluster.len() {
                assert(cluster[i] != stack[stack.len() - 1]);
            } else if j < cluster.len() {
                assert(cluster[j] != stack[stack.len() - 1]);
            }
        }
    }
    assert forall|i: int, j: int| 0 <= i < c1.len() && 0 <= j < s1.len() implies c1[i] != s1[j] by {
        if i < cluster.len() {
            assert(s1[j] == stack[j]);
        } else {
            assert(stack[j] != stack[stack.len() - 1]);
        }
    }
    assert forall|i: int| 0 <= i < c1.len() implies #[trigger] c1[i] < l * l && cells[c1[i] as int]
        == cells[seed] by {
        if i < cluster.len() {
            assert(c1[i] == cluster[i]);
        } else {
            assert(c1[i] == stack[stack.len() - 1]);
        }
    }
}

/// One neighbour visit of the newest cluster site keeps the stack consistent,
/// and marks only grow.
proof fn lemma_visit(
    l: int,
    cells: Seq<i8>,
    spin: i8,
    cluster: Seq<usize>,
    stack: Seq<usize>,
    marks: Seq<bool>,
    stack2: Seq<usize>,
    marks2: Seq<bool>,
    neighbor: usize,
)
    requires
        frontier_ok(l, cells, spin, cluster, stack, marks),
        cluster.len() > 0,
        0 <= neighbor < l * l,
        l * l <= usize::MAX,
        adjacent(l, cluster.last() as int, neighbor as int),
        marks2.len() == marks.len(),
        (stack2 == stack && marks2 == marks) || (!marks[neighbor as int] && cells[neighbor as int]
            == spin && stack2 == stack.push(neighbor) && marks2 == marks.update(
            neighbor as int,
            true,
        )),
    ensures
        frontier_ok(l, cells, spin, cluster, stack2, marks2),
        forall|k: int| 0 <= k < l * l && #[trigger] marks[k] ==> marks2[k],
        stack2.len() >= stack.len(),
{
    if stack2 != stack || marks2 != marks {
        assert(!stack.contains(neighbor));
        assert(!cluster.contains(neighbor));
        assert forall|k: int| 0 <= k < l * l implies (#[trigger] marks2[k] <==> (cluster.contains(
            k as usize,
        ) || stack2.contains(k as usize))) by {
            if stack2.contains(k as usize) {
                let j = choose|j: int| 0 <= j < stack2.len() && stack2[j] == k as usize;
                if j < stack.len() {
                    assert(stack[j] == k as usize);
                }
            }
            if stack.contains(k as usize) {
                let j = choose|j: int| 0 <= j < stack.len() && stack[j] == k as usize;
                assert(stack2[j] == k as usize);
            }
            if k == neighbor as int {
                assert(stack2[stack.len() as int] == neighbor);
            }
        }
        assert forall|i: int| #![trigger stack2[i]] 0 <= i < stack2.len() implies exists|j: int|
            #![trigger cluster[j]]
            0 <= j < cluster.len() && adjacent(l, cluster[j] as int, stack2[i] as int) by {
            if i < stack.len() {
                assert(stack2[i] == stack[i]);
            } else {
                assert(cluster[cluster.len() - 1] == cluster.last());
            }
        }
        assert forall|i: int, j: int| 0 <= i < stack2.len() && 0 <= j < stack2.len() && i != j implies stack2[i]
            != stack2[j] by {
            if i < stack.len() && j < stack.len() {
            } else if i < stack.len() {
                assert(stack[i] != neighbor);
            } else if j < stack.len() {
                assert(stack[j] != neighbor);
            }
        }
        assert forall|i: int, j: int| 0 <= i < cluster.len() && 0 <= j < stack2.len() implies cluster[i]
            != stack2[j] by {
            if j < stack.len() {
                assert(stack2[j] == stack[j]);
            } else {
                assert(cluster[i] != neighbor);
            }
        }
        assert forall|i: int| 0 <= i < stack2.len() implies #[trigger] stack2[i] < l * l && cells[stack2[i] as int]
            == spin by {
            if i < stack.len() {
                assert(stack2[i] == stack[i]);
            }
        }
    }
}

/// The cluster grown from `seed`, in the order its sites were taken off the
/// growth stack.
///
/// The seed is first.  A neighbour joins only when its spin equals the seed's
/// spin and its bond is added; an opposite-spin neighbour and an
/// already-clustered neighbour are skipped without drawing a decision.  With
/// `certain` (a bond probability of exactly one) no decision is drawn and the
/// whole aligned component of the seed joins.  For `l = 2` the same
/// neighbour appears twice among the four, and each appearance is decided on
/// its own.
pub fn grow_cluster<B: BondSource>(
    lattice: &Lattice,
    seed: usize,
    certain: bool,
    bonds: &mut BondLog<B>,
) -> (cluster: Vec<usize>)
    requires
        lattice.wf(),
        seed < lattice.side() * lattice.side(),
    ensures
        grown_from(lattice.side(), lattice.cells(), seed as int, cluster@),
        cluster@.len() <= lattice.side() * lattice.side(),
        certain ==> closed_under_aligned(lattice.side(), lattice.cells(), seed as int, cluster@),
        starts(old(bonds).decisions(), final(bonds).decisions()),
        certain ==> final(bonds).decisions() == old(bonds).decisions(),
        ({
            let g = growth(
                lattice.side(),
                lattice.cells(),
                seed as int,
                certain,
                final(bonds).decisions().skip(old(bonds).decisions().len() as int),
            );
            &&& cluster@ == g.cluster
            &&& g.stack.len() == 0
            &&& g.used == final(bonds).decisions().len() - old(bonds).decisions().len()
        }),
{
    let ghost l = lattice.side();
    let ghost cells = lattice.cells();
    let ghost log0 = bonds.decisions();
    let ghost base = log0.len() as int;
    let n = lattice.site_count();
    let spins = lattice.spins();
    let seed_spin = spins[seed];
    let mut in_cluster: Vec<bool> = vec![false; n];
    in_cluster.set(seed, true);
    let mut cluster: Vec<usize> = Vec::new();
    let mut stack: Vec<usize> = Vec::new();
    stack.push(seed);
    assert(stack@ =~= seq![seed]);
    assert forall|k: int| 0 <= k < n implies (#[trigger] in_cluster@[k] <==> (cluster@.contains(
        k as usize,
    ) || stack@.contains(k as usize))) by {
        if k == seed {
            assert(stack@[0] == seed);
        }
    }
    assert(in_cluster@ =~= growth_start(l, seed as int).marks);
    assert(bonds.decisions().skip(base) =~= Seq::<bool>::empty());
    assert(bonds.decisions().take(base) =~= log0);
    while stack.len() > 0
        invariant
            lattice.wf(),
            l == lattice.side(),
            cells == lattice.cells(),
            n == l * l,
            spins@ == cells,
            seed < n,
            seed_spin == cells[seed as int],
            frontier_ok(l, cells, seed_spin, cluster@, stack@, in_cluster@),
            cluster_ok(l, cells, seed as int, cluster@),
            cluster@.len() == 0 ==> stack@ == seq![seed],
            certain ==> marked_around(l, cells, seed_spin, cluster@, cluster@.len() as int, in_cluster@),
            cluster@.len() + stack@.len() <= n,
            base == log0.len(),
            starts(log0, bonds.decisions()),
            certain ==> bonds.decisions() == log0,
            growth_after(l, cells, seed as int, certain, bonds.decisions().skip(base), cluster@.len() as nat)
                == (GrowthState {
                stack: stack@,
                marks: in_cluster@,
                cluster: cluster@,
                used: (bonds.decisions().len() - base) as nat,
            }),
        decreases 2 * (n - cluster@.len()) - stack@.len(),
    {
        let ghost c0 = cluster@;
        let ghost s0 = stack@;
        let ghost m0 = in_cluster@;
        let ghost ds0 = bonds.decisions().skip(base);
        proof {
            lemma_take(l, cells, seed as int, c0, s0, m0);
        }
        let site = stack.pop().unwrap();
        cluster.push(site);
        assert(stack@ == s0.drop_last());
        assert(cluster@ == c0.push(s0.last()));
        let (up, down, left, right) = lattice.neighbors(site);
        let ghost s1 = stack@;
        let ghost m1 = in_cluster@;
        let ghost l1 = bonds.decisions();
        visit(spins, seed_spin, certain, bonds, up, &mut in_cluster, &mut stack, Ghost(base), Ghost(cluster@));
        proof {
            lemma_visit(l, cells, seed_spin, cluster@, s1, m1, stack@, in_cluster@, up);
        }
        let ghost s2 = stack@;
        let ghost m2 = in_cluster@;
        let ghost l2 = bonds.decisions();
        visit(spins, seed_spin, certain, bonds, down, &mut in_cluster, &mut stack, Ghost(base), Ghost(cluster@));
        proof {
            lemma_visit(l, cells, seed_spin, cluster@, s2, m2, stack@, in_cluster@, down);
        }
        let ghost s3 = stack@;
        let ghost m3 = in_cluster@;
        let ghost l3 = bonds.decisions();
        visit(spins, seed_spin, certain, bonds, left, &mut in_cluster, &mut stack, Ghost(base), Ghost(cluster@));
        proof {
            lemma_visit(l, cells, seed_spin, cluster@, s3, m3, stack@, in_cluster@, left);
        }
        let ghost s4 = stack@;
        let ghost m4 = in_cluster@;
        let ghost l4 = bonds.decisions();
        visit(spins, seed_spin, certain, bonds, right, &mut in_cluster, &mut stack, Ghost(base), Ghost(cluster@));
        proof {
            lemma_visit(l, cells, seed_spin, cluster@, s4, m4, stack@, in_cluster@, right);
            lemma_no_dup_in_concat(cluster@, stack@);
            lemma_distinct_sites_bound(cluster@ + stack@, n as int);
            if certain {
                assert forall|i: int, y: int|
                    0 <= i < cluster@.len() && 0 <= y < l * l && #[trigger] adjacent(
                        l,
                        cluster@[i] as int,
                        y,
                    ) && cells[y] == seed_spin implies in_cluster@[y] by {
                    if i < c0.len() {
                        assert(cluster@[i] == c0[i]);
                        assert(m0[y]);
                    } else {
                        assert(cluster@[i] == site);
                    }
                }
            }
            lemma_starts(l1, l2, l3, 0);
            lemma_starts(l1, l3, l4, 0);
            lemma_starts(l1, l4, bonds.decisions(), 0);
            lemma_starts(log0, l1, bonds.decisions(), 0);
            let t = GrowthState { stack: s1, marks: m1, cluster: cluster@, used: (l1.len() - base) as nat };
            let t1 = GrowthState { stack: s2, marks: m2, cluster: cluster@, used: (l2.len() - base) as nat };
            let t2 = GrowthState { stack: s3, marks: m3, cluster: cluster@, used: (l3.len() - base) as nat };
            let t3 = GrowthState { stack: s4, marks: m4, cluster: cluster@, used: (l4.len() - base) as nat };
            lemma_growth_step(
                l,
                cells,
                seed as int,
                certain,
                base,
                c0.len() as nat,
                ds0,
                l1,
                l2,
                l3,
                l4,
                bonds.decisions(),
                t,
                t1,
                t2,
                t3,
                GrowthState {
                    stack: stack@,
                    marks: in_cluster@,
                    cluster: cluster@,
                    used: (bonds.decisions().len() - base) as nat,
                },
            );
        }
    }
    proof {
        assert(cluster@.len() > 0);
        if certain {
            assert forall|i: int, y: int|
                0 <= i < cluster@.len() && 0 <= y < l * l && #[trigger] adjacent(l, cluster@[i] as int, y)
                    && cells[y] == cells[seed as int] implies cluster@.contains(y as usize) by {
                assert(in_cluster@[y]);
            }
        }
        lemma_growth_settled(
            l,
            cells,
            seed as int,
            certain,
            bonds.decisions().skip(base),
            cluster@.len() as nat,
            (l * l) as nat,
        );
    }
    cluster
}

/// A seed none of whose neighbours shares its spin (as on a checkerboard)
/// never grows: whatever the bond decisions, the cluster is the seed alone.
pub proof fn lemma_lone_seed(l: int, s: Seq<i8>, seed: int, cluster: Seq<usize>)
    requires
        valid_spins(l, s),
        0 <= seed < l * l,
        grown_from(l, s, seed, cluster),
        forall|y: int| 0 <= y < l * l && #[trigger] adjacent(l, seed, y) ==> s[y] != s[seed],
    ensures
        cluster == seq![seed as usize],
{
    if cluster.len() > 1 {
        let j = choose|j: int| 0 <= j < 1 && adjacent(l, cluster[j] as int, cluster[1] as int);
        assert(j == 0);
        assert(s[cluster[1] as int] == s[seed]);
    }
    assert(cluster =~= seq![seed as usize]);
}

/// A seed none of whose neighbours shares its spin grows no further and draws
/// no bond decision, whatever the decisions would have been.
pub proof fn lemma_lone_seed_draws_nothing(l: int, s: Seq<i8>, seed: int, certain: bool, ds: Seq<bool>)
    requires
        valid_spins(l, s),
        0 <= seed < l * l,
        l * l <= usize::MAX,
        forall|y: int| 0 <= y < l * l && #[trigger] adjacent(l, seed, y) ==> s[y] != s[seed],
    ensures
        growth(l, s, seed, certain, ds).cluster == seq![seed as usize],
        growth(l, s, seed, certain, ds).used == 0,
        growth(l, s, seed, certain, ds).stack.len() == 0,
{
    lemma_neighbors(l, seed);
    assert(adjacent(l, seed, up_of(l, seed)));
    assert(adjacent(l, seed, down_of(l, seed)));
    assert(adjacent(l, seed, left_of(l, seed)));
    assert(adjacent(l, seed, right_of(l, seed)));
    let g0 = growth_start(l, seed);
    assert(growth_after(l, s, seed, certain, ds, 0) == g0);
    assert(g0.stack.last() == seed as usize);
    let t = GrowthState { stack: g0.stack.drop_last(), cluster: g0.cluster.push(seed as usize), ..g0 };
    assert(!t.marks[up_of(l, seed)]);
    assert(!t.marks[down_of(l, seed)]);
    assert(!t.marks[left_of(l, seed)]);
    assert(!t.marks[right_of(l, seed)]);
    let spin = s[seed];
    assert(examine(s, spin, certain, ds, t, up_of(l, seed)) == t);
    assert(examine(s, spin, certain, ds, t, down_of(l, seed)) == t);
    assert(examine(s, spin, certain, ds, t, left_of(l, seed)) == t);
    assert(examine(s, spin, certain, ds, t, right_of(l, seed)) == t);
    assert(growth_after(l, s, seed, certain, ds, 1) == t);
    assert(t.stack =~= Seq::<usize>::empty());
    assert(t.cluster =~= seq![seed as usize]);
    assert(1 <= l * l) by (nonlinear_arith)
        requires
            0 <= seed < l * l,
    ;
    lemma_growth_settled(l, s, seed, certain, ds, 1, (l * l) as nat);
}

/// A walk of aligned neighbours from the seed: every step to a wrapped
/// neighbour, every site of the seed's spin.
pub open spec fn aligned_walk(l: int, s: Seq<i8>, seed: int, walk: Seq<int>) -> bool {
    &&& walk.len() >= 1
    &&& walk[0] == seed
    &&& forall|i: int| 0 <= i < walk.len() ==> 0 <= #[trigger] walk[i] < l * l && s[walk[i]] == s[seed]
    &&& forall|i: int| 0 < i < walk.len() ==> #[trigger] adjacent(l, walk[i - 1], walk[i])
}

/// A cluster closed under aligned neighbours holds the seed's whole aligned
/// component: every site that an aligned walk from the seed reaches.
pub proof fn lemma_component_joins(l: int, s: Seq<i8>, seed: int, cluster: Seq<usize>, walk: Seq<int>)
    requires
        0 <= seed < l * l,
        l * l <= usize::MAX,
        grown_from(l, s, seed, cluster),
        closed_under_aligned(l, s, seed, cluster),
        aligned_walk(l, s, seed, walk),
    ensures
        forall|i: int| 0 <= i < walk.len() ==> cluster.contains(#[trigger] walk[i] as usize),
    decreases walk.len(),
{
    if walk.len() == 1 {
        assert(cluster[0] == seed as usize);
    } else {
        let shorter = walk.drop_last();
        assert forall|i: int| 0 <= i < shorter.len() implies 0 <= #[trigger] shorter[i] < l * l && s[shorter[i]] == s[seed] by {
            assert(shorter[i] == walk[i]);
        }
        assert forall|i: int| 0 < i < shorter.len() implies #[trigger] adjacent(l, shorter[i - 1], shorter[i]) by {
            assert(shorter[i] == walk[i]);
            assert(shorter[i - 1] == walk[i - 1]);
        }
        lemma_component_joins(l, s, seed, cluster, shorter);
        let last = walk.len() - 1;
        assert(cluster.contains(shorter[last - 1] as usize));
        let j = choose|j: int| 0 <= j < cluster.len() && cluster[j] == walk[last - 1] as usize;
        assert(adjacent(l, cluster[j] as int, walk[last]));
        assert forall|i: int| 0 <= i < walk.len() implies cluster.contains(#[trigger] walk[i] as usize) by {
            if i < last {
                assert(walk[i] == shorter[i]);
            }
        }
    }
}

/// The spins with every site of `sites` flipped.
pub open spec fn flip_all(s: Seq<i8>, sites: Seq<usize>) -> Seq<i8> {
    Seq::new(
        s.len(),
        |k: int|
            if sites.contains(k as usize) {
                opposite(s[k])
            } else {
                s[k]
            },
    )
}

/// One Wolff move from a given seed: grow its cluster and flip all of it.
///
/// There is no acceptance test; the bond probability already makes the flip
/// exact.  Returns the number of spins flipped, the move's cluster size: the
/// spins that changed are exactly one grown cluster.
pub fn cluster_flip<B: BondSource>(
    lattice: &mut Lattice,
    seed: usize,
    certain: bool,
    bonds: &mut BondLog<B>,
) -> (size: usize)
    requires
        old(lattice).wf(),
        seed < old(lattice).side() * old(lattice).side(),
    ensures
        final(lattice).wf(),
        final(lattice).side() == old(lattice).side(),
        1 <= size <= old(lattice).side() * old(lattice).side(),
        starts(old(bonds).decisions(), final(bonds).decisions()),
        certain ==> final(bonds).decisions() == old(bonds).decisions(),
        ({
            let g = growth(
                old(lattice).side(),
                old(lattice).cells(),
                seed as int,
                certain,
                final(bonds).decisions().skip(old(bonds).decisions().len() as int),
            );
            &&& grown_from(old(lattice).side(), old(lattice).cells(), seed as int, g.cluster)
            &&& certain ==> closed_under_aligned(
                old(lattice).side(),
                old(lattice).cells(),
                seed as int,
                g.cluster,
            )
            &&& size == g.cluster.len()
            &&& g.used == final(bonds).decisions().len() - old(bonds).decisions().len()
            &&& final(lattice).cells() == flip_all(old(lattice).cells(), g.cluster)
        }),
{
    let ghost l = lattice.side();
    let ghost start = lattice.cells();
    let n = lattice.site_count();
    let cluster = grow_cluster(lattice, seed, certain, bonds);
    let mut i: usize = 0;
    assert(start =~= flip_all(start, cluster@.take(0)));
    while i < cluster.len()
        invariant
            lattice.wf(),
            lattice.side() == l,
            valid_spins(l, start),
            n == start.len(),
            i <= cluster@.len(),
            grown_from(l, start, seed as int, cluster@),
            lattice.cells() == flip_all(start, cluster@.take(i as int)),
        decreases cluster@.len() - i,
    {
        let site = cluster[i];
        let ghost before = lattice.cells();
        lattice.flip_index(site);
        proof {
            let taken = cluster@.take(i as int);
            let next = cluster@.take(i + 1);
            assert(!taken.contains(site)) by {
                if taken.contains(site) {
                    let j = choose|j: int| 0 <= j < taken.len() && taken[j] == site;
                    assert(cluster@[j] == cluster@[i as int]);
                }
            }
            assert forall|k: int| 0 <= k < start.len() implies (#[trigger] next.contains(k as usize) <==> (
            taken.contains(k as usize) || k == site as int)) by {
                if next.contains(k as usize) {
                    let j = choose|j: int| 0 <= j < next.len() && next[j] == k as usize;
                    if j < i {
                        assert(taken[j] == k as usize);
                    }
                }
                if taken.contains(k as usize) {
                    let j = choose|j: int| 0 <= j < taken.len() && taken[j] == k as usize;
                    assert(next[j] == k as usize);
                }
                if k == site as int {
                    assert(next[i as int] == site);
                }
            }
            assert(lattice.cells() =~= flip_all(start, next));
        }
        i = i + 1;
    }
    assert(cluster@.take(cluster@.len() as int) =~= cluster@);
    cluster.len()
}

} // verus!
