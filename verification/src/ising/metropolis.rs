//! The single-flip Metropolis update.
//!
//! A sweep makes `l * l` proposals, each at a site drawn with replacement.  A
//! proposal is accepted with probability `min(1, exp(-dE / T))`; the library
//! takes the drawn sites and the accept decisions from a [`Proposals`] source,
//! through a [`ProposalLog`] that records every draw, and does the flipping
//! and the counting; its contract ties both to that record.

use vstd::prelude::*;
use crate::ising::lattice::{flip_cost, flipped, opposite, total_energy, valid_spins, wrapped_index, Lattice};

verus! {

/// Accepted proposals and proposals made in one sweep.
#[derive(Clone, Copy, Debug, Default, PartialEq, Eq)]
pub struct SweepStats {
    pub accepted: u64,
    pub proposals: u64,
}

/// Where the proposals of a sweep come from.
pub trait Proposals {
    /// The `(row, col)` of the next proposed site; both are reduced modulo `l`.
    fn site(&mut self, l: usize) -> (usize, usize);

    /// Whether a proposal that changes the energy by `delta_energy` is accepted.
    fn accepted(&mut self, delta_energy: i32) -> bool;
}

/// A proposal source together with the record of everything drawn from it
/// through this log, oldest first: each proposed site as `(l, row, col)`,
/// with the side it was asked for, and each decision as
/// `(delta_energy, accepted)`.
pub struct ProposalLog<P: Proposals> {
    source: P,
    drawn: Ghost<Seq<(usize, usize, usize)>>,
    decided: Ghost<Seq<(i32, bool)>>,
}

impl<P: Proposals> ProposalLog<P> {
    /// The sites drawn so far, each with the side it was asked for.
    pub closed spec fn drawn(&self) -> Seq<(usize, usize, usize)> {
        self.drawn@
    }

    /// The decisions drawn so far, each with the energy change it was asked
    /// about.
    pub closed spec fn decided(&self) -> Seq<(i32, bool)> {
        self.decided@
    }

    /// The source the proposals come from.
    pub closed spec fn source(&self) -> P {
        self.source
    }

    /// A log of `source` with nothing drawn yet.
    pub fn new(source: P) -> (log: Self)
        ensures
            log.drawn() == Seq::<(usize, usize, usize)>::empty(),
            log.decided() == Seq::<(i32, bool)>::empty(),
            log.source() == source,
    {
        ProposalLog { source, drawn: Ghost(Seq::empty()), decided: Ghost(Seq::empty()) }
    }

    /// The source, with whatever state the draws left it in.
    pub fn into_source(self) -> (source: P)
        ensures
            source == self.source(),
    {
        self.source
    }

    /// Draw the next proposed site on a side of `l` and record it.
    fn site(&mut self, l: usize) -> (rc: (usize, usize))
        ensures
            final(self).drawn() == old(self).drawn().push((l, rc.0, rc.1)),
            final(self).decided() == old(self).decided(),
    {
        let rc = self.source.site(l);
        self.drawn = Ghost(self.drawn@.push((l, rc.0, rc.1)));
        rc
    }

    /// Draw the decision on a proposal that changes the energy by
    /// `delta_energy` and record it.
    fn accepted(&mut self, delta_energy: i32) -> (yes: bool)
        ensures
            final(self).decided() == old(self).decided().push((delta_energy, yes)),
            final(self).drawn() == old(self).drawn(),
    {
        let yes = self.source.accepted(delta_energy);
        self.decided = Ghost(self.decided@.push((delta_energy, yes)));
        yes
    }
}

/// The site of a drawn `(l, row, col)` on a side of `l`.
pub open spec fn proposed_site(l: int, draw: (usize, usize, usize)) -> int {
    wrapped_index(l, draw.1 as int, draw.2 as int)
}

/// The spins after the first `i` proposals of a sweep: proposal `j` flips its
/// site when its decision accepts it.
pub open spec fn sweep_cells(
    l: int,
    s: Seq<i8>,
    draws: Seq<(usize, usize, usize)>,
    answers: Seq<(i32, bool)>,
    i: nat,
) -> Seq<i8>
    decreases i,
{
    if i == 0 {
        s
    } else {
        let before = sweep_cells(l, s, draws, answers, (i - 1) as nat);
        if answers[i - 1].1 {
            flipped(before, proposed_site(l, draws[i - 1]))
        } else {
            before
        }
    }
}

/// How many of the first `i` decisions accept.
pub open spec fn accepted_count(answers: Seq<(i32, bool)>, i: nat) -> nat
    decreases i,
{
    if i == 0 {
        0
    } else {
        accepted_count(answers, (i - 1) as nat) + if answers[i - 1].1 {
            1nat
        } else {
            0nat
        }
    }
}

/// The summed energy changes of the accepted ones among the first `i`
/// decisions.
pub open spec fn accepted_cost(answers: Seq<(i32, bool)>, i: nat) -> int
    decreases i,
{
    if i == 0 {
        0
    } else {
        accepted_cost(answers, (i - 1) as nat) + if answers[i - 1].1 {
            answers[i - 1].0 as int
        } else {
            0
        }
    }
}

/// The first `i` proposals depend on the first `i` draws and decisions only.
proof fn lemma_sweep_prefix(
    l: int,
    s: Seq<i8>,
    draws: Seq<(usize, usize, usize)>,
    answers: Seq<(i32, bool)>,
    draws2: Seq<(usize, usize, usize)>,
    answers2: Seq<(i32, bool)>,
    i: nat,
)
    requires
        forall|j: int| 0 <= j < i ==> draws2[j] == draws[j] && answers2[j] == answers[j],
    ensures
        sweep_cells(l, s, draws2, answers2, i) == sweep_cells(l, s, draws, answers, i),
        accepted_count(answers2, i) == accepted_count(answers, i),
        accepted_cost(answers2, i) == accepted_cost(answers, i),
    decreases i,
{
    if i > 0 {
        lemma_sweep_prefix(l, s, draws, answers, draws2, answers2, (i - 1) as nat);
        assert(draws2[i - 1] == draws[i - 1] && answers2[i - 1] == answers[i - 1]);
    }
}

/// When no decision accepts, the spins stay as they were and nothing is
/// counted.
pub proof fn lemma_all_declined(
    l: int,
    s: Seq<i8>,
    draws: Seq<(usize, usize, usize)>,
    answers: Seq<(i32, bool)>,
    i: nat,
)
    requires
        forall|j: int| 0 <= j < i ==> !(#[trigger] answers[j]).1,
    ensures
        sweep_cells(l, s, draws, answers, i) == s,
        accepted_count(answers, i) == 0,
        accepted_cost(answers, i) == 0,
    decreases i,
{
    if i > 0 {
        assert(!answers[i - 1].1);
        lemma_all_declined(l, s, draws, answers, (i - 1) as nat);
    }
}

/// The acceptance count is the number of accepting decisions among the
/// first `n`: the length of those decisions picked out of the first `n`.
/// So it never exceeds `n`, and it is `n` exactly when every one of them
/// accepts.
pub proof fn lemma_accepted_count_counts(answers: Seq<(i32, bool)>, n: nat)
    requires
        n <= answers.len(),
    ensures
        accepted_count(answers, n) == answers.take(n as int).filter(|a: (i32, bool)| a.1).len(),
        accepted_count(answers, n) <= n,
        (forall|i: int| 0 <= i < n ==> (#[trigger] answers[i]).1) <==> accepted_count(answers, n) == n,
    decreases n,
{
    let pred = |a: (i32, bool)| a.1;
    if n == 0 {
        reveal(Seq::filter);
        assert(answers.take(0) =~= Seq::<(i32, bool)>::empty());
    } else {
        lemma_accepted_count_counts(answers, (n - 1) as nat);
        let whole = answers.take(n as int);
        assert(whole.drop_last() =~= answers.take(n - 1));
        assert(whole.last() == answers[n - 1]);
        reveal(Seq::filter);
        assert(whole.filter(pred) == if pred(whole.last()) {
            whole.drop_last().filter(pred).push(whole.last())
        } else {
            whole.drop_last().filter(pred)
        });
        if accepted_count(answers, n) == n {
            assert forall|i: int| 0 <= i < n implies (#[trigger] answers[i]).1 by {
                if i < n - 1 {
                    assert(accepted_count(answers, (n - 1) as nat) == n - 1);
                }
            }
        }
    }
}

/// Which of the first `i` proposals flipped site `k`: accepted ones whose
/// drawn site is `k`.
pub open spec fn flips_of(
    l: int,
    draws: Seq<(usize, usize, usize)>,
    answers: Seq<(i32, bool)>,
    k: int,
    i: nat,
) -> Seq<bool> {
    Seq::new(i, |j: int| answers[j].1 && proposed_site(l, draws[j]) == k)
}

/// After the first `i` proposals of a sweep, a spin is turned over exactly
/// when an odd number of accepted proposals drew its site; every other spin
/// is as it was.
pub proof fn lemma_sweep_flips_by_parity(
    l: int,
    s: Seq<i8>,
    draws: Seq<(usize, usize, usize)>,
    answers: Seq<(i32, bool)>,
    i: nat,
    k: int,
)
    requires
        valid_spins(l, s),
        0 <= k < s.len(),
        forall|j: int| 0 <= j < i ==> 0 <= #[trigger] proposed_site(l, draws[j]) < s.len(),
    ensures
        sweep_cells(l, s, draws, answers, i).len() == s.len(),
        sweep_cells(l, s, draws, answers, i)[k] == if flips_of(l, draws, answers, k, i).filter(
            |b: bool| b,
        ).len() % 2 == 1 {
            opposite(s[k])
        } else {
            s[k]
        },
    decreases i,
{
    reveal(Seq::filter);
    let pick = |b: bool| b;
    if i == 0 {
        assert(flips_of(l, draws, answers, k, 0) =~= Seq::<bool>::empty());
    } else {
        lemma_sweep_flips_by_parity(l, s, draws, answers, (i - 1) as nat, k);
        let now = flips_of(l, draws, answers, k, i);
        assert(now.drop_last() =~= flips_of(l, draws, answers, k, (i - 1) as nat));
        assert(now.last() == (answers[i - 1].1 && proposed_site(l, draws[i - 1]) == k));
        assert(0 <= proposed_site(l, draws[i - 1]) < s.len());
        assert(s[k] == 1 || s[k] == -1);
    }
}

/// One sweep: `l * l` proposals, each at a site drawn with replacement.
///
/// Each proposal draws a site from the source, then asks it whether to
/// accept the flip there, handing it the flip's energy change in the lattice
/// as it stands; an accepted proposal flips that site.  The energy moves by
/// the changes of the accepted flips, and `accepted` counts them.
pub fn sweep<P: Proposals>(lattice: &mut Lattice, proposals: &mut ProposalLog<P>) -> (stats: SweepStats)
    requires
        old(lattice).wf(),
    ensures
        final(lattice).wf(),
        final(lattice).side() == old(lattice).side(),
        stats.proposals == old(lattice).side() * old(lattice).side(),
        stats.accepted <= stats.proposals,
        final(proposals).drawn().len() == old(proposals).drawn().len() + stats.proposals,
        final(proposals).decided().len() == old(proposals).decided().len() + stats.proposals,
        final(proposals).drawn().take(old(proposals).drawn().len() as int) == old(proposals).drawn(),
        final(proposals).decided().take(old(proposals).decided().len() as int) == old(
            proposals,
        ).decided(),
        ({
            let l = old(lattice).side();
            let n = (l * l) as nat;
            let draws = final(proposals).drawn().skip(old(proposals).drawn().len() as int);
            let answers = final(proposals).decided().skip(old(proposals).decided().len() as int);
            &&& forall|i: int| 0 <= i < n ==> (#[trigger] draws[i]).0 == l
            &&& forall|i: int|
                0 <= i < n ==> (#[trigger] answers[i]).0 == flip_cost(
                    l,
                    sweep_cells(l, old(lattice).cells(), draws, answers, i as nat),
                    proposed_site(l, draws[i]),
                )
            &&& stats.accepted == accepted_count(answers, n)
            &&& final(lattice).cells() == sweep_cells(l, old(lattice).cells(), draws, answers, n)
            &&& total_energy(l, final(lattice).cells()) == total_energy(l, old(lattice).cells())
                + accepted_cost(answers, n)
        }),
{
    let ghost l = lattice.side();
    let ghost start = lattice.cells();
    let ghost d0 = proposals.drawn();
    let ghost a0 = proposals.decided();
    let side = lattice.l();
    let n = lattice.site_count();
    let mut accepted: u64 = 0;
    let mut made: usize = 0;
    assert(proposals.drawn().take(d0.len() as int) =~= d0);
    assert(proposals.decided().take(a0.len() as int) =~= a0);
    while made < n
        invariant
            lattice.wf(),
            lattice.side() == l,
            side == l,
            n == l * l,
            valid_spins(l, start),
            made <= n,
            accepted <= made,
            proposals.drawn().len() == d0.len() + made,
            proposals.decided().len() == a0.len() + made,
            proposals.drawn().take(d0.len() as int) == d0,
            proposals.decided().take(a0.len() as int) == a0,
            ({
                let draws = proposals.drawn().skip(d0.len() as int);
                let answers = proposals.decided().skip(a0.len() as int);
                &&& forall|i: int| 0 <= i < made ==> (#[trigger] draws[i]).0 == l
                &&& forall|i: int|
                    0 <= i < made ==> (#[trigger] answers[i]).0 == flip_cost(
                        l,
                        sweep_cells(l, start, draws, answers, i as nat),
                        proposed_site(l, draws[i]),
                    )
                &&& accepted == accepted_count(answers, made as nat)
                &&& lattice.cells() == sweep_cells(l, start, draws, answers, made as nat)
                &&& total_energy(l, lattice.cells()) == total_energy(l, start) + accepted_cost(
                    answers,
                    made as nat,
                )
            }),
        decreases n - made,
    {
        let ghost draws0 = proposals.drawn().skip(d0.len() as int);
        let ghost answers0 = proposals.decided().skip(a0.len() as int);
        let ghost cells0 = lattice.cells();
        let (row, col) = proposals.site(side);
        let delta = lattice.delta_energy(row, col);
        let yes = proposals.accepted(delta);
        if yes {
            lattice.flip(row, col);
        }
        if yes {
            accepted = accepted + 1;
        }
        proof {
            let draws = proposals.drawn().skip(d0.len() as int);
            let answers = proposals.decided().skip(a0.len() as int);
            assert(draws =~= draws0.push((side, row, col)));
            assert(answers =~= answers0.push((delta, yes)));
            lemma_sweep_prefix(l, start, draws0, answers0, draws, answers, made as nat);
            assert(proposals.drawn().take(d0.len() as int) =~= d0);
            assert(proposals.decided().take(a0.len() as int) =~= a0);
            assert forall|i: int| 0 <= i < made + 1 implies (#[trigger] answers[i]).0 == flip_cost(
                l,
                sweep_cells(l, start, draws, answers, i as nat),
                proposed_site(l, draws[i]),
            ) by {
                if i < made {
                    assert(answers[i] == answers0[i]);
                    assert(draws[i] == draws0[i]);
                    lemma_sweep_prefix(l, start, draws0, answers0, draws, answers, i as nat);
                }
            }
            assert forall|i: int| 0 <= i < made + 1 implies (#[trigger] draws[i]).0 == l by {
                if i < made {
                    assert(draws[i] == draws0[i]);
                }
            }
        }
        made = made + 1;
    }
    SweepStats { accepted, proposals: n as u64 }
}

} // verus!
