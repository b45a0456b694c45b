//! The ascending temperature ramp: which step of the run is which.
//!
//! A run visits its temperatures in order, starting each from the previous
//! lattice.  At every temperature it first takes `discard` equilibration steps
//! and then `measure` measured steps; a step is one sweep for Metropolis and
//! one cluster flip for Wolff.  Measured steps are numbered from one at each
//! temperature, every step of the run is numbered from one across the whole
//! ramp (discarded steps included), and a spin frame is recorded at the
//! measured steps `every`, `2 * every`, ... of each temperature (none when
//! `every` is zero).

use vstd::prelude::*;
use vstd::arithmetic::div_mod::{
    lemma_fundamental_div_mod, lemma_fundamental_div_mod_converse, lemma_mod_pos_bound,
};

verus! {

/// The update rule named by `--update`.
#[derive(Clone, Copy, Debug, PartialEq, Eq)]
pub enum Update {
    Metropolis,
    Wolff,
}

impl Update {
    /// The rule's name in `run.json`.
    pub fn name(&self) -> (name: &'static str)
        ensures
            name@ == (match self {
                Update::Metropolis => "metropolis"@,
                Update::Wolff => "wolff"@,
            }),
    {
        match self {
            Update::Metropolis => "metropolis",
            Update::Wolff => "wolff",
        }
    }

    /// What one step of the rule is: a sweep or a cluster flip.
    pub fn time_unit(&self) -> (unit: &'static str)
        ensures
            unit@ == (match self {
                Update::Metropolis => "sweep"@,
                Update::Wolff => "cluster_flip"@,
            }),
    {
        match self {
            Update::Metropolis => "sweep",
            Update::Wolff => "cluster_flip",
        }
    }

    /// The third column of the printed table: the acceptance rate for
    /// Metropolis, the mean cluster size for Wolff.
    pub fn statistic(&self) -> (column: &'static str)
        ensures
            column@ == (match self {
                Update::Metropolis => "acceptance"@,
                Update::Wolff => "mean_cluster_size"@,
            }),
    {
        match self {
            Update::Metropolis => "acceptance",
            Update::Wolff => "mean_cluster_size",
        }
    }
}

/// What the ramp does next.
#[derive(Clone, Copy, Debug, PartialEq, Eq)]
pub enum RampStep {
    /// An equilibration step at the `temperature`-th temperature; `global`
    /// numbers the step within the whole run.
    Discard { temperature: usize, global: u64 },
    /// A measured step: `sweep` numbers it from one at its temperature,
    /// `global` within the whole run, and `record` says whether a spin frame
    /// is written after it.
    Measure { temperature: usize, sweep: u64, global: u64, record: bool },
    /// Every temperature is done.
    Done,
}

/// The step of the run that follows `taken` steps.
pub open spec fn step_after(
    temperatures: int,
    discard: int,
    measure: int,
    every: int,
    taken: int,
) -> RampStep {
    let per = discard + measure;
    let t = taken / per;
    let within = taken % per;
    if per == 0 || t >= temperatures {
        RampStep::Done
    } else if within < discard {
        RampStep::Discard { temperature: t as usize, global: (taken + 1) as u64 }
    } else {
        let sweep = within - discard + 1;
        RampStep::Measure {
            temperature: t as usize,
            sweep: sweep as u64,
            global: (taken + 1) as u64,
            record: every > 0 && sweep % every == 0,
        }
    }
}

/// The run takes `discard + measure` steps at each of its temperatures and
/// then stops: the step after `taken` steps is `Done` exactly when all of
/// them are taken.
pub proof fn lemma_run_length(temperatures: int, discard: int, measure: int, every: int, taken: int)
    requires
        0 <= temperatures,
        0 <= discard,
        0 <= measure,
        0 <= taken,
    ensures
        step_after(temperatures, discard, measure, every, taken) is Done <==> taken
            >= temperatures * (discard + measure),
{
    let per = discard + measure;
    if per > 0 {
        lemma_fundamental_div_mod(taken, per);
        lemma_mod_pos_bound(taken, per);
        let t = taken / per;
        if t >= temperatures {
            assert(taken >= temperatures * per) by (nonlinear_arith)
                requires
                    taken == per * t + taken % per,
                    0 <= taken % per,
                    t >= temperatures,
                    per >= 1,
            ;
        } else {
            assert(taken < temperatures * per) by (nonlinear_arith)
                requires
                    taken == per * t + taken % per,
                    taken % per < per,
                    t < temperatures,
                    0 <= t,
            ;
        }
    }
}

/// Step `j` of the block of temperature `t` (counting from zero, the
/// discarded steps first) is the step after `t * (discard + measure) + j`
/// steps: a discarded step at temperature `t` while `j < discard`, and after
/// that the measured step `j - discard + 1` at temperature `t`, recorded
/// when that number is a multiple of `every`; either way it is step
/// `t * (discard + measure) + j + 1` of the run.
pub proof fn lemma_step_in_block(
    temperatures: int,
    discard: int,
    measure: int,
    every: int,
    t: int,
    j: int,
)
    requires
        0 <= discard,
        0 <= measure,
        0 <= t < temperatures,
        temperatures <= usize::MAX,
        0 <= j < discard + measure,
        t * (discard + measure) + j + 1 <= u64::MAX,
    ensures
        j < discard ==> step_after(
            temperatures,
            discard,
            measure,
            every,
            t * (discard + measure) + j,
        ) == (RampStep::Discard {
            temperature: t as usize,
            global: (t * (discard + measure) + j + 1) as u64,
        }),
        j >= discard ==> step_after(
            temperatures,
            discard,
            measure,
            every,
            t * (discard + measure) + j,
        ) == (RampStep::Measure {
            temperature: t as usize,
            sweep: (j - discard + 1) as u64,
            global: (t * (discard + measure) + j + 1) as u64,
            record: every > 0 && (j - discard + 1) % every == 0,
        }),
{
    let per = discard + measure;
    lemma_fundamental_div_mod_converse(t * per + j, per, t, j);
}

/// Measured steps are numbered from one at each temperature, up to
/// `measure`, and the run-wide number of a measured step counts every earlier
/// step, the discarded ones included.
pub proof fn lemma_measure_numbering(temperatures: int, discard: int, measure: int, every: int, taken: int)
    requires
        0 <= discard,
        0 <= measure,
        0 <= taken,
        (temperatures * (discard + measure)) <= u64::MAX,
        temperatures <= usize::MAX,
        step_after(temperatures, discard, measure, every, taken) is Measure,
    ensures
        ({
            let step = step_after(temperatures, discard, measure, every, taken);
            &&& 1 <= step->sweep <= measure
            &&& step->Measure_global == step->Measure_temperature * (discard + measure) + discard
                + step->sweep
            &&& step->record <==> every > 0 && (step->sweep as int) % every == 0
        }),
{
    let per = discard + measure;
    lemma_fundamental_div_mod(taken, per);
    lemma_mod_pos_bound(taken, per);
    lemma_run_length(temperatures, discard, measure, every, taken);
    let t = taken / per;
    assert(taken + 1 <= temperatures * per);
    assert(t * per + taken % per == taken) by (nonlinear_arith)
        requires
            taken == per * t + taken % per,
    ;
    assert(0 <= t < temperatures);
    assert(per <= temperatures * per) by (nonlinear_arith)
        requires
            1 <= temperatures,
            1 <= per,
    ;
    assert((t as usize) as int == t);
}

/// Walks a run through its temperatures, one step at a time.
pub struct RampSchedule {
    temperatures: usize,
    discard: u64,
    measure: u64,
    every: u64,
    temperature: usize,
    within: u64,
    taken: u64,
}

impl RampSchedule {
    pub closed spec fn temperatures(&self) -> int {
        self.temperatures as int
    }

    pub closed spec fn discard(&self) -> int {
        self.discard as int
    }

    pub closed spec fn measure(&self) -> int {
        self.measure as int
    }

    pub closed spec fn every(&self) -> int {
        self.every as int
    }

    /// The number of steps handed out so far.
    pub closed spec fn taken(&self) -> int {
        self.taken as int
    }

    pub closed spec fn wf(&self) -> bool {
        let per = self.discard as int + self.measure as int;
        &&& per <= u64::MAX
        &&& self.temperatures * per <= u64::MAX
        &&& self.taken <= self.temperatures * per
        &&& per > 0 ==> self.temperature as int == self.taken as int / per
        &&& per > 0 ==> self.within as int == self.taken as int % per
    }

    /// The schedule of a run with `temperatures` temperatures.
    ///
    /// `None` when the run has more steps than a `u64` counts.
    pub fn new(temperatures: usize, discard: u64, measure: u64, every: u64) -> (schedule: Option<Self>)
        ensures
            schedule is Some <==> discard + measure <= u64::MAX && temperatures * (discard + measure)
                <= u64::MAX,
            schedule matches Some(s) ==> {
                &&& s.wf()
                &&& s.temperatures() == temperatures
                &&& s.discard() == discard
                &&& s.measure() == measure
                &&& s.every() == every
                &&& s.taken() == 0
            },
    {
        let per = match discard.checked_add(measure) {
            Some(per) => per,
            None => {
                return None;
            },
        };
        match (temperatures as u64).checked_mul(per) {
            Some(_) => {},
            None => {
                return None;
            },
        }
        proof {
            if per > 0 {
                lemma_fundamental_div_mod_converse(0, per as int, 0, 0);
            }
        }
        Some(RampSchedule { temperatures, discard, measure, every, temperature: 0, within: 0, taken: 0 })
    }

    /// The next step of the run, or `Done` once every temperature has had its
    /// `discard + measure` steps.
    pub fn next(&mut self) -> (step: RampStep)
        requires
            old(self).wf(),
        ensures
            final(self).wf(),
            final(self).temperatures() == old(self).temperatures(),
            final(self).discard() == old(self).discard(),
            final(self).measure() == old(self).measure(),
            final(self).every() == old(self).every(),
            step == step_after(
                old(self).temperatures(),
                old(self).discard(),
                old(self).measure(),
                old(self).every(),
                old(self).taken(),
            ),
            final(self).taken() == old(self).taken() + (if step is Done {
                0int
            } else {
                1int
            }),
    {
        let ghost per = self.discard as int + self.measure as int;
        let ghost taken = self.taken as int;
        if self.discard == 0 && self.measure == 0 {
            return RampStep::Done;
        }
        proof {
            lemma_fundamental_div_mod(taken, per);
            lemma_mod_pos_bound(taken, per);
        }
        if self.temperature >= self.temperatures {
            return RampStep::Done;
        }
        let per_exec = self.discard + self.measure;
        let t = self.temperature;
        proof {
            assert(taken < self.temperatures * per) by (nonlinear_arith)
                requires
                    taken == per * t + self.within,
                    0 <= self.within < per,
                    t < self.temperatures,
                    0 <= t,
            ;
        }
        let global = self.taken + 1;
        let step = if self.within < self.discard {
            RampStep::Discard { temperature: t, global }
        } else {
            let sweep = self.within - self.discard + 1;
            RampStep::Measure {
                temperature: t,
                sweep,
                global,
                record: self.every > 0 && sweep % self.every == 0,
            }
        };
        self.taken = global;
        if self.within + 1 == per_exec {
            proof {
                assert(taken + 1 == (t + 1) * per + 0) by (nonlinear_arith)
                    requires
                        taken == per * t + self.within,
                        self.within + 1 == per,
                ;
                lemma_fundamental_div_mod_converse(taken + 1, per, t + 1, 0);
            }
            self.temperature = t + 1;
            self.within = 0;
        } else {
            proof {
                assert(taken + 1 == t * per + (self.within + 1)) by (nonlinear_arith)
                    requires
                        taken == per * t + self.within,
                ;
                lemma_fundamental_div_mod_converse(taken + 1, per, t as int, self.within + 1);
            }
            self.within = self.within + 1;
        }
        step
    }
}

} // verus!
