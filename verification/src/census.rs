//! The exhaustive run: one pass over as many steps as the generator has
//! states, with a counter for every state and for every number handed out.

use crate::generator::{Lcg, INITIAL_STATE};
use crate::spread::lemma_full_period_report;
use crate::tally::{capped, lemma_hits_bound, lemma_unreached_as_many_as_repeats, Repeat};
use vstd::arithmetic::power2::{lemma_pow2_pos, pow2};
use vstd::prelude::*;

verus! {

/// The counters of a run and the state it has reached.
pub struct Census {
    lcg: Lcg,
    state: u32,
    steps: u64,
    state_counts: Vec<u8>,
    output_counts: Vec<u64>,
}

/// What a full run found.
#[derive(Debug, PartialEq, Eq)]
pub struct Report {
    /// The steps that arrived at a state seen before, in the order of the run.
    pub repeats: Vec<Repeat>,
    /// The states that the run never reached, in rising order.
    pub unreached: Vec<u32>,
    /// How often the value handed out least often was handed out.
    pub least_hit: u64,
    /// How often the value handed out most often was handed out.
    pub most_hit: u64,
}

impl Report {
    /// The report is that of a full run of `lcg`: as many states as `lcg` has,
    /// the initial one included.
    pub open spec fn describes(&self, lcg: Lcg) -> bool {
        let total = lcg.modulus() as nat;
        &&& self.repeats@ == lcg.repeats(1, total)
        &&& self.unreached@ == lcg.unreached_below(total, total)
        &&& lcg.is_least_hit(self.least_hit as nat, total)
        &&& lcg.is_most_hit(self.most_hit as nat, total)
    }
}

impl Census {
    /// The generator that is run.
    pub closed spec fn generator(&self) -> Lcg {
        self.lcg
    }

    /// The number of states recorded so far, the initial one included.
    pub closed spec fn recorded(&self) -> nat {
        self.steps as nat
    }

    /// The counters hold what the states recorded so far amount to: one
    /// capped counter for each state, one counter for each value.
    pub closed spec fn wf(&self) -> bool {
        &&& self.lcg.wf()
        &&& self.steps >= 1
        &&& self.state == self.lcg.orbit((self.steps - 1) as nat)
        &&& self.state_counts@.len() == self.lcg.modulus()
        &&& self.output_counts@.len() == self.lcg.outputs()
        &&& forall|s: int|
            0 <= s < self.state_counts@.len() ==> #[trigger] self.state_counts@[s] == capped(
                self.lcg.visits(s, self.steps as nat),
            )
        &&& forall|v: int|
            0 <= v < self.output_counts@.len() ==> #[trigger] self.output_counts@[v]
                == self.lcg.hits(v, self.steps as nat)
    }

    /// A run of `lcg` that has recorded its initial state and taken no step.
    pub fn new(lcg: Lcg) -> (census: Census)
        requires
            lcg.wf(),
            lcg.modulus() <= usize::MAX,
        ensures
            census.wf(),
            census.generator() == lcg,
            census.recorded() == 1,
    {
        let states: u64 = lcg.state_count();
        let values: u32 = lcg.output_count();
        let mut state_counts: Vec<u8> = vec![0u8; states as usize];
        let mut output_counts: Vec<u64> = vec![0u64; values as usize];
        let first: u16 = lcg.output(INITIAL_STATE);
        state_counts.set(INITIAL_STATE as usize, 1);
        output_counts.set(first as usize, 1);
        let census = Census { lcg, state: INITIAL_STATE, steps: 1, state_counts, output_counts };
        proof {
            assert(lcg.orbit(0) == 0);
            assert forall|s: int| 0 <= s < census.state_counts@.len() implies
                #[trigger] census.state_counts@[s] == capped(lcg.visits(s, 1)) by {
                assert(lcg.visits(s, 0) == 0);
            }
            assert forall|v: int| 0 <= v < census.output_counts@.len() implies
                #[trigger] census.output_counts@[v] == lcg.hits(v, 1) by {
                assert(lcg.hits(v, 0) == 0);
            }
        }
        census
    }

    /// The state that the run is at.
    pub fn state(&self) -> (state: u32)
        requires
            self.wf(),
        ensures
            state == self.generator().orbit((self.recorded() - 1) as nat),
    {
        self.state
    }

    /// The number of states recorded so far, the initial one included.
    pub fn steps(&self) -> (steps: u64)
        ensures
            steps == self.recorded(),
            self.wf() ==> steps >= 1,
    {
        self.steps
    }

    /// The counter of `state`: how often the run has been there, up to 255.
    pub fn state_counter(&self, state: u32) -> (count: u8)
        requires
            self.wf(),
            state < self.generator().modulus(),
        ensures
            count == capped(self.generator().visits(state as int, self.recorded())),
    {
        self.state_counts[state as usize]
    }

    /// The counter of `value`: how often the run has handed it out.
    pub fn output_counter(&self, value: u16) -> (count: u64)
        requires
            self.wf(),
            value < self.generator().outputs(),
        ensures
            count == self.generator().hits(value as int, self.recorded()),
    {
        self.output_counts[value as usize]
    }

    /// Takes one step and records the state it arrives at. Says whether the
    /// run had been at that state before.
    pub fn advance(&mut self) -> (repeated: bool)
        requires
            old(self).wf(),
            old(self).recorded() < u64::MAX,
        ensures
            final(self).wf(),
            final(self).generator() == old(self).generator(),
            final(self).recorded() == old(self).recorded() + 1,
            repeated == old(self).generator().repeated_at(old(self).recorded()),
    {
        let ghost lcg = self.lcg;
        let ghost n = self.steps as nat;
        let next: u32 = self.lcg.next_state(self.state);
        let value: u16 = self.lcg.output(next);
        proof {
            lemma_hits_bound(lcg, value as int, n);
            assert(lcg.orbit(n) == next);
        }
        let seen: u8 = self.state_counts[next as usize];
        let bumped: u8 = if seen < u8::MAX {
            seen + 1
        } else {
            seen
        };
        let hit: u64 = self.output_counts[value as usize];
        self.state_counts.set(next as usize, bumped);
        self.output_counts.set(value as usize, hit + 1);
        self.state = next;
        self.steps = self.steps + 1;
        proof {
            assert forall|s: int| 0 <= s < self.state_counts@.len() implies
                #[trigger] self.state_counts@[s] == capped(lcg.visits(s, n + 1)) by {
                assert(old(self).state_counts@[s] == capped(lcg.visits(s, n)));
            }
            assert forall|v: int| 0 <= v < self.output_counts@.len() implies
                #[trigger] self.output_counts@[v] == lcg.hits(v, n + 1) by {
                assert(old(self).output_counts@[v] == lcg.hits(v, n));
            }
        }
        bumped >= 2
    }

    /// Runs on until as many states are recorded as the generator has, and
    /// returns the steps that arrived at a state seen before. A run that has
    /// recorded as many or more stays where it is.
    pub fn sweep(&mut self) -> (found: Vec<Repeat>)
        requires
            old(self).wf(),
        ensures
            final(self).wf(),
            final(self).generator() == old(self).generator(),
            final(self).recorded() == (if old(self).recorded() <= old(self).generator().modulus() {
                old(self).generator().modulus() as nat
            } else {
                old(self).recorded()
            }),
            found@ == old(self).generator().repeats(
                old(self).recorded(),
                old(self).generator().modulus() as nat,
            ),
    {
        let ghost lcg = self.lcg;
        let ghost from = self.steps as nat;
        let total: u64 = self.lcg.state_count();
        let mut found: Vec<Repeat> = Vec::new();
        while self.steps < total
            invariant
                self.wf(),
                self.lcg == lcg,
                total == lcg.modulus(),
                from <= self.steps,
                self.steps <= total || self.steps == from,
                found@ == lcg.repeats(from, self.steps as nat),
            decreases total - self.steps,
        {
            let index: u64 = self.steps;
            let repeated: bool = self.advance();
            if repeated {
                found.push(Repeat { state: self.state, index });
            }
        }
        found
    }

    /// The states that the run has not reached, in rising order.
    pub fn unreached_states(&self) -> (missing: Vec<u32>)
        requires
            self.wf(),
        ensures
            missing@ == self.generator().unreached_below(
                self.generator().modulus() as nat,
                self.recorded(),
            ),
    {
        let states: u64 = self.lcg.state_count();
        let mut missing: Vec<u32> = Vec::new();
        let mut state: u64 = 0;
        while state < states
            invariant
                self.wf(),
                states == self.lcg.modulus(),
                state <= states <= 0x1_0000_0000,
                missing@ == self.lcg.unreached_below(state as nat, self.steps as nat),
            decreases states - state,
        {
            if self.state_counts[state as usize] == 0 {
                missing.push(state as u32);
            }
            state = state + 1;
        }
        missing
    }

    /// How often the value handed out least often was handed out so far, and
    /// how often the one handed out most often.
    pub fn extremes(&self) -> (range: (u64, u64))
        requires
            self.wf(),
        ensures
            self.generator().is_least_hit(range.0 as nat, self.recorded()),
            self.generator().is_most_hit(range.1 as nat, self.recorded()),
    {
        let values: u32 = self.lcg.output_count();
        let mut least: u64 = self.output_counts[0];
        let mut most: u64 = least;
        let ghost mut least_at: int = 0;
        let ghost mut most_at: int = 0;
        let mut value: u32 = 1;
        while value < values
            invariant
                self.wf(),
                values == self.lcg.outputs(),
                1 <= value <= values,
                0 <= least_at < value,
                0 <= most_at < value,
                self.output_counts@[least_at] == least,
                self.output_counts@[most_at] == most,
                forall|v: int| 0 <= v < value ==> least <= #[trigger] self.output_counts@[v] <= most,
            decreases values - value,
        {
            let count: u64 = self.output_counts[value as usize];
            if count < least {
                least = count;
                proof {
                    least_at = value as int;
                }
            }
            if count > most {
                most = count;
                proof {
                    most_at = value as int;
                }
            }
            value = value + 1;
        }
        proof {
            let n = self.steps as nat;
            assert(self.lcg.hits(least_at, n) == least);
            assert(self.lcg.hits(most_at, n) == most);
            assert forall|v: int| 0 <= v < self.lcg.outputs() implies least
                <= #[trigger] self.lcg.hits(v, n) <= most by {
                assert(self.output_counts@[v] == self.lcg.hits(v, n));
            }
        }
        (least, most)
    }
}

/// Runs `lcg` from its initial state through as many states as it has, and
/// reports the steps that came back to a state seen before, the states never
/// reached, and how often the rarest and the most frequent value were handed
/// out.
pub fn analyze(lcg: Lcg) -> (report: Report)
    requires
        lcg.wf(),
        lcg.modulus() <= usize::MAX,
    ensures
        report.describes(lcg),
        report.unreached@.len() == report.repeats@.len(),
        lcg.full_period() ==> {
            &&& report.repeats@.len() == 0
            &&& report.unreached@.len() == 0
            &&& report.least_hit == pow2((lcg.state_bits - lcg.output_bits) as nat)
            &&& report.most_hit == pow2((lcg.state_bits - lcg.output_bits) as nat)
        },
{
    proof {
        lemma_pow2_pos(lcg.state_bits as nat);
    }
    let mut census = Census::new(lcg);
    let repeats = census.sweep();
    let unreached = census.unreached_states();
    let (least_hit, most_hit) = census.extremes();
    let report = Report { repeats, unreached, least_hit, most_hit };
    proof {
        lemma_unreached_as_many_as_repeats(lcg);
        if lcg.full_period() {
            lemma_full_period_report(lcg, report);
        }
    }
    report
}

} // verus!
