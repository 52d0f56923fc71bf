//! What a run of a generator is counted by: how often each state was reached,
//! how often each number was handed out, which steps came back to a state
//! already seen, and which states were never reached.

use crate::generator::{lemma_output_in_range, Lcg};
use crate::period::{lemma_iterate_in_range, lemma_orbit_period};
use vstd::arithmetic::power2::lemma_pow2_pos;
use vstd::prelude::*;

verus! {

/// A step of a run that arrived at a state the run had been at before.
#[derive(Clone, Copy, Debug, PartialEq, Eq, Structural)]
pub struct Repeat {
    /// The state that was reached again.
    pub state: u32,
    /// The number of steps the run had taken when it arrived there.
    pub index: u64,
}

/// What a one-byte counter shows after `count` increments that stop at 255.
pub open spec fn capped(count: nat) -> u8 {
    if count >= 255 {
        255
    } else {
        count as u8
    }
}

impl Lcg {
    /// How many of the first `n` states of a run, the initial one included,
    /// are `state`.
    pub open spec fn visits(self, state: int, n: nat) -> nat
        decreases n,
    {
        if n == 0 {
            0
        } else if self.orbit((n - 1) as nat) == state {
            self.visits(state, (n - 1) as nat) + 1
        } else {
            self.visits(state, (n - 1) as nat)
        }
    }

    /// How many of the first `n` states of a run hand out `value`.
    pub open spec fn hits(self, value: int, n: nat) -> nat
        decreases n,
    {
        if n == 0 {
            0
        } else if self.output_of(self.orbit((n - 1) as nat)) == value {
            self.hits(value, (n - 1) as nat) + 1
        } else {
            self.hits(value, (n - 1) as nat)
        }
    }

    /// The run had been at its state after `index` steps before.
    pub open spec fn repeated_at(self, index: nat) -> bool {
        self.visits(self.orbit(index), index) > 0
    }

    /// The steps from `from` up to, not including, `to` that arrived at a state
    /// seen before, in the order of the run.
    pub open spec fn repeats(self, from: nat, to: nat) -> Seq<Repeat>
        decreases to,
    {
        if to <= from {
            Seq::empty()
        } else if self.repeated_at((to - 1) as nat) {
            self.repeats(from, (to - 1) as nat).push(
                Repeat { state: self.orbit((to - 1) as nat) as u32, index: (to - 1) as u64 },
            )
        } else {
            self.repeats(from, (to - 1) as nat)
        }
    }

    /// The states below `below` that are not among the first `n` states of a
    /// run, in rising order.
    pub open spec fn unreached_below(self, below: nat, n: nat) -> Seq<u32>
        decreases below,
    {
        if below == 0 {
            Seq::empty()
        } else if self.visits(below - 1, n) == 0 {
            self.unreached_below((below - 1) as nat, n).push((below - 1) as u32)
        } else {
            self.unreached_below((below - 1) as nat, n)
        }
    }

    /// The sum of `visits` over the states below `below`.
    pub open spec fn total_visits(self, below: nat, n: nat) -> nat
        decreases below,
    {
        if below == 0 {
            0
        } else {
            self.total_visits((below - 1) as nat, n) + self.visits(below - 1, n)
        }
    }

    /// The sum of `hits` over the values below `below`.
    pub open spec fn total_hits(self, below: nat, n: nat) -> nat
        decreases below,
    {
        if below == 0 {
            0
        } else {
            self.total_hits((below - 1) as nat, n) + self.hits(below - 1, n)
        }
    }

    /// `count` is the smallest number of times that any value was handed out
    /// by the first `n` states of a run.
    pub open spec fn is_least_hit(self, count: nat, n: nat) -> bool {
        &&& forall|value: int| 0 <= value < self.outputs() ==> count <= #[trigger] self.hits(value, n)
        &&& exists|value: int| 0 <= value < self.outputs() && #[trigger] self.hits(value, n) == count
    }

    /// `count` is the largest number of times that any value was handed out by
    /// the first `n` states of a run.
    pub open spec fn is_most_hit(self, count: nat, n: nat) -> bool {
        &&& forall|value: int| 0 <= value < self.outputs() ==> count >= #[trigger] self.hits(value, n)
        &&& exists|value: int| 0 <= value < self.outputs() && #[trigger] self.hits(value, n) == count
    }
}

/// No value is handed out more often than there were states.
pub proof fn lemma_hits_bound(lcg: Lcg, value: int, n: nat)
    ensures
        lcg.hits(value, n) <= n,
    decreases n,
{
    if n > 0 {
        lemma_hits_bound(lcg, value, (n - 1) as nat);
    }
}

/// One more state of the run adds one to the sum of the visits, where that
/// state is among those summed over.
proof fn lemma_total_visits_step(lcg: Lcg, below: nat, n: nat)
    ensures
        lcg.total_visits(below, n + 1) == lcg.total_visits(below, n) + (if 0 <= lcg.orbit(n)
            < below {
            1nat
        } else {
            0nat
        }),
    decreases below,
{
    if below > 0 {
        lemma_total_visits_step(lcg, (below - 1) as nat, n);
    }
}

/// One more state of the run adds one to the sum of the hits, where the value
/// it hands out is among those summed over.
proof fn lemma_total_hits_step(lcg: Lcg, below: nat, n: nat)
    ensures
        lcg.total_hits(below, n + 1) == lcg.total_hits(below, n) + (if 0 <= lcg.output_of(
            lcg.orbit(n),
        ) < below {
            1nat
        } else {
            0nat
        }),
    decreases below,
{
    if below > 0 {
        lemma_total_hits_step(lcg, (below - 1) as nat, n);
    }
}

/// Nothing counted is lost or counted twice: after `n` states of a run, the
/// visits of all states add up to `n`.
pub proof fn lemma_visits_conserved(lcg: Lcg, n: nat)
    ensures
        lcg.total_visits(lcg.modulus() as nat, n) == n,
    decreases n,
{
    let m = lcg.modulus() as nat;
    lemma_pow2_pos(lcg.state_bits as nat);
    if n == 0 {
        lemma_total_visits_zero(lcg, m);
    } else {
        lemma_visits_conserved(lcg, (n - 1) as nat);
        lemma_total_visits_step(lcg, m, (n - 1) as nat);
        lemma_iterate_in_range(lcg, 0, (n - 1) as nat);
    }
}

/// After `n` states of a run, the hits of all values that can be handed out
/// add up to `n`.
pub proof fn lemma_hits_conserved(lcg: Lcg, n: nat)
    ensures
        lcg.total_hits(lcg.outputs() as nat, n) == n,
    decreases n,
{
    let values = lcg.outputs() as nat;
    lemma_pow2_pos(lcg.output_bits as nat);
    if n == 0 {
        lemma_total_hits_zero(lcg, values);
    } else {
        lemma_hits_conserved(lcg, (n - 1) as nat);
        lemma_total_hits_step(lcg, values, (n - 1) as nat);
        lemma_output_in_range(lcg, lcg.orbit((n - 1) as nat));
    }
}

/// Before the first state nothing has been visited.
proof fn lemma_total_visits_zero(lcg: Lcg, below: nat)
    ensures
        lcg.total_visits(below, 0) == 0,
    decreases below,
{
    if below > 0 {
        lemma_total_visits_zero(lcg, (below - 1) as nat);
    }
}

/// Before the first state nothing has been handed out.
proof fn lemma_total_hits_zero(lcg: Lcg, below: nat)
    ensures
        lcg.total_hits(below, 0) == 0,
    decreases below,
{
    if below > 0 {
        lemma_total_hits_zero(lcg, (below - 1) as nat);
    }
}

/// A state that differs from each of the first `n` states of a run has no
/// visits among them.
pub proof fn lemma_unvisited(lcg: Lcg, state: int, n: nat)
    requires
        forall|i: nat| i < n ==> #[trigger] lcg.orbit(i) != state,
    ensures
        lcg.visits(state, n) == 0,
    decreases n,
{
    if n > 0 {
        lemma_unvisited(lcg, state, (n - 1) as nat);
    }
}

/// A state that is among the first `n` states of a run has a visit among
/// them.
pub proof fn lemma_visited(lcg: Lcg, state: int, n: nat, at: nat)
    requires
        at < n,
        lcg.orbit(at) == state,
    ensures
        lcg.visits(state, n) > 0,
    decreases n,
{
    if at < n - 1 {
        lemma_visited(lcg, state, (n - 1) as nat, at);
    }
}

/// Once a run has come back to a state, every later step comes back to one:
/// the run has closed its cycle.
pub proof fn lemma_repeats_persist(lcg: Lcg, index: nat)
    requires
        lcg.repeated_at(index),
    ensures
        lcg.repeated_at(index + 1),
{
    if forall|i: nat| i < index ==> #[trigger] lcg.orbit(i) != lcg.orbit(index) {
        lemma_unvisited(lcg, lcg.orbit(index), index);
    } else {
        let earlier = choose|i: nat| i < index && #[trigger] lcg.orbit(i) == lcg.orbit(index);
        assert(lcg.orbit(earlier + 1) == lcg.orbit(index + 1));
        lemma_visited(lcg, lcg.orbit(index + 1), index + 1, earlier + 1);
    }
}

/// Before the first state of a run, every state is unreached.
proof fn lemma_unreached_at_first(lcg: Lcg, below: nat)
    ensures
        lcg.unreached_below(below, 0).len() == below,
    decreases below,
{
    if below > 0 {
        lemma_unreached_at_first(lcg, (below - 1) as nat);
    }
}

/// One more state of the run takes one from the unreached states, where it
/// is a state not seen before.
proof fn lemma_unreached_step(lcg: Lcg, below: nat, n: nat)
    ensures
        lcg.unreached_below(below, n + 1).len() + (if 0 <= lcg.orbit(n) < below
            && !lcg.repeated_at(n) {
            1nat
        } else {
            0nat
        }) == lcg.unreached_below(below, n).len(),
    decreases below,
{
    if below > 0 {
        lemma_unreached_step(lcg, (below - 1) as nat, n);
    }
}

/// The initial state is no repeat: the steps that came back to a state are
/// the same whether counted from the first state or from the first step.
proof fn lemma_repeats_from_first(lcg: Lcg, to: nat)
    requires
        to >= 1,
    ensures
        lcg.repeats(0, to) == lcg.repeats(1, to),
    decreases to,
{
    if to > 1 {
        lemma_repeats_from_first(lcg, (to - 1) as nat);
    } else {
        assert(lcg.visits(lcg.orbit(0), 0) == 0);
        assert(lcg.repeats(0, 0) == Seq::<Repeat>::empty());
    }
}

/// Every state of a run either is new or comes back to one seen before: the
/// states still unreached and the states recorded are as many as all states
/// and the repeats together.
proof fn lemma_unreached_balance(lcg: Lcg, n: nat)
    ensures
        lcg.unreached_below(lcg.modulus() as nat, n).len() + n == lcg.modulus() + lcg.repeats(
            0,
            n,
        ).len(),
    decreases n,
{
    let m = lcg.modulus() as nat;
    lemma_pow2_pos(lcg.state_bits as nat);
    if n == 0 {
        lemma_unreached_at_first(lcg, m);
    } else {
        lemma_unreached_balance(lcg, (n - 1) as nat);
        lemma_unreached_step(lcg, m, (n - 1) as nat);
        lemma_iterate_in_range(lcg, 0, (n - 1) as nat);
    }
}

/// A full run leaves as many states unreached as it has steps that came back
/// to a state seen before.
pub proof fn lemma_unreached_as_many_as_repeats(lcg: Lcg)
    ensures
        lcg.unreached_below(lcg.modulus() as nat, lcg.modulus() as nat).len() == lcg.repeats(
            1,
            lcg.modulus() as nat,
        ).len(),
{
    let m = lcg.modulus() as nat;
    lemma_pow2_pos(lcg.state_bits as nat);
    lemma_unreached_balance(lcg, m);
    lemma_repeats_from_first(lcg, m);
}

/// While a generator with a multiplier that is 1 modulo 4 and an odd
/// increment has recorded no more states than it has, it has been at no state
/// twice.
pub proof fn lemma_full_period_visits_once(lcg: Lcg, state: int, n: nat)
    requires
        lcg.full_period(),
        n <= lcg.modulus(),
    ensures
        lcg.visits(state, n) <= 1,
    decreases n,
{
    if n > 0 {
        lemma_full_period_visits_once(lcg, state, (n - 1) as nat);
        if lcg.orbit((n - 1) as nat) == state {
            lemma_orbit_period(lcg);
            lemma_unvisited(lcg, state, (n - 1) as nat);
        }
    }
}

/// Such a generator never arrives at a state seen before within as many
/// states as it has.
pub proof fn lemma_full_period_no_repeats(lcg: Lcg, from: nat, to: nat)
    requires
        lcg.full_period(),
        to <= lcg.modulus(),
    ensures
        lcg.repeats(from, to) == Seq::<Repeat>::empty(),
    decreases to,
{
    if to > from {
        lemma_full_period_no_repeats(lcg, from, (to - 1) as nat);
        lemma_orbit_period(lcg);
        lemma_unvisited(lcg, lcg.orbit((to - 1) as nat), (to - 1) as nat);
    }
}

/// Where no state below `below` was visited twice, their visits add up to at
/// most `below`, and to less where one of them was not visited.
proof fn lemma_total_visits_at_most(lcg: Lcg, below: nat, n: nat, state: int)
    requires
        forall|s: int| 0 <= s < below ==> #[trigger] lcg.visits(s, n) <= 1,
    ensures
        lcg.total_visits(below, n) <= below,
        0 <= state < below && lcg.visits(state, n) == 0 ==> lcg.total_visits(below, n) < below,
    decreases below,
{
    if below > 0 {
        lemma_total_visits_at_most(lcg, (below - 1) as nat, n, state);
        assert(lcg.visits(below - 1, n) <= 1);
    }
}

/// Such a generator has been at every state exactly once when it has
/// recorded as many states as it has.
pub proof fn lemma_full_period_visits_all(lcg: Lcg, state: int)
    requires
        lcg.full_period(),
        0 <= state < lcg.modulus(),
    ensures
        lcg.visits(state, lcg.modulus() as nat) == 1,
{
    let m = lcg.modulus() as nat;
    assert forall|s: int| 0 <= s < m implies #[trigger] lcg.visits(s, m) <= 1 by {
        lemma_full_period_visits_once(lcg, s, m);
    }
    lemma_total_visits_at_most(lcg, m, m, state);
    lemma_visits_conserved(lcg, m);
}

/// Such a generator leaves no state unreached.
pub proof fn lemma_full_period_none_unreached(lcg: Lcg, below: nat)
    requires
        lcg.full_period(),
        below <= lcg.modulus(),
    ensures
        lcg.unreached_below(below, lcg.modulus() as nat) == Seq::<u32>::empty(),
    decreases below,
{
    if below > 0 {
        lemma_full_period_none_unreached(lcg, (below - 1) as nat);
        lemma_full_period_visits_all(lcg, below - 1);
    }
}

} // verus!
