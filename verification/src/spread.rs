//! How evenly a generator that passes through every state hands out its
//! numbers: each as often as every other.

use crate::census::Report;
use crate::generator::{lemma_game_agrees, Lcg};
use crate::tally::{
    lemma_full_period_no_repeats, lemma_full_period_none_unreached, lemma_full_period_visits_all,
};
use vstd::arithmetic::div_mod::lemma_fundamental_div_mod_converse;
use vstd::arithmetic::power2::{lemma2_to64, lemma_pow2_adds, lemma_pow2_pos, pow2};
use vstd::prelude::*;

verus! {

/// How many of the numbers below `below` leave the remainder `value` when
/// divided by `modulus`.
pub open spec fn residues(value: int, modulus: int, below: nat) -> nat
    decreases below,
{
    if below == 0 {
        0
    } else if (below - 1) % modulus == value {
        residues(value, modulus, (below - 1) as nat) + 1
    } else {
        residues(value, modulus, (below - 1) as nat)
    }
}

impl Lcg {
    /// How many of the states below `below` hand out `value`.
    pub open spec fn slice_size(self, value: int, below: nat) -> nat
        decreases below,
    {
        if below == 0 {
            0
        } else if self.output_of(below - 1) == value {
            self.slice_size(value, (below - 1) as nat) + 1
        } else {
            self.slice_size(value, (below - 1) as nat)
        }
    }

    /// The sum of `visits` over the states below `below` that hand out
    /// `value`.
    pub open spec fn slice_visits(self, value: int, below: nat, n: nat) -> nat
        decreases below,
    {
        if below == 0 {
            0
        } else if self.output_of(below - 1) == value {
            self.slice_visits(value, (below - 1) as nat, n) + self.visits(below - 1, n)
        } else {
            self.slice_visits(value, (below - 1) as nat, n)
        }
    }
}

/// Among `whole` full rounds of `modulus` numbers and `rest` more, each
/// remainder occurs once in every round, and once more where it is below
/// `rest`.
proof fn lemma_residues(value: int, modulus: int, whole: nat, rest: nat)
    requires
        0 <= value < modulus,
        rest <= modulus,
    ensures
        residues(value, modulus, (whole * modulus + rest) as nat) == whole + (if value < rest {
            1nat
        } else {
            0nat
        }),
    decreases whole, rest,
{
    if rest == 0 {
        if whole == 0 {
            assert(0 * modulus == 0);
        } else {
            lemma_residues(value, modulus, (whole - 1) as nat, modulus as nat);
            assert((whole - 1) * modulus + modulus == whole * modulus) by (nonlinear_arith);
        }
    } else {
        lemma_residues(value, modulus, whole, (rest - 1) as nat);
        assert(whole * modulus >= 0) by (nonlinear_arith)
            requires
                whole >= 0,
                modulus >= 0,
        ;
        lemma_fundamental_div_mod_converse(
            whole * modulus + rest - 1,
            modulus,
            whole as int,
            rest - 1,
        );
    }
}

/// Among `whole` full blocks of 2^`output_shift` states and `rest` more, the
/// states that hand out `value` are the blocks whose number leaves that
/// remainder, and the `rest` where the block they begin does.
proof fn lemma_slice_size(lcg: Lcg, value: int, whole: nat, rest: nat)
    requires
        rest <= pow2(lcg.output_shift as nat),
    ensures
        lcg.slice_size(value, (whole * pow2(lcg.output_shift as nat) + rest) as nat) == pow2(
            lcg.output_shift as nat,
        ) * residues(value, lcg.outputs(), whole) + (if whole as int % lcg.outputs() == value {
            rest
        } else {
            0nat
        }),
    decreases whole, rest,
{
    let block = pow2(lcg.output_shift as nat) as int;
    lemma_pow2_pos(lcg.output_shift as nat);
    if rest == 0 {
        if whole == 0 {
            assert(0 * block == 0);
            assert(block * 0 == 0);
        } else {
            lemma_slice_size(lcg, value, (whole - 1) as nat, block as nat);
            let before = residues(value, lcg.outputs(), (whole - 1) as nat) as int;
            assert((whole - 1) * block + block == whole * block) by (nonlinear_arith);
            assert(block * before + block == block * (before + 1)) by (nonlinear_arith);
        }
    } else {
        lemma_slice_size(lcg, value, whole, (rest - 1) as nat);
        assert(whole * block >= 0) by (nonlinear_arith)
            requires
                whole >= 0,
                block >= 0,
        ;
        lemma_fundamental_div_mod_converse(whole * block + rest - 1, block, whole as int, rest - 1);
    }
}

/// Each value that can be handed out is handed out by as many states as every
/// other: by 2^(`state_bits` - `output_bits`) of them.
pub proof fn lemma_slice_size_even(lcg: Lcg, value: int)
    requires
        lcg.wf(),
        0 <= value < lcg.outputs(),
    ensures
        lcg.slice_size(value, lcg.modulus() as nat) == pow2(
            (lcg.state_bits - lcg.output_bits) as nat,
        ),
{
    let shift = lcg.output_shift as nat;
    let width = lcg.output_bits as nat;
    let above = (lcg.state_bits - lcg.output_shift - lcg.output_bits) as nat;
    let block = pow2(shift) as int;
    let values = pow2(width) as int;
    let rounds = pow2(above) as int;
    lemma_pow2_pos(shift);
    lemma_pow2_pos(width);
    lemma_pow2_pos(above);
    lemma_pow2_adds(above, width);
    lemma_pow2_adds(above + width, shift);
    lemma_pow2_adds(above, shift);
    let whole = (rounds * values) as nat;
    assert(rounds * values >= 0) by (nonlinear_arith)
        requires
            rounds >= 0,
            values >= 0,
    ;
    assert(lcg.modulus() == whole * block + 0);
    lemma_slice_size(lcg, value, whole, 0);
    lemma_residues(value, values, rounds as nat, 0);
    lemma_fundamental_div_mod_converse(whole as int, values, rounds, 0);
    assert(block * rounds == rounds * block) by (nonlinear_arith);
}

/// One more state of the run adds one to the visits of the states that hand
/// out `value`, where that state is among them.
proof fn lemma_slice_visits_step(lcg: Lcg, value: int, below: nat, n: nat)
    ensures
        lcg.slice_visits(value, below, n + 1) == lcg.slice_visits(value, below, n) + (if 0
            <= lcg.orbit(n) < below && lcg.output_of(lcg.orbit(n)) == value {
            1nat
        } else {
            0nat
        }),
    decreases below,
{
    if below > 0 {
        lemma_slice_visits_step(lcg, value, (below - 1) as nat, n);
    }
}

/// Before the first state no state has been visited.
proof fn lemma_slice_visits_zero(lcg: Lcg, value: int, below: nat)
    ensures
        lcg.slice_visits(value, below, 0) == 0,
    decreases below,
{
    if below > 0 {
        lemma_slice_visits_zero(lcg, value, (below - 1) as nat);
    }
}

/// A value has been handed out as often as the states that hand it out have
/// been visited.
pub proof fn lemma_hits_by_state(lcg: Lcg, value: int, n: nat)
    ensures
        lcg.hits(value, n) == lcg.slice_visits(value, lcg.modulus() as nat, n),
    decreases n,
{
    let m = lcg.modulus() as nat;
    if n == 0 {
        lemma_slice_visits_zero(lcg, value, m);
    } else {
        lemma_hits_by_state(lcg, value, (n - 1) as nat);
        lemma_slice_visits_step(lcg, value, m, (n - 1) as nat);
        lemma_pow2_pos(lcg.state_bits as nat);
        crate::period::lemma_iterate_in_range(lcg, 0, (n - 1) as nat);
    }
}

/// Once every state has been visited once, the visits of the states that hand
/// out `value` are their number.
proof fn lemma_slice_visits_full(lcg: Lcg, value: int, below: nat)
    requires
        lcg.full_period(),
        below <= lcg.modulus(),
    ensures
        lcg.slice_visits(value, below, lcg.modulus() as nat) == lcg.slice_size(value, below),
    decreases below,
{
    if below > 0 {
        lemma_slice_visits_full(lcg, value, (below - 1) as nat);
        lemma_full_period_visits_all(lcg, below - 1);
    }
}

/// A generator with a multiplier that is 1 modulo 4 and an odd increment
/// hands out every value equally often in a full run:
/// 2^(`state_bits` - `output_bits`) times.
pub proof fn lemma_full_period_hits(lcg: Lcg, value: int)
    requires
        lcg.wf(),
        lcg.full_period(),
        0 <= value < lcg.outputs(),
    ensures
        lcg.hits(value, lcg.modulus() as nat) == pow2((lcg.state_bits - lcg.output_bits) as nat),
{
    let m = lcg.modulus() as nat;
    lemma_hits_by_state(lcg, value, m);
    lemma_slice_visits_full(lcg, value, m);
    lemma_slice_size_even(lcg, value);
}

/// The report of a full run of such a generator holds no repeated state and no
/// unreached state, and its rarest and its most frequent value were each
/// handed out 2^(`state_bits` - `output_bits`) times.
pub proof fn lemma_full_period_report(lcg: Lcg, report: Report)
    requires
        lcg.wf(),
        lcg.full_period(),
        report.describes(lcg),
    ensures
        report.repeats@.len() == 0,
        report.unreached@.len() == 0,
        report.least_hit == pow2((lcg.state_bits - lcg.output_bits) as nat),
        report.most_hit == pow2((lcg.state_bits - lcg.output_bits) as nat),
{
    let m = lcg.modulus() as nat;
    lemma_full_period_no_repeats(lcg, 1, m);
    lemma_full_period_none_unreached(lcg, m);
    assert forall|value: int| 0 <= value < lcg.outputs() implies #[trigger] lcg.hits(value, m)
        == pow2((lcg.state_bits - lcg.output_bits) as nat) by {
        lemma_full_period_hits(lcg, value);
    }
}

/// The report of a full run of the 32-bit generator: every seed is reached
/// once, and each of the 32768 numbers is handed out 131072 times.
pub proof fn lemma_game_report(report: Report)
    requires
        report.describes(Lcg::spec_game()),
    ensures
        report.repeats@.len() == 0,
        report.unreached@.len() == 0,
        report.least_hit == 0x2_0000,
        report.most_hit == 0x2_0000,
{
    lemma_game_agrees(0);
    lemma2_to64();
    lemma_full_period_report(Lcg::spec_game(), report);
}

} // verus!
