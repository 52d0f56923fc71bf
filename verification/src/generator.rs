//! The generator itself: how a seed is advanced and what number it yields.

use vstd::arithmetic::div_mod::{
    lemma_fundamental_div_mod_converse, lemma_mod_bound, lemma_small_mod,
};
use vstd::arithmetic::power2::{
    lemma2_to64, lemma_pow2_adds, lemma_pow2_pos, lemma_pow2_strictly_increases, pow2,
};
use vstd::prelude::*;

verus! {

/// The factor by which a seed is multiplied at each step.
pub const MULTIPLIER: u32 = 0x41C6_4E6D;

/// The amount added to the product at each step.
pub const INCREMENT: u32 = 0x3039;

/// The state with which every run begins. A generator that passes through
/// every state does so from whichever state it begins at; this one is fixed so
/// that a run is the same each time.
pub const INITIAL_STATE: u32 = 0;

/// The seed that follows `seed`: `seed * MULTIPLIER + INCREMENT` modulo 2^32.
pub open spec fn next_seed(seed: int) -> int {
    (seed * 0x41C6_4E6D + 0x3039) % 0x1_0000_0000
}

/// The number handed out for `seed`: bits 16 to 30 of it.
pub open spec fn return_value(seed: int) -> int {
    (seed / 0x1_0000) % 0x8000
}

/// Advances the seed by one step, with 32-bit wraparound.
pub fn rng_next_seed(seed: u32) -> (next: u32)
    ensures
        next == next_seed(seed as int),
        next == Lcg::spec_game().step(seed as int),
{
    let product: u32 = seed.wrapping_mul(MULTIPLIER);
    let next: u32 = product.wrapping_add(INCREMENT);
    proof {
        lemma_game_agrees(seed as int);
        let p: int = seed * 0x41C6_4E6D;
        assert(product == p % 0x1_0000_0000);
        assert(next == (product + 0x3039) % 0x1_0000_0000);
        vstd::arithmetic::div_mod::lemma_add_mod_noop(p, 0x3039, 0x1_0000_0000);
    }
    next
}

/// The number that the generator hands out while its seed is `seed`: bits 16
/// to 30 of the seed, so never negative.
pub fn rng_return_value(seed: u32) -> (value: i16)
    ensures
        value == return_value(seed as int),
        0 <= value <= 0x7FFF,
        value == (seed >> 16) & 0x7FFF,
        value == Lcg::spec_game().output_of(seed as int),
{
    proof {
        lemma_game_agrees(seed as int);
    }
    let bits: u32 = (seed >> 16) & 0x7FFF;
    assert(bits == (seed / 0x1_0000) % 0x8000 && bits <= 0x7FFF) by (bit_vector)
        requires
            bits == (seed >> 16) & 0x7FFF,
    ;
    bits as i16
}

/// A generator of the same family on a state of `state_bits` bits: the state
/// advances by `state * multiplier + increment` modulo 2^`state_bits`, and the
/// number handed out is the `output_bits` bits of the state that start at bit
/// `output_shift`.
#[derive(Clone, Copy, Debug, PartialEq, Eq, Structural)]
pub struct Lcg {
    pub multiplier: u32,
    pub increment: u32,
    pub state_bits: u32,
    pub output_shift: u32,
    pub output_bits: u32,
}

/// Two to the power `bits`.
fn two_to_the(bits: u32) -> (power: u64)
    requires
        bits <= 32,
    ensures
        power == pow2(bits as nat),
        1 <= power <= 0x1_0000_0000,
{
    proof {
        lemma2_to64();
        lemma_pow2_pos(bits as nat);
        if bits < 32 {
            lemma_pow2_strictly_increases(bits as nat, 32);
        }
        vstd::bits::lemma_u64_shl_is_mul(1, bits as u64);
    }
    1u64 << (bits as u64)
}

impl Lcg {
    /// The widths describe a generator: a state of 1 to 32 bits, and an output
    /// slice that lies within the state.
    pub open spec fn wf(self) -> bool {
        &&& 1 <= self.state_bits <= 32
        &&& self.output_bits <= 16
        &&& self.output_shift + self.output_bits <= self.state_bits
    }

    /// The number of states, 2^`state_bits`.
    pub open spec fn modulus(self) -> int {
        pow2(self.state_bits as nat) as int
    }

    /// The number of values that can be handed out, 2^`output_bits`.
    pub open spec fn outputs(self) -> int {
        pow2(self.output_bits as nat) as int
    }

    /// The state that follows `state`.
    pub open spec fn step(self, state: int) -> int {
        (state * self.multiplier + self.increment) % self.modulus()
    }

    /// The number handed out while the state is `state`.
    pub open spec fn output_of(self, state: int) -> int {
        (state / (pow2(self.output_shift as nat) as int)) % self.outputs()
    }

    /// The state reached from `state` after `n` steps.
    pub open spec fn iterate(self, state: int, n: nat) -> int
        decreases n,
    {
        if n == 0 {
            state
        } else {
            self.step(self.iterate(state, (n - 1) as nat))
        }
    }

    /// The state of a run after `n` steps.
    pub open spec fn orbit(self, n: nat) -> int {
        self.iterate(INITIAL_STATE as int, n)
    }

    /// The multiplier is 1 modulo 4 and the increment is odd: the two
    /// conditions under which a generator with a power of two as its modulus
    /// passes through every state before it repeats one.
    pub open spec fn full_period(self) -> bool {
        self.multiplier % 4 == 1 && self.increment % 2 == 1
    }

    /// The 32-bit generator of `rng_next_seed` and `rng_return_value`.
    pub open spec fn spec_game() -> Lcg {
        Lcg {
            multiplier: 0x41C6_4E6D,
            increment: 0x3039,
            state_bits: 32,
            output_shift: 16,
            output_bits: 15,
        }
    }

    /// A generator with the given constants and widths, where the widths
    /// describe one.
    pub fn new(
        multiplier: u32,
        increment: u32,
        state_bits: u32,
        output_shift: u32,
        output_bits: u32,
    ) -> (made: Option<Lcg>)
        ensures
            made == (if 1 <= state_bits <= 32 && output_bits <= 16 && output_shift + output_bits
                <= state_bits {
                Some(Lcg { multiplier, increment, state_bits, output_shift, output_bits })
            } else {
                None
            }),
            made is Some ==> made->0.wf(),
    {
        if 1 <= state_bits && state_bits <= 32 && output_bits <= 16 && output_shift <= state_bits
            && output_bits <= state_bits - output_shift {
            Some(Lcg { multiplier, increment, state_bits, output_shift, output_bits })
        } else {
            None
        }
    }

    /// The 32-bit generator of `rng_next_seed` and `rng_return_value`.
    pub fn game() -> (lcg: Lcg)
        ensures
            lcg == Lcg::spec_game(),
            lcg.wf(),
            lcg.full_period(),
    {
        Lcg {
            multiplier: MULTIPLIER,
            increment: INCREMENT,
            state_bits: 32,
            output_shift: 16,
            output_bits: 15,
        }
    }

    /// The number of states.
    pub fn state_count(&self) -> (count: u64)
        requires
            self.wf(),
        ensures
            count == self.modulus(),
            2 <= count <= 0x1_0000_0000,
    {
        proof {
            lemma2_to64();
            lemma_pow2_strictly_increases(0, self.state_bits as nat);
        }
        two_to_the(self.state_bits)
    }

    /// The number of values that can be handed out.
    pub fn output_count(&self) -> (count: u32)
        requires
            self.wf(),
        ensures
            count == self.outputs(),
            1 <= count <= 0x1_0000,
    {
        proof {
            lemma2_to64();
            if self.output_bits < 16 {
                lemma_pow2_strictly_increases(self.output_bits as nat, 16);
            }
        }
        two_to_the(self.output_bits) as u32
    }

    /// Advances `state` by one step.
    pub fn next_state(&self, state: u32) -> (next: u32)
        requires
            self.wf(),
        ensures
            next == self.step(state as int),
            next < self.modulus(),
    {
        let modulus: u64 = two_to_the(self.state_bits);
        assert(state * self.multiplier + self.increment <= u64::MAX) by (nonlinear_arith)
            requires
                state <= 0xFFFF_FFFF,
                self.multiplier <= 0xFFFF_FFFF,
                self.increment <= 0xFFFF_FFFF,
        ;
        let sum: u64 = (state as u64) * (self.multiplier as u64) + (self.increment as u64);
        proof {
            vstd::bits::lemma_u64_low_bits_mask_is_mod(sum, self.state_bits as nat);
        }
        (sum & (modulus - 1)) as u32
    }

    /// The number handed out while the state is `state`.
    pub fn output(&self, state: u32) -> (value: u16)
        requires
            self.wf(),
        ensures
            value == self.output_of(state as int),
            value < self.outputs(),
    {
        let outputs: u64 = two_to_the(self.output_bits);
        proof {
            lemma2_to64();
            if self.output_bits < 16 {
                lemma_pow2_strictly_increases(self.output_bits as nat, 16);
            }
            vstd::bits::lemma_u64_shr_is_div(state as u64, self.output_shift as u64);
        }
        let upper: u64 = (state as u64) >> (self.output_shift as u64);
        proof {
            vstd::bits::lemma_u64_low_bits_mask_is_mod(upper, self.output_bits as nat);
        }
        (upper & (outputs - 1)) as u16
    }
}

/// Whatever the state, the number handed out is one of the 2^`output_bits`
/// that can be.
pub proof fn lemma_output_in_range(lcg: Lcg, state: int)
    ensures
        0 <= lcg.output_of(state) < lcg.outputs(),
{
    lemma_pow2_pos(lcg.output_bits as nat);
    lemma_mod_bound(state / (pow2(lcg.output_shift as nat) as int), lcg.outputs());
}

/// Each of the 2^`output_bits` numbers is handed out by some state.
pub proof fn lemma_every_value_is_handed_out(lcg: Lcg, value: int)
    requires
        lcg.wf(),
        0 <= value < lcg.outputs(),
    ensures
        exists|state: int| 0 <= state < lcg.modulus() && #[trigger] lcg.output_of(state) == value,
{
    let shift = lcg.output_shift as nat;
    let width = lcg.output_bits as nat;
    let above = (lcg.state_bits - lcg.output_shift - lcg.output_bits) as nat;
    let block = pow2(shift) as int;
    let state = value * block;
    lemma_pow2_pos(shift);
    lemma_pow2_pos(above);
    lemma_pow2_adds(width, shift);
    lemma_pow2_adds(width + shift, above);
    assert(0 <= state < lcg.outputs() * block <= lcg.outputs() * block * pow2(above))
        by (nonlinear_arith)
        requires
            state == value * block,
            0 <= value < lcg.outputs(),
            block > 0,
            pow2(above) > 0,
    ;
    lemma_fundamental_div_mod_converse(state, block, value, 0);
    lemma_small_mod(value as nat, lcg.outputs() as nat);
    assert(lcg.output_of(state) == value);
}

/// On every seed the 32-bit generator is the one of `rng_next_seed` and
/// `rng_return_value`.
pub proof fn lemma_game_agrees(seed: int)
    ensures
        Lcg::spec_game().wf(),
        Lcg::spec_game().full_period(),
        Lcg::spec_game().modulus() == 0x1_0000_0000,
        Lcg::spec_game().outputs() == 0x8000,
        Lcg::spec_game().step(seed) == next_seed(seed),
        Lcg::spec_game().output_of(seed) == return_value(seed),
{
    lemma2_to64();
}

} // verus!
