//! Exhaustive analysis of a 32-bit linear congruential generator.
//!
//! The generator keeps a 32-bit seed, advances it by `seed * a + c` modulo
//! 2^32 and hands out bits 16 to 30 of the seed as its random number. A run
//! from seed 0 through 2^32 seeds counts how often each seed is reached and
//! how often each number is handed out.
//!
//! * [`generator`]: the step and the number handed out, for the 32-bit
//!   generator and for generators of the same family on fewer bits.
//! * [`period`]: the proof that such a generator passes through every state.
//! * [`tally`]: what a run is counted by.
//! * [`census`]: the run itself and its report.
//! * [`spread`]: the proof that a full run hands out every number equally
//!   often.
//! * [`text`]: the lines in which a report is written out.

pub mod census;
pub mod generator;
pub mod period;
pub mod spread;
pub mod tally;
pub mod text;

pub use census::{analyze, Census, Report};
pub use generator::{rng_next_seed, rng_return_value, Lcg, INCREMENT, INITIAL_STATE, MULTIPLIER};
pub use tally::Repeat;
