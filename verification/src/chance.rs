//! Random draws.
//!
//! Every draw of the library is made with a [`Dice`]. Dice made from a seed
//! make a run repeatable; nothing is proved of the numbers themselves but
//! their range.

use rand::rngs::{OsRng, StdRng};
use rand::{Rng, SeedableRng};
use vstd::prelude::*;

verus! {

/// The generator `rand::rngs::StdRng`. Nothing is known of its state.
#[verifier::external_type_specification]
#[verifier::external_body]
pub struct ExStdRng(StdRng);

/// A generator made by `rand::SeedableRng::seed_from_u64` from a seed.
/// Nothing is claimed of it.
#[verifier::external_body]
fn generator_from_seed(seed: u64) -> StdRng {
    StdRng::seed_from_u64(seed)
}

/// The error of `rand`, which says why no random bytes could be had.
/// Nothing is known of what it holds.
#[verifier::external_type_specification]
#[verifier::external_body]
pub struct ExRandError(rand::Error);

/// A generator made by `rand::SeedableRng::from_rng` from
/// `rand::rngs::OsRng`, which asks the operating system for the seed. The
/// call gives the error back where the operating system has no seed to
/// give. Nothing is claimed of either outcome.
#[verifier::external_body]
fn generator_from_system() -> Result<StdRng, rand::Error> {
    StdRng::from_rng(OsRng)
}

/// A number below `n`, drawn by `rand::Rng::gen_range` on the range from 0
/// up to `n`. The contract is taken on trust. It claims that the number lies
/// in the range, and leaves out the empty range, on which `gen_range`
/// panics. That every number of the range is equally likely is not stated.
#[verifier::external_body]
fn draw_below(generator: &mut StdRng, n: usize) -> (drawn: usize)
    requires
        n > 0,
    ensures
        drawn < n,
{
    generator.gen_range(0..n)
}

/// The source of the random draws of a game or a search.
pub struct Dice {
    generator: StdRng,
}

impl Dice {
    /// Dice that draw the same numbers whenever they are made from the
    /// same seed.
    pub fn seeded(seed: u64) -> Dice {
        Dice { generator: generator_from_seed(seed) }
    }

    /// Dice seeded by the operating system, or nothing if the operating
    /// system has no seed to give.
    pub fn from_entropy() -> Option<Dice> {
        match generator_from_system() {
            Ok(generator) => Some(Dice { generator }),
            Err(_) => None,
        }
    }

    /// Draws a number below `n`.
    pub fn below(&mut self, n: usize) -> (drawn: usize)
        requires
            n > 0,
        ensures
            drawn < n,
    {
        draw_below(&mut self.generator, n)
    }
}

} // verus!
