//! A verified solver core for the code-breaking game Mastermind.
//!
//! A secret code of `num_pins` positions is drawn from `num_colors` symbols.
//! The solver enumerates the full candidate space, scores guesses against
//! hypothetical secrets, evaluates guesses by the feedback distribution they
//! induce, and trims the candidate set to the codes consistent with each
//! observed feedback, until a single candidate remains.

use vstd::prelude::*;

pub mod code;
pub mod combos;
pub mod entropy;
pub mod rng;
pub mod space;

verus! {

/// The ways a game operation can fail.
#[derive(Clone, Copy, Debug, PartialEq, Eq, Structural)]
pub enum GameError {
    /// A code was built with a color outside `[1, num_colors]`
    /// or with a length that does not fit the game.
    InvalidCode,
    /// Space construction was asked for zero colors or zero pins.
    DegenerateParameters,
    /// Trimming left no candidate at all: the observed feedback was
    /// inconsistent with every remaining candidate.
    EmptyCandidateSet,
    /// A guess was requested from an empty guess pool.
    EmptyGuessPool,
}

} // verus!
