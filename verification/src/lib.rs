//! Dice notation, compiled to a stack program and evaluated with a seeded
//! sampler.
//!
//! [`parse::parse`] compiles a text such as `3d6+2` to a [`eval::Roll`],
//! [`eval::Roll::eval`] evaluates a roll for a seed, and [`roll`] does both.

pub mod command;
pub mod error;
pub mod eval;
pub mod lex;
pub mod parse;
pub mod rng;

use crate::error::{agrees, Error, ErrorKind};
use crate::eval::outcome;
use crate::parse::compiled;
use crate::rng::BasicRng;
use vstd::prelude::*;

verus! {

/// What `text` evaluates to with a sampler seeded with `seed`, where no
/// dice roll may ask for more than `limit` dice: the failure to compile it,
/// or what its instructions come to.
pub open spec fn evaluated(text: Seq<char>, seed: u64, limit: u64) -> Result<i64, ErrorKind> {
    match compiled(text) {
        Ok(code) => outcome(code, limit, BasicRng { state: seed }).0,
        Err(kind) => Err(kind),
    }
}

/// Compiles `input` and evaluates it with a sampler seeded with `seed`.
pub fn roll(input: &str, seed: u64, limit: u64) -> (result: Result<i64, Error>)
    ensures
        agrees(result, evaluated(input@, seed, limit)),
{
    match parse::parse(input) {
        Ok(compiled) => compiled.eval(seed, limit),
        Err(e) => Err(e),
    }
}

/// Whether two results are alike: the same value, or the same message.
pub open spec fn alike(a: Result<i64, Error>, b: Result<i64, Error>) -> bool {
    match (a, b) {
        (Ok(x), Ok(y)) => x == y,
        (Err(x), Err(y)) => x.message@ == y.message@,
        _ => false,
    }
}

/// Evaluating a text twice with the same seed and limit gives the same
/// result twice.
pub proof fn lemma_roll_reproducible(
    text: Seq<char>,
    seed: u64,
    limit: u64,
    first: Result<i64, Error>,
    second: Result<i64, Error>,
)
    requires
        agrees(first, evaluated(text, seed, limit)),
        agrees(second, evaluated(text, seed, limit)),
    ensures
        alike(first, second),
{
}

} // verus!
