//! A solver for a deduction game played on a 3x3 crafting grid.
//!
//! A recipe expands into the concrete crafts it can be guessed or answered
//! as ([`permutations`], with [`fillings`] for recipes of one repeated item),
//! a guess is scored against an answer with a hint of three colours
//! ([`hint`]), the hints of a guess split the candidate answers into pools
//! ([`pools`]), and a search narrows the candidates round by round: against
//! an adversary ([`adversarial`]), by the most informative guess
//! ([`greedy`]), or with the best two opening guesses ([`pairs`]). Recipes are
//! read from documents ([`json`], [`parse`]).

pub mod adversarial;
pub mod fillings;
pub mod greedy;
pub mod hint;
pub mod json;
pub mod model;
pub mod pairs;
pub mod parse;
pub mod permutations;
pub mod pools;
pub mod sequences;
