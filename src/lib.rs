//! Phoneme inventories, classes of phonemes, and patterns matched over words.
use vstd::prelude::*;

pub mod error;
pub mod pat;
pub mod symbol;
pub mod text;
pub mod token;

verus! {

} // verus!
