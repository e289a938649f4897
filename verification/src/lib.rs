//! Paley tournaments and the domination property S_k.
use vstd::prelude::*;

pub mod args;
pub mod bitset;
pub mod bookmark;
pub mod bounds;
pub mod canonical;
pub mod enumerate;
pub mod lists;
pub mod modular;
pub mod outside;
pub mod paley;
pub mod primes;
pub mod readings;
pub mod residues;
pub mod sampling;
pub mod search;
pub mod seeded;
pub mod structural;
pub mod text;
pub mod tournament;
pub mod weil;

verus! {

} // verus!
