//! Verified core of a plant-evolution cellular automaton.
use vstd::prelude::*;

pub mod codec;
pub mod digest;
pub mod genome;
pub mod grid;
pub mod persist;
pub mod protocol;
pub mod rng;
pub mod sim;
pub mod state;
pub mod text;
pub mod tls;
pub mod trial;
pub mod viewer;
pub mod world;

verus! {

} // verus!
