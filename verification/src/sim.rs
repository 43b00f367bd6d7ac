//! The simulation: one tick is a fixed sequence of phases over the whole world.
pub mod occupant;
pub mod soil;
pub mod pull;
pub mod push;
pub mod stem;
pub mod germinate;
pub mod deposit;
pub mod death;
pub mod growth;
pub mod census;
pub mod tick;
pub mod ledger;
pub mod lasting;
pub mod rules;
pub mod growing;
