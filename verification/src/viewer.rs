//! The viewer's decisions: what it remembers, shows, sends and draws.
pub mod history;
pub mod labels;
pub mod gpu;
pub mod mirror;
pub mod rate;
pub mod session;
pub mod input;
pub mod touch;
pub mod details;
pub mod status;
