pub mod cell;
pub mod counting;
pub mod laws;
pub mod minefield;
pub mod rng;
