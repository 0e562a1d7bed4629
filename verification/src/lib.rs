pub mod puzzle;
pub mod rng;
pub mod sim;
pub mod solver;
pub mod ui;
pub mod utils;
