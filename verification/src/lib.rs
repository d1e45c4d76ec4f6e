pub mod agent;
pub mod config;
pub mod model;
pub mod rng;
pub mod tetrimino;
pub mod train;
pub mod utils;
