//! Text banners drawn as Conway's Game of Life patterns on a toroidal grid.

pub mod cells;
pub mod compound;
pub mod config;
pub mod evolve;
pub mod fonts;
pub mod mold;
pub mod optimizer;
pub mod primes;
pub mod randomizer;
