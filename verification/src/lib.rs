//! Random name generation from a small text grammar: a verified parser for
//! grammar files, a verified expander driven by a seeded splitmix64
//! generator, and the verified logic of the command line.

pub mod text;
pub mod grammar;
pub mod generate;
pub mod cli;
