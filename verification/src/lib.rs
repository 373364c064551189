//! A discrete interval encoding tree: a set of integers that keeps every
//! maximal run of consecutive members as a single closed interval.

pub mod diet;
pub mod intervals;
pub mod laws;
mod node;
mod splice;

pub use diet::Diet;
