//! A deterministic pseudorandom source built on one integer mixing function.
//!
//! `mixing` holds the pure hash and the coordinate-hash (noise) functions;
//! `generator` holds the stateful generator that walks a position counter
//! through the mixing function under a seed.
pub mod generator;
pub mod mixing;

pub use generator::Rng;
pub use mixing::{noise1d_u32, noise2d_u32, noise3d_u32, seed_from_hash, squirrel3};
