//! Verified core of a procedural terrain generator: the seeded random
//! generator, grid indexing, hydrology ordering and flow accumulation, the
//! biome decision table, settlement selection limits and the road tree.
//!
//! Per-cell elevations and other real-valued fields enter this library as
//! order keys: unsigned integers whose order agrees with the order of the
//! values they stand for.
pub mod biome;
pub mod grid;
pub mod hydrology;
pub mod rng;
pub mod roads;
pub mod settlement;
