//! Infinite-plane Game of Life engines.
//!
//! Three engines evolve Conway's Game of Life (rule B3/S23) on an unbounded
//! signed 64-bit grid behind one operational interface: a sparse map of
//! 64x64 bit-packed blocks, an arena-backed variant of the same blocks with
//! cached neighbour links, and a hash-consed quadtree (HashLife).  A
//! viewport-bound rasteriser projects the live universe into an 8-bit
//! intensity buffer.

pub mod life;
pub mod rowstep;
pub mod chunk;
pub mod node;
pub mod cache;
pub mod hashlife;
pub mod sparse;
pub mod arena_life;
pub mod engine;
pub mod laws;
