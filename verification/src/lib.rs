//! A verified model of a jump-flooding distance-field renderer.
//!
//! The library computes, pixel by pixel, the same field that the GPU
//! pipeline produces: a seed pass writes one seed coordinate into an
//! otherwise empty grid, a sequence of jump-flooding passes propagates
//! the nearest-seed information across a pair of ping-pong buffers with
//! a halving step size, and a composite pass decodes the converged grid
//! into per-pixel distances.

pub mod field;
pub mod pingpong;
pub mod pipeline;
pub mod laws;
pub mod passes;
pub mod sequence;
pub mod step;
pub mod uniforms;
