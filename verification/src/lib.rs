//! Chunk-streaming engine for procedurally generated terrain.
//!
//! The library decides which terrain chunks must exist around a moving
//! camera, plans each chunk's mesh (the exact lattice points at which a
//! noise field is sampled, and the triangle index buffer), and evicts
//! chunks that have drifted outside a retention radius.  Everything the
//! engine decides is stated in contracts and verified; evaluating the
//! noise field and talking to the GPU involve floating point and a
//! rendering backend, which a host program supplies around this crate.

pub mod coords;
pub mod grid;
pub mod mesh;
pub mod noise;
