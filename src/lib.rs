//! Chunk clusters: a hash-ranked sampler of grid cells, a spanning tree over
//! them, a classification of the cells the tree passes through, and a
//! palette-indexed, bit-packed voxel region encoder.

pub mod bits;
pub mod cluster;
pub mod hash;
pub mod pipeline;
pub mod placement;
pub mod schematic;
pub mod tag;
pub mod topology;
pub mod tree;
