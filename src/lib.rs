//! A spatial index over integer points in a cube that is split into eight
//! octants per level. Each point is addressed by interleaving the bits of its
//! coordinates, and the leaves are a dense table of buckets.

pub mod augment;
pub mod codec;
pub mod error;
pub mod neighbors;
pub mod traversal;
pub mod tree;

pub use augment::Augmented;
pub use codec::{child_slot, decode, encode, prefix, MAX_BITS};
pub use error::OctreeError;
pub use traversal::{Cube, Node, Visit};
pub use tree::{Octree, Point};
