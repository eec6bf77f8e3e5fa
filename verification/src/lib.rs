//! Linear octrees over Morton keys.
//!
//! A point cloud in the unit cube is held in an octree whose cells are named by
//! 64-bit Morton keys. The modules, from the ground up:
//!
//! - `powers`, `interleave`: powers of two and eight, and the bit interleaving
//!   that makes a Z-order number of three coordinates;
//! - `morton`, `neighbors`: the keys, their ancestors and children, and the
//!   cells around a cell: neighbours, near field and interaction list;
//! - `linear`, `sorting`, `completion`, `balance`: linear octrees, and how keys
//!   are linearized, completed to a tree over the cube and 2:1 balanced;
//! - `relations`: which leaf holds a cell, and the near field and the
//!   interaction list of the leaves of a tree;
//! - `partition`, `distributed`: the partition of keys over processes by sample
//!   sort, and the build of a distributed tree as the decisions of one process;
//! - `tree`: points and the tree of one process;
//! - `arrays`, `octree`, `vtk`: octrees over arrays of particle keys with their
//!   maps and figures, and the grid of a tree for export.
//!
//! Floating point, files and the exchange between processes are not part of
//! this library: it works on the finest grid of the cube, in whole numbers.

pub mod powers;
pub mod interleave;
pub mod morton;
pub mod neighbors;
pub mod linear;
pub mod sorting;
pub mod completion;
pub mod balance;
pub mod relations;
pub mod partition;
pub mod tree;
pub mod distributed;
pub mod arrays;
pub mod vtk;
pub mod octree;
