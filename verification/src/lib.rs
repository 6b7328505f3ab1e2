//! Core logic of a small path-tracing renderer, verified with Verus.
//!
//! The renderer's decisions that do not depend on floating-point
//! arithmetic live here with full functional contracts:
//!
//! * the mesh text format: a line-oriented indexed triangle format
//!   (`obj::load` and its helpers), generic over the scalar type through
//!   `mesh::Scalar`;
//! * the split-search machinery of the surface-area-heuristic tree
//!   builder: sorted start/end markers, the sweep that counts primitives
//!   on each side of every candidate cut, deduplication of candidate
//!   positions, selection of the cheapest candidate by its cost key, and
//!   the partition of primitives across a chosen cut (`kdtree`);
//! * axis-aligned bounding boxes: union, containment, splitting and
//!   component-wise folds (`aabb` and `vec`).
//!
//! Scalar values enter the library in one of two forms.  Where only the
//! *order* of coordinates matters (box unions, split sweeps, partitions),
//! the caller hands in order keys: `u32` values whose `<=` agrees with the
//! order of the caller's own scalar type; any strictly monotone encoding
//! works.  Where values are carried through and handed back (the vertex
//! data of a mesh file), they travel as the caller's `Scalar` type, parsed
//! and defaulted through that trait's contract and never inspected here.

pub mod aabb;
pub mod kdtree;
pub mod mesh;
pub mod obj;
pub mod vec;
