//! Triangle-mesh vertex data, generic over the scalar type.
//!
//! The mesh text format carries numeric fields whose parsing and meaning
//! belong to the caller's scalar type: a `Scalar` supplies the parse from a
//! token's bytes and the zero used where a texture coordinate is absent.
//! This crate implements `Scalar` for `isize` (plain decimal tokens); a
//! caller rendering with floating-point scalars implements it for its own
//! scalar type, and the parser's contracts hold for any implementation.

use vstd::prelude::*;

verus! {

/// A scalar that can be read from one whitespace-separated token.
///
/// The two spec functions give the exec methods their meaning; an
/// implementation that does not override them leaves both unspecified, and
/// the parser's contracts then say nothing about the scalar values it
/// hands back, while still pinning down every structural decision.
pub trait Scalar: Sized + Copy {
    /// What parsing a token yields: a function of the token's bytes alone.
    open spec fn spec_parse(t: Seq<u8>) -> Option<Self> {
        vstd::pervasive::arbitrary()
    }

    /// The scalar zero, the fallback for absent texture coordinates.
    open spec fn spec_zero() -> Self {
        vstd::pervasive::arbitrary()
    }

    fn parse(t: &[u8]) -> (r: Option<Self>)
        ensures
            r == Self::spec_parse(t@),
    ;

    fn zero() -> (r: Self)
        ensures
            r == Self::spec_zero(),
    ;
}

/// One corner of a triangle.  `normal` is `None` when the face gave no
/// usable normal index; the consumer then falls back to the face normal.
#[derive(Clone, Copy, Debug, PartialEq, Eq, Structural)]
pub struct Vertex<V> {
    pub pos: [V; 3],
    pub uv: [V; 2],
    pub normal: Option<[V; 3]>,
}

#[derive(Clone, Copy, Debug, PartialEq, Eq, Structural)]
pub struct Triangle<V> {
    pub verts: [Vertex<V>; 3],
}

impl<V: Scalar> Triangle<V> {
    pub fn new(v1: Vertex<V>, v2: Vertex<V>, v3: Vertex<V>) -> (r: Self)
        ensures
            r.verts@[0] == v1,
            r.verts@[1] == v2,
            r.verts@[2] == v3,
    {
        Triangle { verts: [v1, v2, v3] }
    }

    pub fn positions(&self) -> (r: ([V; 3], [V; 3], [V; 3]))
        ensures
            r.0 == self.verts@[0].pos,
            r.1 == self.verts@[1].pos,
            r.2 == self.verts@[2].pos,
    {
        (self.verts[0].pos, self.verts[1].pos, self.verts[2].pos)
    }
}

} // verus!
