//! The mesh data model.
//!
//! Coordinates are single-precision IEEE 754 numbers. They are carried as their
//! 32-bit patterns, so that every value in a mesh is an integer the verifier can
//! reason about; `f32::from_bits` recovers the number.

use vstd::prelude::*;

verus! {

/// A point, or a direction, in three dimensions. Each field is the bit pattern
/// of a single-precision coordinate.
#[derive(Clone, Copy, Debug, PartialEq, Eq)]
pub struct Point3 {
    pub x: u32,
    pub y: u32,
    pub z: u32,
}

impl Point3 {
    /// The point with the given coordinates.
    pub fn new(x: u32, y: u32, z: u32) -> (p: Point3)
        ensures
            p == (Point3 { x, y, z }),
    {
        Point3 { x, y, z }
    }
}

/// One triangular face: three vertices in winding order and a face normal.
/// The normal is stored as it was read, never recomputed or rescaled.
#[derive(Clone, Copy, Debug, PartialEq, Eq)]
pub struct Triangle {
    pub verts: [Point3; 3],
    pub normal: Point3,
}

/// The triangle with the given vertices and normal.
pub open spec fn triangle(v0: Point3, v1: Point3, v2: Point3, norm: Point3) -> Triangle {
    Triangle { verts: [v0, v1, v2], normal: norm }
}

impl Triangle {
    /// The triangle with the vertices `v0`, `v1`, `v2`, in this order, and
    /// the normal `norm`.
    pub fn new(v0: Point3, v1: Point3, v2: Point3, norm: Point3) -> (t: Triangle)
        ensures
            t == triangle(v0, v1, v2, norm),
            t.verts@ == seq![v0, v1, v2],
    {
        Triangle { verts: [v0, v1, v2], normal: norm }
    }
}

/// The point whose coordinates are the three words of `w` from index `at` on.
pub open spec fn point_of(w: Seq<u32>, at: int) -> Point3 {
    Point3 { x: w[at], y: w[at + 1], z: w[at + 2] }
}

/// The triangle that the twelve words of `w` from index `at` on describe: the
/// normal comes first, the three vertices follow in winding order.
pub open spec fn triangle_of(w: Seq<u32>, at: int) -> Triangle {
    triangle(point_of(w, at + 3), point_of(w, at + 6), point_of(w, at + 9), point_of(w, at))
}

/// A named list of triangles, in the order in which the file gave them.
#[derive(Clone, Debug, PartialEq, Eq)]
pub struct Mesh {
    pub name: String,
    pub tris: Vec<Triangle>,
}

/// What a mesh holds: the characters of its name and its triangles.
pub struct MeshView {
    pub name: Seq<char>,
    pub tris: Seq<Triangle>,
}

impl View for Mesh {
    type V = MeshView;

    open spec fn view(&self) -> MeshView {
        MeshView { name: self.name@, tris: self.tris@ }
    }
}

/// The view of the mesh in a result; an error stays as it is.
pub open spec fn result_view<E>(r: Result<Mesh, E>) -> Result<MeshView, E> {
    match r {
        Ok(mesh) => Ok(mesh@),
        Err(e) => Err(e),
    }
}

} // verus!
