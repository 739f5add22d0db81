//! Triangle meshes, as far as their indexing goes.

use vstd::prelude::*;
use crate::utility::aabb::{is_hull, lemma_hull_of_both, lemma_hull_of_one, Aabb};
use crate::utility::scalar::{Point, Scalar};

verus! {

/// A triangle, by the numbers of its three vertices.
#[derive(Debug, Clone, Copy, PartialEq, Eq, Structural)]
pub struct Face {
    pub a: usize,
    pub b: usize,
    pub c: usize,
}

/// The triangles of a mesh.
pub struct Mesh {
    pub tris: Vec<Face>,
}

/// Whether the first `3 * (indices.len() / 3)` of `indices` name vertices
/// of a mesh that has `vertices` of them.
pub open spec fn indices_fit(indices: Seq<u32>, vertices: int) -> bool {
    forall|k: int| 0 <= k < 3 * (indices.len() / 3) ==> (#[trigger] indices[k]) < vertices
}

/// Triangle number `f` of an index list: three consecutive indices.
pub open spec fn face_of(indices: Seq<u32>, f: int) -> Face {
    Face {
        a: indices[3 * f] as usize,
        b: indices[3 * f + 1] as usize,
        c: indices[3 * f + 2] as usize,
    }
}

impl Mesh {
    /// Tells whether `indices` can be made into triangles of a mesh with
    /// `vertices` vertices.
    pub fn fits(indices: &Vec<u32>, vertices: usize) -> (ok: bool)
        ensures
            ok == indices_fit(indices@, vertices as int),
    {
        let used = 3 * (indices.len() / 3);
        let mut k: usize = 0;
        while k < used
            invariant
                used == 3 * (indices@.len() / 3),
                k <= used <= indices@.len(),
                forall|j: int| 0 <= j < k ==> (#[trigger] indices@[j]) < vertices,
            decreases used - k,
        {
            if indices[k] as usize >= vertices {
                return false;
            }
            k = k + 1;
        }
        true
    }

    /// Groups `indices` by threes into the triangles of a mesh with
    /// `vertices` vertices. One or two indices left over at the end are
    /// dropped.
    pub fn new(vertices: usize, indices: Vec<u32>) -> (mesh: Mesh)
        requires
            indices_fit(indices@, vertices as int),
        ensures
            mesh.tris@.len() == indices@.len() / 3,
            forall|f: int| 0 <= f < mesh.tris@.len() ==> (#[trigger] mesh.tris@[f]) == face_of(indices@, f),
            forall|f: int|
                0 <= f < mesh.tris@.len() ==> (#[trigger] mesh.tris@[f]).a < vertices
                    && mesh.tris@[f].b < vertices && mesh.tris@[f].c < vertices,
    {
        let count = indices.len() / 3;
        let mut tris: Vec<Face> = Vec::new();
        let mut f: usize = 0;
        while f < count
            invariant
                count == indices@.len() / 3,
                3 * count <= indices@.len() <= usize::MAX,
                f <= count,
                tris@.len() == f,
                indices_fit(indices@, vertices as int),
                forall|g: int| 0 <= g < f ==> (#[trigger] tris@[g]) == face_of(indices@, g),
                forall|g: int|
                    0 <= g < f ==> (#[trigger] tris@[g]).a < vertices && tris@[g].b < vertices
                        && tris@[g].c < vertices,
            decreases count - f,
        {
            let face = Face {
                a: indices[f * 3] as usize,
                b: indices[f * 3 + 1] as usize,
                c: indices[f * 3 + 2] as usize,
            };
            assert(indices@[3 * f as int] < vertices);
            assert(indices@[3 * f + 1] < vertices);
            assert(indices@[3 * f + 2] < vertices);
            tris.push(face);
            f = f + 1;
        }
        Mesh { tris }
    }
}

/// Tells whether a point of the plane of a triangle lies on the triangle,
/// given its three barycentric coordinates and the scalar that stands for
/// zero: none of the three may be negative.
pub fn covers(zero: Scalar, b0: Scalar, b1: Scalar, b2: Scalar) -> (inside: bool)
    ensures
        inside == (zero <= b0 && zero <= b1 && zero <= b2),
{
    !(b0 < zero || b1 < zero || b2 < zero)
}

/// Returns the smallest box that holds the three corners of a triangle.
pub fn triangle_box(a: Point, b: Point, c: Point) -> (hull: Aabb)
    ensures
        is_hull(hull, seq![Aabb::of_point(a), Aabb::of_point(b), Aabb::of_point(c)]),
{
    let ba = Aabb { min: a, max: a };
    let bb = Aabb { min: b, max: b };
    let bc = Aabb { min: c, max: c };
    proof {
        lemma_hull_of_one(ba);
        lemma_hull_of_one(bb);
        lemma_hull_of_one(bc);
        lemma_hull_of_both(ba, seq![ba], bb, seq![bb]);
        lemma_hull_of_both(ba.union(bb), seq![ba] + seq![bb], bc, seq![bc]);
        assert(seq![ba] + seq![bb] + seq![bc] =~= seq![ba, bb, bc]);
    }
    let ab = Aabb::surrounding_box(&ba, &bb);
    Aabb::surrounding_box(&ab, &bc)
}

} // verus!
