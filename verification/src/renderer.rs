//! What a renderer and the shapes it draws agree on.

use vstd::prelude::*;
use crate::vector::{points, Point, Vector2};

verus! {

/// Render an object
pub trait Render<S> {
    fn fill(&mut self, object: S);

    fn draw(&mut self, object: S);
}

/// The model of [`Triangles`].
pub enum Mesh {
    List(Seq<(Point, Point, Point)>),
    Indexed(Seq<Point>, Seq<u32>),
}

impl Mesh {
    /// Every triangle names corners that exist: an indexed mesh holds three
    /// indices for each triangle, each of them below the number of points.
    pub open spec fn closed(self) -> bool {
        match self {
            Mesh::List(_) => true,
            Mesh::Indexed(corners, indices) => {
                &&& indices.len() % 3 == 0
                &&& forall|i: int| 0 <= i < indices.len() ==> (#[trigger] indices[i]) < corners.len()
            },
        }
    }
}

/// Triangles that cover a shape.
#[derive(Debug)]
pub enum Triangles {
    /// An array of interleaved triangles
    TriangleList(Vec<(Vector2, Vector2, Vector2)>),
    /// An array of points with indices of interleaved triangles
    IndexedTriangles(Vec<Vector2>, Vec<u32>),
}

impl View for Triangles {
    type V = Mesh;

    open spec fn view(&self) -> Mesh {
        match *self {
            Triangles::TriangleList(list) => Mesh::List(
                Seq::new(list@.len(), |i: int| (list@[i].0@, list@[i].1@, list@[i].2@)),
            ),
            Triangles::IndexedTriangles(corners, indices) => Mesh::Indexed(points(corners@), indices@),
        }
    }
}

/// Anything that can be turned into triangles
pub trait Triangulate {
    /// The shape can be turned into triangles.
    spec fn meshable(&self) -> bool;

    /// The triangles that cover the shape.
    spec fn mesh(&self) -> Mesh;

    /// Says whether the shape can be turned into triangles.
    fn is_meshable(&self) -> (meshable: bool)
        ensures
            meshable == self.meshable(),
    ;

    fn get_triangles(&self) -> (triangles: Triangles)
        requires
            self.meshable(),
        ensures
            triangles@ == self.mesh(),
            triangles@.closed(),
    ;
}

} // verus!
