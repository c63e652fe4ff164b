//! The shapes: rectangles along the axes, circles and convex hulls.

pub mod circle;
pub mod convex_hull;
pub mod rectangle;

use vstd::prelude::*;
use crate::collision::Collide;
use crate::renderer::Triangulate;
use crate::vector::{Point, Vector2};

verus! {

/// A shape that can be moved, drawn and tested for collisions.
pub trait Shape: Triangulate + Collide {
    /// Moving the shape by `amount` keeps it within the limits.
    spec fn movable(&self, amount: Point) -> bool;

    /// `self` is `before` moved by `amount`.
    spec fn moved_from(&self, before: &Self, amount: Point) -> bool;

    /// The shape has a center.
    spec fn centerable(&self) -> bool;

    /// The center of the shape.
    spec fn center_point(&self) -> Point;

    /// Says whether the shape can be moved by `amount`.
    fn is_movable(&self, amount: Vector2) -> (movable: bool)
        ensures
            movable == self.movable(amount@),
    ;

    /// Says whether the shape has a center.
    fn is_centerable(&self) -> (centerable: bool)
        ensures
            centerable == self.centerable(),
    ;

    /// Translates the shape
    fn translate(&mut self, amount: Vector2)
        requires
            old(self).valid(),
            old(self).movable(amount@),
        ensures
            final(self).valid(),
            final(self).moved_from(old(self), amount@),
    ;

    /// Returns the center of the shape
    fn center(&self) -> (c: Vector2)
        requires
            self.valid(),
            self.centerable(),
        ensures
            c@ == self.center_point(),
    ;

    /// Moving a shape moves its farthest points and its bounding box along.
    proof fn lemma_moved(&self, before: &Self, amount: Point, axis: Point)
        requires
            before.valid(),
            before.solid(),
            self.moved_from(before, amount),
        ensures
            self.solid(),
            self.farthest_point(axis) == before.farthest_point(axis).plus(amount),
            self.bounding_box() == before.bounding_box().shifted(amount),
    ;
}

} // verus!
