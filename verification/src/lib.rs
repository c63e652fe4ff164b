//! Narrow-phase collision detection for convex shapes of the plane.
//!
//! Coordinates are fixed-point numbers held in an `i64`: one unit of length is
//! [`UNIT`] steps of a grid.  Sums, differences, dot products and their signs
//! are exact.  Where a length is measured or laid out along a direction it is
//! rounded toward zero to a whole step, and the contracts say so.
//!
//! [`intersect`] says whether two convex shapes overlap, and [`overlap`] by
//! what vector.  Both look at a shape only through [`Collide`]: the point of
//! the shape farthest along a direction, and its bounding box.

pub mod collision;
pub mod numeric;
pub mod renderer;
pub mod shapes;
pub mod vector;

pub use collision::epa::{Resolution, TOLERANCE};
pub use collision::gjk::Search;
pub use collision::{intersect, overlap, resolve, AsCollide, Collide};
pub use renderer::{Render, Triangles, Triangulate};
pub use shapes::circle::Circle;
pub use shapes::convex_hull::ConvexHull;
pub use shapes::rectangle::Rectangle;
pub use shapes::Shape;
pub use vector::{Point, Vector2, COORD_LIMIT, UNIT};
