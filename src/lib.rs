//! A two-dimensional k-d tree that stores points tagged with payload values and
//! answers bounded k-nearest-neighbour queries, together with the selection and
//! bounded-retention helpers that its construction and queries are built on.
//! Beside it stand two small integer walks used for drawing: the points of a
//! Bresenham line and the subdivisions of a Sierpinski triangle.

pub mod construct;
pub mod drawing;
pub mod kdtree;
pub mod nearest;
pub mod point;
pub mod retention;
pub mod select;
pub mod sierpinski;
pub mod utils;
