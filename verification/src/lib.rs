//! Spatial index over national topographic survey points.
//!
//! Survey coordinates are planar and metric (D96/TM, EPSG:3794). The library
//! works on them in fixed point: every coordinate is a whole number of
//! hundredths of a metre, so all geometry is exact integer arithmetic.
//!
//! * [`Point`] and [`Area`] are the geometry: points with an optional
//!   payload, and squares given by center and radius, borders included.
//! * [`qtree::QuadTree`] indexes the points of one area. A leaf holds up to
//!   [`qtree::MAX_POINTS`] points; one point more and it is divided into
//!   four quarters that overlap by [`qtree::OVERLAP`], each point going to
//!   the first quarter, NW, NE, SW, SE, that holds it. A square of radius
//!   two or less has no smaller quarters: its leaf is never divided and
//!   takes any number of points. What a tree is at any time is told by
//!   its [`qtree::Shape`].
//! * [`data`] frames the binary point stream and makes points of the
//!   lines of survey text. The stream stores single-precision values; they
//!   are handed out as raw 32-bit patterns and not interpreted.

mod area;
mod closest;
mod node;
mod point;
mod region;
mod seq_facts;
mod shape;

pub mod data;
pub mod qtree;

pub use area::{
    highest_x, highest_y, lemma_extremes_bound, lemma_intersects_symmetric, lowest_x, lowest_y,
    square_covers, squares_meet, Area,
};
pub use point::Point;
