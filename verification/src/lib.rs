//! Planar geodetic geometry for transit routing.
//!
//! The crate models points on the Earth's surface (`Coord`), directed line
//! segments between them (`Segment`), and roads built from ordered segment
//! chains (`Road`).  Coordinates are held in fixed-point form: an `i64`
//! number of microdegrees of latitude or longitude.  At that resolution all
//! geometric predicates (containment, contiguity, intersection, projection)
//! are computed exactly in integer arithmetic, so each one is specified and
//! proved as an exact statement about the coordinates.  Lengths and
//! distances are planar, in microdegree units, rounded down to an integer;
//! conversion to great-circle kilometres is floating-point work and is left
//! to the surrounding application.

pub mod arith;
pub mod coord;
pub mod places;
pub mod providers;
pub mod road;
pub mod segment;
