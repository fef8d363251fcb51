//! Largest uniform scale factor for row-packed rectangles.
//!
//! A list of rectangles, given in a fixed order as positive scaled-integer
//! dimensions, is packed into horizontal rows inside a bounding box:
//! consecutive rectangles with the same base height share a row while their
//! joint scaled width still fits the box width, and otherwise a new row
//! starts. The crate decides, for a rational scale factor, whether the packed
//! layout fits the box, and finds the largest feasible scale factor exactly,
//! as a numerator over a fixed power-of-ten denominator.

pub mod decimal;
pub mod monotone;
pub mod packing;
pub mod search;
