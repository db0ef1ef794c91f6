//! Coordinate algebra for hexagonal grids in the cube representation:
//! three integer axes q, r, s with q + r + s == 0.  The crate provides
//! the coordinate type with its arithmetic, neighbor and diagonal
//! enumeration, the hex distance metric, and four traversal generators
//! (line drawing, bounded range, ring, spiral), each as an explicit-state
//! iterator object, together with the two-axis boundary coordinate that
//! callers exchange with the library.
//!
//! A negative range or ring radius is rejected at the contract level:
//! every traversal constructor requires a non-negative argument, so no
//! silently empty or degenerate sequence is ever produced.  Coordinate
//! arithmetic is proved free of overflow under the stated preconditions;
//! line drawing additionally bounds each axis by `line::AXIS_LIMIT`, the
//! practical magnitude limit of its exact fixed-point interpolation.

pub mod cube;
pub mod hex;
pub mod line;
pub mod range;
pub mod ring;
pub mod spiral;
