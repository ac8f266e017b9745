//! Poses of tracked devices, turned into rotations and positions in the
//! convention of a target application and into the messages that carry them.
//!
//! All numbers are single-precision and are held as bit patterns; their
//! arithmetic is that of IEEE 754, round to nearest with ties to even, stated
//! over integers and proved of the code that computes it.

pub mod binary32;
pub mod rounding;
pub mod product;
pub mod sum;
pub mod root;
pub mod transform;
pub mod osc;
pub mod tracking;
