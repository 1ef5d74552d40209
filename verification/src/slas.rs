//! One gene per piece, free rectangles split along the shorter leftover.

pub mod decoder;
pub mod encoder;
pub mod ga;
pub mod heredity;
