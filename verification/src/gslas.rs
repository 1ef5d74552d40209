//! One gene per piece type, whose copies are placed in strips.

pub mod decoder;
pub mod rows;
