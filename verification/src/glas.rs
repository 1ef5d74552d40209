//! One gene per piece type, whose copies are placed in batches.

pub mod batches;
pub mod decoder;
pub mod dim_index;
pub mod ga;
pub mod glf_preplace;
pub mod heredity;
