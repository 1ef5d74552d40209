//! Exact solution by branch and price.

pub mod assembly;
pub mod bpc;
pub mod budget;
pub mod candidates;
pub mod chain;
pub mod coverage;
pub mod duality;
pub mod fitting;
pub mod oracle;
pub mod pricing;
pub mod rounding;
pub mod rounds;
pub mod search;
pub mod selection;
