//! Guillotine sheet cutting: problem model, packers, decoders and exact search,
//! with their behaviour stated and proved.

pub mod bounds;
pub mod breeding;
pub mod crossover;
pub mod cut_tree;
pub mod cuts;
pub mod decoder;
pub mod exact;
pub mod expand;
pub mod ga;
pub mod generator;
pub mod glas;
pub mod gpf;
pub mod group_fill;
pub mod gslas;
pub mod guillotine;
pub mod heuristic;
pub mod islands;
pub mod laying;
pub mod layout;
pub mod model;
pub mod offcuts;
pub mod packing;
pub mod parse;
pub mod parse_compact;
pub mod reading;
pub mod render;
pub mod report;
pub mod rng;
pub mod runner;
pub mod runs;
pub mod score;
pub mod sheets;
pub mod slas;
pub mod small;
pub mod sorting;
pub mod specs;
pub mod spread;
pub mod text;
pub mod tiling;
pub mod transport;
pub mod turning;
