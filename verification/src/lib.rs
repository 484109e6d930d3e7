//! Vulcano: a generational arena, a circuit representation in linear SSA
//! form with its analyses, and a netlist builder.

pub mod analyzer;
pub mod arena;
pub mod circuit;
pub mod error;
pub mod gate;
pub mod builder;
pub mod dghv;
