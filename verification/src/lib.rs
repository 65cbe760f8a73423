//! Binary decision diagram circuits for word-level arithmetic, their
//! conversion into levelled "up-down" circuits, and source generation
//! for those circuits.

pub mod arithmetic;
pub mod bdd;
pub mod bits;
pub mod bitwise;
pub mod circuit;
pub mod codegen;
pub mod digraph;
pub mod comparitor;
pub mod extras;
pub mod graph;
pub mod pc_update;
pub mod names;
pub mod pplove;
pub mod shift;
pub mod updown;
