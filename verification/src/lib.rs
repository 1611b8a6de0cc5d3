pub mod text;
pub mod ir;
pub mod names;
pub mod basic_block;
pub mod graph;
pub mod dataflow;
pub mod dominance;
pub mod ssa;
pub mod rename;
pub mod lvn;
pub mod dce;
pub mod dot;
pub mod licm;
