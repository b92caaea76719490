//! Core of a hardware intermediate-representation compiler: an IR of ports,
//! cells, guarded assignments, groups and a hierarchical control program; a
//! dependency-graph analysis over ports; a fork/merge execution environment;
//! and an interpreter for the control program.

pub mod component;
pub mod errors;
pub mod passes;
pub mod strutil;
pub mod environment;
pub mod fixpoint;
pub mod graph;
pub mod interp;
pub mod ir;
