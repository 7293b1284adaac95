//! Tensor-network diagrams from a small language: names, attribute values,
//! the network model with its style cascade, and the attribute registry.

pub mod ast;
pub mod attrs;
pub mod cascade;
pub mod error;
pub mod figure;
pub mod grammar;
pub mod graph;
pub mod lexer;
pub mod lower;
pub mod md5;
pub mod model;
pub mod name;
pub mod number;
pub mod order;
pub mod parser;
pub mod postscript;
pub mod print;
pub mod readback;
pub mod registry;
pub mod shading;
pub mod tex;
pub mod text;
pub mod tnvm;
pub mod value;
