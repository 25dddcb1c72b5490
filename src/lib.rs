//! A parser for a small markup dialect: elements written `<name>...</name>`
//! and runs of text between them, turned into an owned tree of nodes.

pub mod grammar;
pub mod parser;
pub mod text;
pub mod tree;
pub mod laws;
