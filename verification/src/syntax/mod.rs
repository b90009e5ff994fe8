//! The lossless syntax layer: every byte of a recipe document is kept.

pub mod utf8_facts;

pub mod lexer;
pub mod tree;
pub mod edit;
pub mod text;
pub mod outline;
