//! Culinator: a recipe-authoring toolkit. This crate holds the verified core:
//! the lossless recipe syntax (lexer, concrete tree, outline, text edits),
//! UTF-16 offsets for editors, scheduling and validation of recipe
//! operation graphs, secret storage, and the small parsing and decision
//! helpers that the service and import tools rely on.

pub mod syntax;
pub mod ui;
pub mod model;
pub mod schedule;
pub mod application;
pub mod validate;
pub mod nutrition;
pub mod service;
pub mod storage;
pub mod secrets;
pub mod semantic;
