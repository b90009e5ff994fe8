//! Critical-path scheduling of a recipe's operations.

pub mod parts;
pub mod rounds;
pub mod critical;
pub mod plan;
