//! Use cases: the checks the application applies before it hands work to a
//! repository, parser or validator.

pub mod error;
pub mod models;
pub mod services;
