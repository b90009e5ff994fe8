//! The editor's view of a document: offsets a JavaScript caller can use, and
//! the outline projected onto them.

pub mod offsets;
pub mod outline;
pub mod model;
