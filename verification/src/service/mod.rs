//! The local HTTP service: its data shapes, command line, the checks it
//! makes on each connection and its RPC method table.

pub mod models;
pub mod options;
pub mod access;
pub mod rpc;
