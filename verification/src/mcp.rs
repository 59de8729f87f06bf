//! The tools agents work on documents with.

pub mod answers;
pub mod calls;
pub mod hub;
pub mod rpc;
pub mod schema;
pub mod tools;
