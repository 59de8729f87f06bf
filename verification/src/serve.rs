//! Serving documents to readers and to agents.

pub mod answers;
pub mod blocks;
pub mod cache;
pub mod clients;
pub mod directory;
pub mod export;
pub mod http;
pub mod page;
pub mod pins;
pub mod report;
pub mod rewrite;
pub mod settings;
pub mod site;
pub mod snippet;
pub mod store;
pub mod upkeep;
