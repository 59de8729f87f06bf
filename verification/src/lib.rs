//! Serving Typst documents to a browser and to agents.

pub mod text;
pub mod num;
pub mod bytes;
pub mod scan;
pub mod ranges;
pub mod preview;
pub mod letters;
pub mod clock;
pub mod labels;
pub mod syntax;
pub mod paths;
pub mod order;
pub mod json;
pub mod digest;
pub mod assets;
pub mod mcp;
pub mod registry;
pub mod render;
pub mod webapp;
pub mod serve;
