//! Previewing a document for an editor.

pub mod anchors;
pub mod click;
pub mod edit;
pub mod http;
pub mod layout;
pub mod marks;
pub mod open;
pub mod overlay;
pub mod patch;
pub mod pins;
pub mod sidecar;
pub mod start;
pub mod words;
