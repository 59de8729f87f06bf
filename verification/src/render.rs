//! A document as HTML, with every element labelled with where in the source it
//! came from.

pub mod document;
pub mod drawing;
pub mod html;
pub mod map;
pub mod markup;
pub mod shims;
