//! Renderers of the document tree: HTML, markdown source and plain text.
pub mod html;
pub mod markdown;
pub mod text;
