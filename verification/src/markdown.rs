//! Markdown: the document tree, its parser, its renderers and link extraction.
pub mod ast;
pub mod commonmark;
pub mod custom;
pub mod frontmatter;
pub mod links;
pub mod parser;
pub mod render;
pub mod stream;
