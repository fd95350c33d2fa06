//! The editor model: commands over a note's source, the cursor, the parsed
//! document with source ranges, the block-editing session and its view.
pub mod command;
pub mod cursor;
pub mod doc;
pub mod view_model;
pub mod session;
