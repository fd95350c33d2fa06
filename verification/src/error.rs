//! The library's error type.
use vstd::prelude::*;

verus! {

/// Errors raised across the library. Each variant carries a message.
#[derive(Debug)]
pub enum PenumbraError {
    NoteNotFound(String),
    Graph(String),
    Layout(String),
    Embedding(String),
    Search(String),
    Storage(String),
    Sync(String),
    Markdown(String),
    Serialization(String),
    Io(String),
}

} // verus!
