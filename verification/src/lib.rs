//! Penumbra: a spatial notes library with a markdown model, an editor model
//! and the supporting text utilities, verified with Verus.
pub mod autolink;
pub mod canvas;
pub mod editor;
pub mod embed;
pub mod error;
pub mod graph;
pub mod layout;
pub mod markdown;
pub mod notes;
pub mod search;
pub mod storage;
pub mod sync;
pub mod text;
pub mod theme;
pub mod universe;
pub mod vault;
