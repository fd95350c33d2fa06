//! The canvas renderer for platforms without one.
use vstd::prelude::*;

verus! {

/// A renderer that draws nothing, for when no platform renderer is
/// compiled; the canvas keeps its background fill.
#[derive(Debug, Clone, Copy)]
pub struct NullCanvasRenderer;

impl NullCanvasRenderer {
    pub fn new() -> (r: NullCanvasRenderer) {
        NullCanvasRenderer
    }

    /// Taking a theme's CSS variables has no effect.
    pub fn set_theme(&mut self, _css_vars: &str)
        ensures
            *final(self) == *old(self),
    {
    }
}

} // verus!
