//! Layout results that hold no coordinates of their own.
use vstd::prelude::*;

verus! {

/// An arrow of a git graph: its SVG path and the index of the branch
/// colour it is drawn in.
#[derive(Debug, Clone)]
pub struct GitGraphArrowLayout {
    pub path: String,
    pub color_index: usize,
}

} // verus!
