//! Binary tiling layouts: a tree of panels in which any leaf can be split in
//! two along an axis, and any leaf can be closed, its parent split collapsing
//! onto the surviving sibling.
//!
//! Two representations are offered. `registry` keeps the panels in a flat map
//! keyed by stable identifiers, with an allocator that never reuses one.
//! `tree` keeps an owned recursive tree addressed by paths, closed through a
//! bottom-up collapse pass.
use vstd::prelude::*;

pub mod registry;
pub mod tree;

verus! {

/// Direction along which a split arranges its two children.
#[derive(Clone, Copy, Debug, PartialEq, Eq, Structural)]
pub enum Axis {
    /// Children side by side.
    Horizontal,
    /// Children stacked.
    Vertical,
}

} // verus!
