//! The render stage.

use vstd::prelude::*;

verus! {

/// Installs the systems that turn the render graph into GPU work.
#[derive(Clone, Copy, Debug, PartialEq, Eq, Structural, Hash)]
pub struct UiPassPlugin;

} // verus!
