//! Labels of the systems that compute the derived state of nodes, one per
//! stage; a scheduler orders the systems by them.

use vstd::prelude::*;

verus! {

/// Builds the draw objects of background colors.
#[derive(Clone, Copy, Debug, PartialEq, Eq, Structural, Hash)]
pub struct CalcBackGroundColor;

/// Builds the draw objects of background images.
#[derive(Clone, Copy, Debug, PartialEq, Eq, Structural, Hash)]
pub struct CalcBackgroundImage;

/// Builds the draw objects of box shadows.
#[derive(Clone, Copy, Debug, PartialEq, Eq, Structural, Hash)]
pub struct CalcBoxShadow;

/// Builds the draw objects of canvases.
#[derive(Clone, Copy, Debug, PartialEq, Eq, Structural, Hash)]
pub struct CalcCanvas;

/// Computes the content boxes of nodes.
#[derive(Clone, Copy, Debug, PartialEq, Eq, Structural, Hash)]
pub struct CalcContentBox;

/// Computes the render context each node draws into.
#[derive(Clone, Copy, Debug, PartialEq, Eq, Structural, Hash)]
pub struct CalcContext;

/// Computes the render target of root nodes.
#[derive(Clone, Copy, Debug, PartialEq, Eq, Structural, Hash)]
pub struct CalcRoot;

/// Swaps in the user commands of the frame.
#[derive(Clone, Copy, Debug, PartialEq, Eq, Structural, Hash)]
pub struct CalcFlush;

/// Computes the layout.
#[derive(Clone, Copy, Debug, PartialEq, Eq, Structural, Hash)]
pub struct CalcLayout;

/// Computes the quads (bounding boxes) of nodes.
#[derive(Clone, Copy, Debug, PartialEq, Eq, Structural, Hash)]
pub struct CalcQuad;

/// Computes the glyphs of text.
#[derive(Clone, Copy, Debug, PartialEq, Eq, Structural, Hash)]
pub struct CalcTextGlyph;

/// Computes the world matrices of nodes.
#[derive(Clone, Copy, Debug, PartialEq, Eq, Structural, Hash)]
pub struct CalcMatrix;

/// Computes the dirty rectangles of passes.
#[derive(Clone, Copy, Debug, PartialEq, Eq, Structural, Hash)]
pub struct CalcDirtyRect;

} // verus!
