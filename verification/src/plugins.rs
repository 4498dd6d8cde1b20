//! The plugins that install the systems of the renderer, one per feature.

use vstd::prelude::*;

verus! {

/// Installs the systems that compute the derived state of nodes.
#[derive(Clone, Copy, Debug, PartialEq, Eq, Structural, Hash)]
pub struct UiNodePlugin;

/// Installs the visibility systems.
#[derive(Clone, Copy, Debug, PartialEq, Eq, Structural, Hash)]
pub struct ShowPlugin;

/// Installs the two transition phases.
#[derive(Clone, Copy, Debug, PartialEq, Eq, Structural, Hash)]
pub struct TransitionPlugin;

/// Installs the pass systems: pass life, render lists, graph nodes.
#[derive(Clone, Copy, Debug, PartialEq, Eq, Structural, Hash)]
pub struct UiPassPlugin;

/// Installs rendering as image.
#[derive(Clone, Copy, Debug, PartialEq, Eq, Structural, Hash)]
pub struct UiAsImagePlugin;

/// Installs the blur effect.
#[derive(Clone, Copy, Debug, PartialEq, Eq, Structural, Hash)]
pub struct BlurPlugin;

/// Installs clip paths.
#[derive(Clone, Copy, Debug, PartialEq, Eq, Structural, Hash)]
pub struct UiClipPathPlugin;

/// Installs the hsi effect.
#[derive(Clone, Copy, Debug, PartialEq, Eq, Structural, Hash)]
pub struct HsiPlugin;

/// Installs mask images.
#[derive(Clone, Copy, Debug, PartialEq, Eq, Structural, Hash)]
pub struct UiMaskImagePlugin;

/// The render graph node that draws the linear gradients of mask images.
#[derive(Clone, Copy, Debug, PartialEq, Eq, Structural, Hash)]
pub struct LinearMaskNode;

/// Installs all post-process effects.
#[derive(Clone, Copy, Debug, PartialEq, Eq, Structural, Hash)]
pub struct UiEffectPlugin;

/// Installs the opacity effect.
#[derive(Clone, Copy, Debug, PartialEq, Eq, Structural, Hash)]
pub struct OpacityPlugin;

/// Installs the radial wave effect.
#[derive(Clone, Copy, Debug, PartialEq, Eq, Structural, Hash)]
pub struct RadialWavePlugin;

/// Installs transform will-change.
#[derive(Clone, Copy, Debug, PartialEq, Eq, Structural, Hash)]
pub struct TransformWillChangePlugin;

} // verus!
