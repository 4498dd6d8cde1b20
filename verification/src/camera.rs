//! The choices of the camera of a pass and of its rendering.
//!
//! Every frame the camera of a pass is set anew: a pass that is hidden, not
//! displayed, outside any root, or whose visible region is empty gets an
//! inactive camera.  An active camera renders into a target whose bound box
//! is the whole view of the pass (for a root, or when a target is kept) or
//! just the viewport; a kept target whose size changed is dropped.  The
//! geometry itself (regions, bound boxes, matrices) is floating point and
//! is computed by the caller; the choices are made here.

use vstd::prelude::*;
use crate::render_target::{RenderTarget, TargetCache, AsImageLevel, checked_target, check_render_target};

verus! {

/// Which box the render target of a pass is given.
#[derive(Clone, Copy, Debug, PartialEq, Eq, Structural)]
pub enum BoundBox {
    /// The bound box is left as it was.
    Unchanged,
    /// The whole view box of the pass, rounded outwards.
    WholeView,
    /// The viewport of the camera.
    ViewPort,
}

/// The camera choices for a pass: whether the camera is active, its change
/// flag when it is set anew (`None`: left as it was), whether the local
/// dirty mark is consumed, and the bound box of the target.
#[derive(Clone, Copy, Debug, PartialEq, Eq, Structural)]
pub struct CameraStep {
    pub is_active: bool,
    pub is_change: Option<bool>,
    pub clear_dirty: bool,
    pub bound: BoundBox,
}

/// What the camera of a pass comes to, with the render target after it.
/// `shown`: visible and displayed; `has_root`: its root has a viewport;
/// `view_empty`: the visible region is empty; `size_changed`: the size of
/// a kept target differs from the view box.
pub open spec fn camera_after(
    rt: RenderTarget,
    as_image: Option<AsImageLevel>,
    weak_alive: bool,
    shown: bool,
    has_root: bool,
    view_empty: bool,
    is_root: bool,
    local_dirty: bool,
    size_changed: bool,
) -> (CameraStep, RenderTarget) {
    let idle = CameraStep { is_active: false, is_change: None, clear_dirty: true, bound: BoundBox::Unchanged };
    if !shown {
        (CameraStep { clear_dirty: false, ..idle }, rt)
    } else if !has_root {
        (idle, rt)
    } else {
        let rt1 = checked_target(rt, as_image, weak_alive);
        if view_empty {
            (idle, rt1)
        } else if rt1.target is None {
            (
                CameraStep {
                    is_active: true,
                    is_change: Some(true),
                    clear_dirty: true,
                    bound: if is_root { BoundBox::WholeView } else { BoundBox::ViewPort },
                },
                rt1,
            )
        } else if size_changed {
            (
                CameraStep { is_active: true, is_change: Some(true), clear_dirty: true, bound: BoundBox::WholeView },
                RenderTarget { target: None, cache: TargetCache::Empty },
            )
        } else {
            (
                CameraStep { is_active: true, is_change: Some(local_dirty), clear_dirty: true, bound: BoundBox::WholeView },
                rt1,
            )
        }
    }
}

/// Sets the camera choices of a pass and brings its render target in line.
pub fn calc_camera(
    render_target: &mut RenderTarget,
    as_image: Option<AsImageLevel>,
    weak_alive: bool,
    shown: bool,
    has_root: bool,
    view_empty: bool,
    is_root: bool,
    local_dirty: bool,
    size_changed: bool,
) -> (r: CameraStep)
    ensures
        (r, *final(render_target)) == camera_after(
            *old(render_target),
            as_image,
            weak_alive,
            shown,
            has_root,
            view_empty,
            is_root,
            local_dirty,
            size_changed,
        ),
{
    let idle = CameraStep { is_active: false, is_change: None, clear_dirty: true, bound: BoundBox::Unchanged };
    if !shown {
        return CameraStep { is_active: false, is_change: None, clear_dirty: false, bound: BoundBox::Unchanged };
    }
    if !has_root {
        return idle;
    }
    check_render_target(render_target, as_image, weak_alive);
    if view_empty {
        return idle;
    }
    if render_target.target.is_none() {
        let bound = if is_root {
            BoundBox::WholeView
        } else {
            BoundBox::ViewPort
        };
        return CameraStep { is_active: true, is_change: Some(true), clear_dirty: true, bound };
    }
    if size_changed {
        render_target.target = None;
        render_target.cache = TargetCache::Empty;
        return CameraStep { is_active: true, is_change: Some(true), clear_dirty: true, bound: BoundBox::WholeView };
    }
    CameraStep { is_active: true, is_change: Some(local_dirty), clear_dirty: true, bound: BoundBox::WholeView }
}

/// Where a pass renders in this frame.
#[derive(Clone, Copy, Debug, PartialEq, Eq, Structural)]
pub enum RenderChoice {
    /// Not at all.
    Skip,
    /// Straight to the screen.
    Screen,
    /// Into a render target to be found or allocated.
    Fbo,
    /// Nothing to draw: the pass hands on the target it already has.
    Existing,
}

/// Where a pass renders: a pass renders when its camera is active or it is a
/// root; with something to draw, a root without effect whose target type is
/// the screen draws to the screen and any other pass into a target; with
/// nothing to draw, the pass hands on the target it has.
pub open spec fn render_choice_of(
    is_active: bool,
    is_root: bool,
    has_effect: bool,
    to_screen: bool,
    has_draws: bool,
) -> RenderChoice {
    if !(is_active || is_root) {
        RenderChoice::Skip
    } else if has_draws {
        if is_root && !has_effect && to_screen {
            RenderChoice::Screen
        } else {
            RenderChoice::Fbo
        }
    } else {
        RenderChoice::Existing
    }
}

/// Chooses where a pass renders in this frame.
pub fn render_choice(is_active: bool, is_root: bool, has_effect: bool, to_screen: bool, has_draws: bool) -> (r:
    RenderChoice)
    ensures
        r == render_choice_of(is_active, is_root, has_effect, to_screen, has_draws),
{
    if !(is_active || is_root) {
        RenderChoice::Skip
    } else if has_draws {
        if is_root && !has_effect && to_screen {
            RenderChoice::Screen
        } else {
            RenderChoice::Fbo
        }
    } else {
        RenderChoice::Existing
    }
}

/// A hidden pass, or one without a root viewport, never has an active
/// camera, and the camera step leaves its render target untouched.
pub proof fn lemma_inactive_when_hidden(
    rt: RenderTarget,
    as_image: Option<AsImageLevel>,
    weak_alive: bool,
    shown: bool,
    has_root: bool,
    view_empty: bool,
    is_root: bool,
    local_dirty: bool,
    size_changed: bool,
)
    requires
        !shown || !has_root,
    ensures
        !camera_after(rt, as_image, weak_alive, shown, has_root, view_empty, is_root, local_dirty, size_changed).0.is_active,
        camera_after(rt, as_image, weak_alive, shown, has_root, view_empty, is_root, local_dirty, size_changed).1 == rt,
{
}

/// An active camera with a kept target of unchanged size is marked changed
/// exactly when the pass was locally dirty.
pub proof fn lemma_kept_target_changes_with_dirt(
    rt: RenderTarget,
    as_image: Option<AsImageLevel>,
    weak_alive: bool,
    is_root: bool,
    local_dirty: bool,
)
    requires
        checked_target(rt, as_image, weak_alive).target is Some,
    ensures
        camera_after(rt, as_image, weak_alive, true, true, false, is_root, local_dirty, false).0.is_change
            == Some(local_dirty),
{
}

} // verus!
