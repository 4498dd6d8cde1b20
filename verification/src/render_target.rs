//! Caching of the render target of a pass rendered as an image.
//!
//! A pass may keep the target it rendered into: strongly, so that it
//! survives, or weakly, so that it survives only while someone else holds it.
//! The as-image level of the node decides: none drops the cache (a target is
//! allocated at render time), advise keeps a weak reference, force keeps a
//! strong one.  Targets are named by asset ids.

use vstd::prelude::*;

verus! {

/// The cached render target of a pass.
#[derive(Clone, Copy, Debug, PartialEq, Eq, Structural)]
pub enum TargetCache {
    /// No cache: the target is allocated at render time.
    Empty,
    /// A strong reference to the target.
    Strong(usize),
    /// A weak reference to the target.
    Weak(usize),
}

/// How much a node asks for its rendering to be kept as an image.
#[derive(Clone, Copy, Debug, PartialEq, Eq, Structural)]
pub enum AsImageLevel {
    /// Not at all.
    Off,
    /// Keep it while it is alive anyway.
    Advise,
    /// Keep it.
    Force,
}

/// The render target of a pass: the target to render into in this frame
/// (`None` until one is chosen), and the cache.
#[derive(Clone, Copy, Debug, PartialEq, Eq, Structural)]
pub struct RenderTarget {
    pub target: Option<usize>,
    pub cache: TargetCache,
}

/// The render target after `check_render_target`, given whether the weakly cached
/// target is still alive.
pub open spec fn checked_target(rt: RenderTarget, as_image: Option<AsImageLevel>, weak_alive: bool) -> RenderTarget {
    match as_image {
        Some(AsImageLevel::Advise) => match rt.cache {
            TargetCache::Empty => rt,
            TargetCache::Strong(r) => RenderTarget { target: Some(r), cache: TargetCache::Weak(r) },
            TargetCache::Weak(r) => if weak_alive {
                RenderTarget { target: Some(r), ..rt }
            } else {
                RenderTarget { cache: TargetCache::Empty, ..rt }
            },
        },
        Some(AsImageLevel::Force) => match rt.cache {
            TargetCache::Empty => rt,
            TargetCache::Strong(r) => RenderTarget { target: Some(r), ..rt },
            TargetCache::Weak(r) => if weak_alive {
                RenderTarget { target: Some(r), cache: TargetCache::Strong(r) }
            } else {
                RenderTarget { cache: TargetCache::Empty, ..rt }
            },
        },
        _ => RenderTarget { cache: TargetCache::Empty, ..rt },
    }
}

/// Brings the cached render target of a pass in line with the as-image
/// level of its node.  `weak_alive` is whether a weakly cached target could
/// still be reached (it is consulted only for a weak cache).
pub fn check_render_target(render_target: &mut RenderTarget, as_image: Option<AsImageLevel>, weak_alive: bool)
    ensures
        *final(render_target) == checked_target(*old(render_target), as_image, weak_alive),
{
    match as_image {
        Some(AsImageLevel::Advise) => match render_target.cache {
            TargetCache::Empty => {},
            TargetCache::Strong(r) => {
                render_target.target = Some(r);
                render_target.cache = TargetCache::Weak(r);
            },
            TargetCache::Weak(r) => {
                if weak_alive {
                    render_target.target = Some(r);
                } else {
                    render_target.cache = TargetCache::Empty;
                }
            },
        },
        Some(AsImageLevel::Force) => match render_target.cache {
            TargetCache::Empty => {},
            TargetCache::Strong(r) => {
                render_target.target = Some(r);
            },
            TargetCache::Weak(r) => {
                if weak_alive {
                    render_target.target = Some(r);
                    render_target.cache = TargetCache::Strong(r);
                } else {
                    render_target.cache = TargetCache::Empty;
                }
            },
        },
        _ => {
            render_target.cache = TargetCache::Empty;
        },
    }
}

/// How a freshly allocated target is kept.
#[derive(Clone, Copy, Debug, PartialEq, Eq, Structural)]
pub enum CacheKind {
    /// Not kept: used for this frame only.
    Uncached,
    /// Kept weakly (as-image advise).
    Weak,
    /// Kept strongly (as-image force).
    Strong,
}

/// Where a pass that renders into a target of its own gets it.
#[derive(Clone, Copy, Debug, PartialEq, Eq, Structural)]
pub enum TargetPlan {
    /// No target: the pass is drawn into its parent's target.
    NoTarget,
    /// The target the pass already has.
    Existing,
    /// A fresh target, kept as said.
    Allocate(CacheKind),
}

/// The plan for the target of a pass.  Only a pass that must have a target
/// (`force`, as a root) or has a post-process effect gets one: the target it
/// has, or a fresh one of `width` by `height` pixels.  No target is given
/// for an empty size, nor, when rendering as image is only advised and is
/// the pass's only effect, when the cache would grow past `max_cache` bytes
/// (four bytes a pixel on top of `cache_size`).  A fresh target is kept
/// weakly under advise, strongly under force, and not at all otherwise.
pub open spec fn target_plan(
    force: bool,
    has_effect: bool,
    has_target: bool,
    width: u32,
    height: u32,
    as_image: Option<AsImageLevel>,
    only_as_image: bool,
    cache_size: u32,
    max_cache: u32,
) -> TargetPlan {
    let level = match as_image {
        Some(l) => l,
        None => AsImageLevel::Off,
    };
    if !(force || has_effect) {
        TargetPlan::NoTarget
    } else if has_target {
        TargetPlan::Existing
    } else if width == 0 || height == 0 {
        TargetPlan::NoTarget
    } else if level == AsImageLevel::Advise && only_as_image && cache_size + width * height * 4 > max_cache {
        TargetPlan::NoTarget
    } else {
        TargetPlan::Allocate(
            match level {
                AsImageLevel::Off => CacheKind::Uncached,
                AsImageLevel::Advise => CacheKind::Weak,
                AsImageLevel::Force => CacheKind::Strong,
            },
        )
    }
}

impl RenderTarget {
    /// Decides where the pass gets its target (see [`target_plan`]); the
    /// allocation itself is the caller's.  The size in bytes of the cache
    /// with the new target must fit in a `u32`, as the byte count is kept
    /// in one.
    pub fn get_or_create(
        &self,
        force: bool,
        has_effect: bool,
        width: u32,
        height: u32,
        as_image: Option<AsImageLevel>,
        only_as_image: bool,
        cache_size: u32,
        max_cache: u32,
    ) -> (r: TargetPlan)
        requires
            cache_size + width * height * 4 <= u32::MAX,
        ensures
            r == target_plan(
                force,
                has_effect,
                self.target is Some,
                width,
                height,
                as_image,
                only_as_image,
                cache_size,
                max_cache,
            ),
    {
        if !(force || has_effect) {
            return TargetPlan::NoTarget;
        }
        if self.target.is_some() {
            return TargetPlan::Existing;
        }
        if width == 0 || height == 0 {
            return TargetPlan::NoTarget;
        }
        let level = match as_image {
            Some(l) => l,
            None => AsImageLevel::Off,
        };
        assert(0 <= width * height <= width * height * 4) by (nonlinear_arith);
        let bytes = width * height * 4;
        let overflow = cache_size + bytes > max_cache;
        match level {
            AsImageLevel::Off => TargetPlan::Allocate(CacheKind::Uncached),
            AsImageLevel::Advise => if only_as_image && overflow {
                TargetPlan::NoTarget
            } else {
                TargetPlan::Allocate(CacheKind::Weak)
            },
            AsImageLevel::Force => TargetPlan::Allocate(CacheKind::Strong),
        }
    }
}

/// A pass that keeps a cached target after the check renders into it: the
/// cached target becomes its target.  Under advise or force a live cached
/// target stays cached (weakly under advise, strongly under force); a dead
/// weak one is dropped; without an as-image level above none nothing is
/// cached.
pub proof fn lemma_cached_target_used(rt: RenderTarget, as_image: Option<AsImageLevel>, weak_alive: bool, r: usize)
    ensures
        ({
            let c = checked_target(rt, as_image, weak_alive);
            &&& c.cache == TargetCache::Strong(r) ==> c.target == Some(r)
            &&& c.cache == TargetCache::Weak(r) ==> c.target == Some(r)
        }),
        as_image == Some(AsImageLevel::Advise) && rt.cache == TargetCache::Weak(r) && weak_alive ==> checked_target(
            rt,
            as_image,
            weak_alive,
        ) == (RenderTarget { target: Some(r), cache: TargetCache::Weak(r) }),
        as_image == Some(AsImageLevel::Advise) && rt.cache == TargetCache::Strong(r) ==> checked_target(
            rt,
            as_image,
            weak_alive,
        ) == (RenderTarget { target: Some(r), cache: TargetCache::Weak(r) }),
        as_image == Some(AsImageLevel::Force) && rt.cache == TargetCache::Weak(r) && weak_alive ==> checked_target(
            rt,
            as_image,
            weak_alive,
        ) == (RenderTarget { target: Some(r), cache: TargetCache::Strong(r) }),
        as_image == Some(AsImageLevel::Force) && rt.cache == TargetCache::Strong(r) ==> checked_target(
            rt,
            as_image,
            weak_alive,
        ) == (RenderTarget { target: Some(r), cache: TargetCache::Strong(r) }),
        rt.cache is Weak && !weak_alive ==> checked_target(rt, as_image, weak_alive).cache == TargetCache::Empty,
{
}

/// Advising keeps a strongly cached target weakly, and forcing while that
/// target is alive turns the cache strong again; either way the pass renders
/// into that target.
pub proof fn lemma_advise_then_force(rt: RenderTarget, r: usize)
    requires
        rt.cache == TargetCache::Strong(r),
    ensures
        checked_target(checked_target(rt, Some(AsImageLevel::Advise), true), Some(AsImageLevel::Force), true)
            == (RenderTarget { target: Some(r), cache: TargetCache::Strong(r) }),
        checked_target(rt, Some(AsImageLevel::Advise), true).target == Some(r),
{
}

/// Without an as-image level above none, no target is cached.
pub proof fn lemma_off_drops_cache(rt: RenderTarget, as_image: Option<AsImageLevel>, weak_alive: bool)
    requires
        as_image is None || as_image == Some(AsImageLevel::Off),
    ensures
        checked_target(rt, as_image, weak_alive).cache == TargetCache::Empty,
        checked_target(rt, as_image, weak_alive).target == rt.target,
{
}

/// A cache is never created: a pass without a cached target keeps none.
pub proof fn lemma_empty_stays(rt: RenderTarget, as_image: Option<AsImageLevel>, weak_alive: bool)
    requires
        rt.cache == TargetCache::Empty,
    ensures
        checked_target(rt, as_image, weak_alive) == rt,
{
}

} // verus!
