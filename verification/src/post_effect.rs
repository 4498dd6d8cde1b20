//! Post-process effects of passes.
//!
//! A pass keeps a mark of the post-process effects it applies, one bit per
//! effect (the bit layout of render-context marks).  Rendering a node as an
//! image needs a copy step, unless another effect already copies the pass.

use vstd::prelude::*;
use crate::mark::{RenderContextMark, MARK_BITS, any_bit};

verus! {

/// The post-process state of a pass that the as-image setting decides on:
/// its effect mark and whether it has a copy step.
pub struct PostProcessState {
    pub effect_mark: RenderContextMark,
    pub has_copy: bool,
}

/// The as-image setting of a node: whether its level is none, and whether
/// it has no post-process of its own (its post-process id is null).
#[derive(Clone, Copy, Debug, PartialEq, Eq, Structural)]
pub struct AsImageSetting {
    pub level_off: bool,
    pub post_process_null: bool,
}

/// The post-process state after an as-image change: the effect mark, the copy
/// step, and whether the change ended early because other effects already
/// render the pass apart (the copy step is then dropped).
pub open spec fn as_image_after(
    setting: AsImageSetting,
    mark: Seq<bool>,
    has_copy: bool,
    mark_type: int,
    overflow_type: int,
) -> (Seq<bool>, bool, bool) {
    if setting.level_off && setting.post_process_null {
        let m = mark.update(mark_type, false);
        (m, has_copy && m[overflow_type], false)
    } else if setting.post_process_null && has_copy && !mark[overflow_type] && any_bit(
        mark.update(mark_type, false),
    ) {
        (mark, false, true)
    } else if !has_copy {
        (mark.update(mark_type, true), true, false)
    } else {
        (mark, has_copy, false)
    }
}

/// Applies an as-image change to the post-process state of a pass.  With
/// the level none (and no post-process of its own), the as-image bit is
/// cleared and the copy step dropped unless an overflow needs it.  Else,
/// when other effects (and no overflow) already render the pass apart, the
/// copy step is dropped and `true` is returned: this change ends there.
/// Else a missing copy step is added with the as-image bit.
pub fn as_image_change(
    setting: AsImageSetting,
    post: &mut PostProcessState,
    mark_type: usize,
    overflow_type: usize,
) -> (ended: bool)
    requires
        mark_type < MARK_BITS,
        overflow_type < MARK_BITS,
    ensures
        (final(post).effect_mark@, final(post).has_copy, ended) == as_image_after(
            setting,
            old(post).effect_mark@,
            old(post).has_copy,
            mark_type as int,
            overflow_type as int,
        ),
{
    proof {
        post.effect_mark.lemma_len();
    }
    if setting.level_off && setting.post_process_null {
        post.effect_mark.set(mark_type, false);
        if post.has_copy && !post.effect_mark.get(overflow_type) {
            post.has_copy = false;
        }
        return false;
    }
    if setting.post_process_null && post.has_copy && !post.effect_mark.get(overflow_type) {
        let mut effect_mark = post.effect_mark.duplicate();
        effect_mark.set(mark_type, false);
        if effect_mark.any() {
            post.has_copy = false;
            return true;
        }
    }
    if !post.has_copy {
        post.effect_mark.set(mark_type, true);
        post.has_copy = true;
    }
    false
}

/// A node whose as-image setting changed or was added, with the
/// post-process state of its pass (`None`: the node has no pass).
pub struct AsImageNode {
    pub setting: AsImageSetting,
    pub post: Option<PostProcessState>,
}

/// The post-process state a node keeps, by view.
pub open spec fn post_view(p: Option<PostProcessState>) -> Option<(Seq<bool>, bool)> {
    match p {
        Some(s) => Some((s.effect_mark@, s.has_copy)),
        None => None,
    }
}

/// The as-image changes over the first `k` nodes: the post-process states,
/// by view.  Every changed node is applied in turn.
pub open spec fn as_image_fold(
    nodes: Seq<AsImageNode>,
    mark_type: int,
    overflow_type: int,
    k: int,
) -> Seq<Option<(Seq<bool>, bool)>>
    decreases k,
{
    if k <= 0 {
        nodes.map_values(|n: AsImageNode| post_view(n.post))
    } else {
        let states = as_image_fold(nodes, mark_type, overflow_type, k - 1);
        match states[k - 1] {
            Some((m, c)) => {
                let (m2, c2, _) = as_image_after(nodes[k - 1].setting, m, c, mark_type, overflow_type);
                states.update(k - 1, Some((m2, c2)))
            },
            None => states,
        }
    }
}

fn apply_as_image(node: &mut AsImageNode, mark_type: usize, overflow_type: usize)
    requires
        mark_type < MARK_BITS,
        overflow_type < MARK_BITS,
    ensures
        final(node).setting == old(node).setting,
        match post_view(old(node).post) {
            Some((m, c)) => {
                let (m2, c2, _) = as_image_after(old(node).setting, m, c, mark_type as int, overflow_type as int);
                post_view(final(node).post) == Some((m2, c2))
            },
            None => post_view(final(node).post) is None,
        },
{
    let setting = node.setting;
    match &mut node.post {
        Some(post) => {
            as_image_change(setting, post, mark_type, overflow_type);
        },
        None => {},
    }
}

/// Applies the as-image change of every node, in order; nothing runs while
/// the frame is held (`is_run`).
pub fn as_image_post_process(
    is_run: bool,
    nodes: &mut Vec<AsImageNode>,
    mark_type: usize,
    overflow_type: usize,
)
    requires
        mark_type < MARK_BITS,
        overflow_type < MARK_BITS,
    ensures
        final(nodes).len() == old(nodes).len(),
        forall|j: int| 0 <= j < old(nodes).len() ==> (#[trigger] final(nodes)@[j]).setting == old(nodes)@[j].setting,
        is_run ==> final(nodes)@.map_values(|n: AsImageNode| post_view(n.post)) == old(nodes)@.map_values(
            |n: AsImageNode| post_view(n.post),
        ),
        !is_run ==> final(nodes)@.map_values(|n: AsImageNode| post_view(n.post)) == as_image_fold(
            old(nodes)@,
            mark_type as int,
            overflow_type as int,
            old(nodes).len() as int,
        ),
{
    if is_run {
        return ;
    }
    let n = nodes.len();
    let mut k: usize = 0;
    while k < n
        invariant
            mark_type < MARK_BITS,
            overflow_type < MARK_BITS,
            n == nodes.len(),
            n == old(nodes).len(),
            k <= n,
            forall|j: int| 0 <= j < n ==> (#[trigger] nodes@[j]).setting == old(nodes)@[j].setting,
            nodes@.map_values(|n: AsImageNode| post_view(n.post)) == as_image_fold(
                old(nodes)@,
                mark_type as int,
                overflow_type as int,
                k as int,
            ),
        decreases n - k,
    {
        let ghost before = nodes@;
        apply_as_image(&mut nodes[k], mark_type, overflow_type);
        proof {
            let views = before.map_values(|n: AsImageNode| post_view(n.post));
            assert(views[k as int] == post_view(before[k as int].post));
            assert(nodes@.map_values(|n: AsImageNode| post_view(n.post)) =~= as_image_fold(
                old(nodes)@,
                mark_type as int,
                overflow_type as int,
                k + 1,
            ));
        }
        k = k + 1;
    }
}

/// What the opacity post-process of a pass undergoes.
#[derive(Clone, Copy, Debug, PartialEq, Eq, Structural)]
pub enum OpacityPostAction {
    Nothing,
    /// The opacity of the existing post-process draw object is updated.
    Modify(usize),
    /// A post-process draw object is created for the opacity.
    Create,
    /// The post-process draw object is removed.
    Remove(usize),
}

/// Computes the opacity post-process of render contexts.
#[derive(Clone, Copy, Debug, PartialEq, Eq, Structural, Hash)]
pub struct CalcOpacityPostProcess;

impl CalcOpacityPostProcess {
    /// The opacity of a node changed or was deleted.  `has_pass` is whether
    /// the node has a pass; `translucent` whether it holds an opacity below
    /// one; `existing` the draw object of the opacity post-process of its
    /// pass, if there is one.
    pub fn opacity_change(has_pass: bool, translucent: bool, existing: Option<usize>) -> (r: OpacityPostAction)
        ensures
            r == if !has_pass {
                OpacityPostAction::Nothing
            } else if translucent {
                match existing {
                    Some(k) => OpacityPostAction::Modify(k),
                    None => OpacityPostAction::Create,
                }
            } else {
                match existing {
                    Some(k) => OpacityPostAction::Remove(k),
                    None => OpacityPostAction::Nothing,
                }
            },
    {
        if !has_pass {
            return OpacityPostAction::Nothing;
        }
        match existing {
            Some(k) => if translucent {
                OpacityPostAction::Modify(k)
            } else {
                OpacityPostAction::Remove(k)
            },
            None => if translucent {
                OpacityPostAction::Create
            } else {
                OpacityPostAction::Nothing
            },
        }
    }
}

} // verus!
