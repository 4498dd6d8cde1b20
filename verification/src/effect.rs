//! Marking nodes as render contexts.
//!
//! Every effect property (opacity, blur, hsi, overflow, ...) owns one bit of a
//! node's [`RenderContextMark`].  The systems here set or clear that bit when
//! the property changes; a node whose mark has no bit left is no render
//! context any more.

use vstd::prelude::*;
use crate::mark::{RenderContextMark, MARK_BITS, any_bit, no_bits, opt_view};

verus! {

/// Sets bit `mark_type`; returns whether the mark changed (the bit was clear).
pub fn render_mark_true(mark_type: usize, render_mark_value: &mut RenderContextMark) -> (changed: bool)
    requires
        mark_type < MARK_BITS,
    ensures
        final(render_mark_value)@ == old(render_mark_value)@.update(mark_type as int, true),
        changed == !old(render_mark_value)@[mark_type as int],
{
    !render_mark_value.replace(mark_type, true)
}

/// Writing one bit of a mark changes no other bit, and writing it a second
/// time changes nothing: the second write reports no change.
pub proof fn lemma_mark_write_twice(m: Seq<bool>, mark_type: int, value: bool)
    requires
        0 <= mark_type < m.len(),
    ensures
        forall|i: int| 0 <= i < m.len() && i != mark_type ==> #[trigger] m.update(mark_type, value)[i] == m[i],
        m.update(mark_type, value)[mark_type] == value,
        m.update(mark_type, value).update(mark_type, value) == m.update(mark_type, value),
{
    assert(m.update(mark_type, value).update(mark_type, value) =~= m.update(mark_type, value));
}

/// Clears bit `mark_type`; returns whether the mark changed (the bit was set).
pub fn render_mark_false(mark_type: usize, render_mark_value: &mut RenderContextMark) -> (changed: bool)
    requires
        mark_type < MARK_BITS,
    ensures
        final(render_mark_value)@ == old(render_mark_value)@.update(mark_type as int, false),
        changed == old(render_mark_value)@[mark_type as int],
{
    render_mark_value.replace(mark_type, false)
}

/// The effect property of a node was removed: its bit is cleared, unless the
/// node holds the property again (`has_value`), in which case nothing happens.
/// Returns whether the mark changed.
pub fn context_attr_del(mark_type: usize, render_mark_value: &mut RenderContextMark, has_value: bool) -> (changed: bool)
    requires
        mark_type < MARK_BITS,
    ensures
        final(render_mark_value)@ == if has_value {
            old(render_mark_value)@
        } else {
            old(render_mark_value)@.update(mark_type as int, false)
        },
        changed == (!has_value && old(render_mark_value)@[mark_type as int]),
{
    if has_value {
        return false;
    }
    render_mark_false(mark_type, render_mark_value)
}

/// The effect property of a node changed: its bit is set when the new value
/// needs a render context (`need_mark`), cleared otherwise.  Returns whether
/// the mark changed.
pub fn pass_mark(mark_type: usize, need_mark: bool, render_mark_value: &mut RenderContextMark) -> (changed: bool)
    requires
        mark_type < MARK_BITS,
    ensures
        final(render_mark_value)@ == old(render_mark_value)@.update(mark_type as int, need_mark),
        changed == (old(render_mark_value)@[mark_type as int] != need_mark),
{
    if need_mark {
        render_mark_true(mark_type, render_mark_value)
    } else {
        render_mark_false(mark_type, render_mark_value)
    }
}

/// Opacity marks a render context only on a node that is no leaf: a leaf
/// carries its opacity in its own instance data.
pub fn opacity_pass_mark(mark_type: usize, need_mark: bool, is_leaf: bool, render_mark_value: &mut RenderContextMark) -> (changed: bool)
    requires
        mark_type < MARK_BITS,
    ensures
        final(render_mark_value)@ == old(render_mark_value)@.update(
            mark_type as int,
            !is_leaf && need_mark,
        ),
        changed == (old(render_mark_value)@[mark_type as int] != (!is_leaf && need_mark)),
{
    pass_mark(mark_type, !is_leaf && need_mark, render_mark_value)
}

/// The mark a node keeps after bit `mark_type` is set to `need_mark`, starting
/// from its current mark (or an empty one): `None` when no bit is left, the
/// mark component being removed then.
pub open spec fn mark_component_after(mark_type: int, need_mark: bool, current: Option<Seq<bool>>) -> Option<Seq<bool>> {
    let value = match current {
        Some(m) => m,
        None => no_bits(),
    }.update(mark_type, need_mark);
    if !need_mark && !any_bit(value) {
        None
    } else {
        Some(value)
    }
}

/// Sets bit `mark_type` of an optional mark component to `need_mark`; the
/// component is dropped when its last bit is cleared.
fn update_mark_component(mark_type: usize, need_mark: bool, current: Option<RenderContextMark>) -> (r: Option<RenderContextMark>)
    requires
        mark_type < MARK_BITS,
    ensures
        opt_view(r) == mark_component_after(mark_type as int, need_mark, opt_view(current)),
{
    let mut value = match current {
        Some(m) => m,
        None => RenderContextMark::new(),
    };
    if need_mark {
        value.set(mark_type, true);
    } else {
        value.set(mark_type, false);
        if value.not_any() {
            return None;
        }
    }
    Some(value)
}

/// The index of the opacity bit in render-context marks.
pub struct OpacityRenderContextMarkType(pub usize);

/// Marks nodes whose opacity is below one as render contexts.
pub struct CalcOpacity;

impl CalcOpacity {
    /// The opacity of a node was created, modified or deleted.
    /// `need_mark` is whether the node now holds an opacity below one;
    /// `current` is its mark component.  Returns the mark component the node
    /// keeps (`None`: removed).
    pub fn opacity_change(mark_type: &OpacityRenderContextMarkType, need_mark: bool, current: Option<RenderContextMark>) -> (r: Option<RenderContextMark>)
        requires
            mark_type.0 < MARK_BITS,
        ensures
            opt_view(r) == mark_component_after(mark_type.0 as int, need_mark, opt_view(current)),
    {
        update_mark_component(mark_type.0, need_mark, current)
    }
}

/// Marks nodes with a positive blur as render contexts.
pub struct CalcBlur;

impl CalcBlur {
    /// The blur of a node was created, modified or deleted.
    /// `need_mark` is whether the node now holds a blur above zero; `current`
    /// is its mark component.  Returns the mark component the node keeps
    /// (`None`: removed).
    pub fn blur_change(mark_type: usize, need_mark: bool, current: Option<RenderContextMark>) -> (r: Option<RenderContextMark>)
        requires
            mark_type < MARK_BITS,
        ensures
            opt_view(r) == mark_component_after(mark_type as int, need_mark, opt_view(current)),
    {
        update_mark_component(mark_type, need_mark, current)
    }
}

} // verus!
