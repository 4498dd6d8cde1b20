//! Visibility inheritance.
//!
//! A node is displayed only when it and all its ancestors are displayed, and
//! visible only when it and all its ancestors are visible.  Its `enable`
//! (whether it takes events) follows its own setting, `Auto` meaning that of
//! its parent, and is off whenever the node is invisible.

use vstd::prelude::*;
use crate::pass_tree::{is_forest, reaches_top};

verus! {

/// The `enable` style of a node.
#[derive(PartialEq, Eq, Structural, Clone, Copy)]
pub enum Enable {
    /// Inherits the parent's enable.
    Auto,
    /// Takes no events (`none` in the style sheet).
    Disable,
    /// Takes events.
    Visible,
}

/// The show styles a node sets on itself.
#[derive(Clone, Copy)]
pub struct Show {
    /// `display` is `flex` (true) or `none` (false).
    pub display: bool,
    pub visibility: bool,
    pub enable: Enable,
}

/// The computed show state of a node.
#[derive(Clone, Copy)]
pub struct IsShow {
    pub visibility: bool,
    pub display: bool,
    pub enable: bool,
}

/// The computed state of a parent node, all-true when the node has no parent
/// node (none, or one outside the nodes).
pub open spec fn parent_state(parents: Seq<Option<usize>>, state: Seq<IsShow>, x: int) -> IsShow {
    match parents[x] {
        Some(p) => if p < state.len() {
            state[p as int]
        } else {
            IsShow { visibility: true, display: true, enable: true }
        },
        None => IsShow { visibility: true, display: true, enable: true },
    }
}

/// The state of node `x` computed from its styles and its parent's state.
pub open spec fn computed(show: Show, parent: IsShow) -> IsShow {
    let visibility = show.visibility && parent.visibility;
    let display = show.display && parent.display;
    let enable = visibility && match show.enable {
        Enable::Visible => true,
        Enable::Auto => parent.enable,
        Enable::Disable => false,
    };
    IsShow { visibility, display, enable }
}

/// The states after recomputing node `x` (nothing happens for an index
/// outside the nodes).
pub open spec fn show_step(parents: Seq<Option<usize>>, show: Seq<Show>, state: Seq<IsShow>, x: int) -> Seq<IsShow> {
    if 0 <= x < state.len() {
        state.update(x, computed(show[x], parent_state(parents, state, x)))
    } else {
        state
    }
}

/// The states after recomputing the nodes of `dirty` in order.
pub open spec fn show_fold(parents: Seq<Option<usize>>, show: Seq<Show>, state: Seq<IsShow>, dirty: Seq<usize>) -> Seq<IsShow>
    decreases dirty.len(),
{
    if dirty.len() == 0 {
        state
    } else {
        show_step(parents, show, show_fold(parents, show, state, dirty.drop_last()), dirty.last() as int)
    }
}

/// Whether recomputing the nodes of `dirty` in order changes the display
/// (`want_display`) or the visibility of some node at some step.
pub open spec fn show_changed(
    parents: Seq<Option<usize>>,
    show: Seq<Show>,
    state: Seq<IsShow>,
    dirty: Seq<usize>,
    want_display: bool,
) -> bool
    decreases dirty.len(),
{
    if dirty.len() == 0 {
        false
    } else {
        let before = show_fold(parents, show, state, dirty.drop_last());
        let x = dirty.last() as int;
        show_changed(parents, show, state, dirty.drop_last(), want_display) || (0 <= x < state.len() && if want_display {
            computed(show[x], parent_state(parents, before, x)).display != before[x].display
        } else {
            computed(show[x], parent_state(parents, before, x)).visibility != before[x].visibility
        })
    }
}

/// Recomputes the show state of the nodes of `dirty`, in order (parents are
/// listed before their children).  Returns whether some display and whether
/// some visibility changed.
pub fn calc_show(dirty: &Vec<usize>, parents: &Vec<Option<usize>>, show: &Vec<Show>, is_show: &mut Vec<IsShow>) -> (r: (bool, bool))
    requires
        parents.len() == old(is_show).len(),
        show.len() == old(is_show).len(),
    ensures
        final(is_show)@ == show_fold(parents@, show@, old(is_show)@, dirty@),
        r.0 == show_changed(parents@, show@, old(is_show)@, dirty@, true),
        r.1 == show_changed(parents@, show@, old(is_show)@, dirty@, false),
{
    let n = is_show.len();
    let mut display_change = false;
    let mut visibility_change = false;
    let mut i: usize = 0;
    while i < dirty.len()
        invariant
            n == is_show.len(),
            n == old(is_show).len(),
            parents.len() == n,
            show.len() == n,
            i <= dirty.len(),
            is_show@ == show_fold(parents@, show@, old(is_show)@, dirty@.take(i as int)),
            display_change == show_changed(parents@, show@, old(is_show)@, dirty@.take(i as int), true),
            visibility_change == show_changed(parents@, show@, old(is_show)@, dirty@.take(i as int), false),
        decreases dirty.len() - i,
    {
        let node = dirty[i];
        let ghost before = is_show@;
        proof {
            let d1 = dirty@.take(i + 1);
            assert(d1.drop_last() =~= dirty@.take(i as int));
            assert(d1.last() == node);
            assert(d1.len() > 0);
            assert(show_fold(parents@, show@, old(is_show)@, d1.drop_last()) == before);
            assert(show_changed(parents@, show@, old(is_show)@, d1, true) == (show_changed(parents@, show@, old(is_show)@, dirty@.take(i as int), true) || (node < n && computed(show@[node as int], parent_state(parents@, before, node as int)).display != before[node as int].display)));
            assert(show_changed(parents@, show@, old(is_show)@, d1, false) == (show_changed(parents@, show@, old(is_show)@, dirty@.take(i as int), false) || (node < n && computed(show@[node as int], parent_state(parents@, before, node as int)).visibility != before[node as int].visibility)));
        }
        if node < n {
            let (pv, pd, pe) = match parents[node] {
                Some(p) => if p < n {
                    (is_show[p].visibility, is_show[p].display, is_show[p].enable)
                } else {
                    (true, true, true)
                },
                None => (true, true, true),
            };
            let s = show[node];
            let c_visibility = s.visibility && pv;
            let c_display = s.display && pd;
            let c_enable = match s.enable {
                Enable::Visible => true,
                Enable::Auto => pe,
                Enable::Disable => false,
            };
            let c_enable = c_visibility && c_enable;
            let old_state = is_show[node];
            if c_display != old_state.display {
                display_change = true;
            }
            if c_visibility != old_state.visibility {
                visibility_change = true;
            }
            is_show.set(node, IsShow { visibility: c_visibility, display: c_display, enable: c_enable });
        }
        i = i + 1;
    }
    proof {
        assert(dirty@.take(dirty.len() as int) =~= dirty@);
    }
    (display_change, visibility_change)
}

} // verus!

verus! {

/// The state a node should have: its own styles combined with those of all
/// its ancestors.
pub open spec fn inherited(parents: Seq<Option<usize>>, show: Seq<Show>, x: int, fuel: nat) -> IsShow
    decreases fuel,
{
    let top = IsShow { visibility: true, display: true, enable: true };
    if fuel == 0 {
        top
    } else {
        computed(
            show[x],
            match parents[x] {
                Some(p) => if p < parents.len() {
                    inherited(parents, show, p as int, (fuel - 1) as nat)
                } else {
                    top
                },
                None => top,
            },
        )
    }
}

proof fn lemma_inherited_fuel(parents: Seq<Option<usize>>, show: Seq<Show>, x: int, f: nat, g: nat)
    requires
        0 <= x < parents.len(),
        reaches_top(parents, x, f),
        f <= g,
    ensures
        inherited(parents, show, x, f) == inherited(parents, show, x, g),
    decreases f,
{
    match parents[x] {
        None => {},
        Some(p) => {
            if p < parents.len() {
                lemma_inherited_fuel(parents, show, p as int, (f - 1) as nat, (g - 1) as nat);
            }
        },
    }
}

/// The recomputation keeps the number of nodes.
proof fn lemma_show_fold_len(parents: Seq<Option<usize>>, show: Seq<Show>, state: Seq<IsShow>, dirty: Seq<usize>)
    ensures
        show_fold(parents, show, state, dirty).len() == state.len(),
    decreases dirty.len(),
{
    if dirty.len() > 0 {
        lemma_show_fold_len(parents, show, state, dirty.drop_last());
    }
}

proof fn lemma_show_prefix(parents: Seq<Option<usize>>, show: Seq<Show>, state: Seq<IsShow>, dirty: Seq<usize>, k: int)
    requires
        parents.len() == show.len(),
        show.len() == state.len(),
        parents.len() <= usize::MAX,
        is_forest(parents),
        0 <= k <= dirty.len(),
        forall|a: int, b: int| 0 <= a < b < dirty.len() ==> dirty[a] != dirty[b],
        forall|a: int| 0 <= a < dirty.len() ==> dirty[a] < parents.len(),
        forall|x: usize| x < parents.len() ==> #[trigger] dirty.contains(x),
        forall|a: int, b: int|
            0 <= a < dirty.len() && 0 <= b < dirty.len() && parents[dirty[a] as int] == Some(dirty[b]) ==> b < a,
    ensures
        forall|a: int| 0 <= a < k ==> #[trigger] show_fold(parents, show, state, dirty.take(k))[dirty[a] as int]
            == inherited(parents, show, dirty[a] as int, parents.len() as nat),
    decreases k,
{
    let n = parents.len();
    if k > 0 {
        lemma_show_prefix(parents, show, state, dirty, k - 1);
        let prev = dirty.take(k - 1);
        let cur = dirty.take(k);
        assert(cur.drop_last() =~= prev);
        let before = show_fold(parents, show, state, prev);
        lemma_show_fold_len(parents, show, state, prev);
        let x = dirty[k - 1] as int;
        assert(cur.last() == dirty[k - 1]);
        assert(show_fold(parents, show, state, cur) == show_step(parents, show, before, x));
        assert(reaches_top(parents, x, n as nat));
        match parents[x] {
            Some(p) => {
                if p < n {
                    assert(dirty.contains(p));
                    let b = choose|b: int| 0 <= b < dirty.len() && dirty[b] == p;
                    assert(b < k - 1);
                    assert(before[p as int] == inherited(parents, show, p as int, n as nat));
                    lemma_inherited_fuel(parents, show, p as int, (n - 1) as nat, n as nat);
                }
            },
            None => {},
        }
        assert(show_fold(parents, show, state, cur)[x] == inherited(parents, show, x, n as nat));
    }
}

/// Visibility inheritance: once every node has been recomputed, in an order
/// that puts each parent before its children, the state of every node is its
/// own show styles combined with those of all its ancestors (a node is
/// displayed exactly when it and all its ancestors are, visible likewise,
/// and enabled as its `enable` chain and its visibility say).
pub proof fn lemma_show_inherited(parents: Seq<Option<usize>>, show: Seq<Show>, state: Seq<IsShow>, dirty: Seq<usize>)
    requires
        parents.len() == show.len(),
        show.len() == state.len(),
        parents.len() <= usize::MAX,
        is_forest(parents),
        forall|a: int, b: int| 0 <= a < b < dirty.len() ==> dirty[a] != dirty[b],
        forall|a: int| 0 <= a < dirty.len() ==> dirty[a] < parents.len(),
        forall|x: usize| x < parents.len() ==> #[trigger] dirty.contains(x),
        forall|a: int, b: int|
            0 <= a < dirty.len() && 0 <= b < dirty.len() && parents[dirty[a] as int] == Some(dirty[b]) ==> b < a,
    ensures
        forall|x: int| 0 <= x < parents.len() ==> #[trigger] show_fold(parents, show, state, dirty)[x]
            == inherited(parents, show, x, parents.len() as nat),
{
    lemma_show_prefix(parents, show, state, dirty, dirty.len() as int);
    assert(dirty.take(dirty.len() as int) =~= dirty);
    assert forall|x: int| 0 <= x < parents.len() implies #[trigger] show_fold(parents, show, state, dirty)[x]
        == inherited(parents, show, x, parents.len() as nat) by {
        assert(dirty.contains(x as usize));
        let a = choose|a: int| 0 <= a < dirty.len() && dirty[a] == x as usize;
        assert(show_fold(parents, show, state, dirty.take(dirty.len() as int))[dirty[a] as int] == inherited(parents, show, dirty[a] as int, parents.len() as nat));
    }
}

/// Recomputing a node: it is visible when it and its parent are, displayed
/// when it and its parent are, and takes events only while visible: always
/// when its own enable is `Visible` (whatever its parent does), like its
/// parent when it is `Auto`, never when it is `Disable`.  No other node
/// changes.
pub proof fn lemma_show_step_rules(parents: Seq<Option<usize>>, show: Seq<Show>, state: Seq<IsShow>, x: int)
    requires
        0 <= x < state.len(),
    ensures
        ({
            let r = show_step(parents, show, state, x)[x];
            let p = parent_state(parents, state, x);
            &&& r.visibility == (show[x].visibility && p.visibility)
            &&& r.display == (show[x].display && p.display)
            &&& r.enable ==> r.visibility
            &&& show[x].enable == Enable::Visible ==> r.enable == r.visibility
            &&& show[x].enable == Enable::Auto ==> r.enable == (r.visibility && p.enable)
            &&& show[x].enable == Enable::Disable ==> !r.enable
        }),
        forall|y: int| 0 <= y < state.len() && y != x ==> #[trigger] show_step(parents, show, state, x)[y] == state[y],
        show_step(parents, show, state, x).len() == state.len(),
{
}

/// The null instance start.
pub const NULL_INSTANCE: usize = usize::MAX;

/// The drawing of a node whose show state changed: its show state, the
/// instance ranges (start, length) of its draw objects, and the start of its
/// own instance, if it has one (`NULL_INSTANCE` when unset).
pub struct ShowNode {
    pub is_show: IsShow,
    pub draw_ranges: Vec<(usize, usize)>,
    pub own_instance: Option<usize>,
}

/// The render type of an instance that is shown: the not-visible flag
/// `bit` cleared.
pub open spec fn shown_ty(ty: u32, bit: u32) -> u32 {
    ty & !(1u32 << bit)
}

/// The offset of the `k`-th instance of a range.
pub open spec fn instance_offset(start: usize, alignment: usize, k: int) -> int {
    start + k * alignment
}

/// Whether offset `o` starts one of the instances of the range (`start`,
/// `len`): the range holds `len / alignment` instances, `alignment` apart.
pub open spec fn in_range(range: (usize, usize), alignment: usize, o: int) -> bool {
    exists|k: int| 0 <= k < range.1 / alignment && o == #[trigger] instance_offset(range.0, alignment, k)
}

/// Whether the show data of `node` touches offset `o`: one of its draw
/// ranges holds an instance there, or (when `own` is set) its own instance
/// starts there.
pub open spec fn node_touches(node: ShowNode, alignment: usize, o: int, own: bool) -> bool {
    ||| exists|r: int| 0 <= r < node.draw_ranges@.len() && in_range(#[trigger] node.draw_ranges@[r], alignment, o)
    ||| (own && node.own_instance is Some && node.own_instance->0 == o)
}

/// A node counts as visible here when it is visible or displayed.
pub open spec fn shows(node: ShowNode) -> bool {
    node.is_show.visibility || node.is_show.display
}

/// The position of the first node from `j` on whose own instance start is
/// null, or the number of nodes.
pub open spec fn first_null_instance(nodes: Seq<ShowNode>, j: int) -> int
    decreases nodes.len() - j,
{
    if j < 0 || j >= nodes.len() {
        nodes.len() as int
    } else if nodes[j].own_instance == Some(NULL_INSTANCE) {
        j
    } else {
        first_null_instance(nodes, j + 1)
    }
}

/// Whether the processing of node `j` touches offset `o`; a node with a null
/// instance start stops the processing before its own instance.
pub open spec fn processed_touches(nodes: Seq<ShowNode>, alignment: usize, o: int, j: int) -> bool {
    node_touches(nodes[j], alignment, o, j < first_null_instance(nodes, 0))
}

/// The last of the first `i` nodes whose processing touches offset `o`
/// (only nodes up to the first with a null instance start are processed),
/// or -1.
pub open spec fn last_touch(nodes: Seq<ShowNode>, alignment: usize, o: int, i: int) -> int
    decreases i,
{
    if i <= 0 {
        -1
    } else if i - 1 <= first_null_instance(nodes, 0) && processed_touches(nodes, alignment, o, i - 1) {
        i - 1
    } else {
        last_touch(nodes, alignment, o, i - 1)
    }
}

/// The render type of an instance that is hidden: the not-visible flag
/// `bit` set.
pub open spec fn hidden_ty(ty: u32, bit: u32) -> u32 {
    ty | (1u32 << bit)
}

/// The render type of an instance after its visibility is written.
pub open spec fn show_ty(ty: u32, visibility: bool, bit: u32) -> u32 {
    if visibility {
        shown_ty(ty, bit)
    } else {
        hidden_ty(ty, bit)
    }
}

/// The render type at offset `o` after the first `i` nodes are processed:
/// the visibility of the last node that touched it, written into `ty`.
pub open spec fn ty_after(nodes: Seq<ShowNode>, alignment: usize, o: int, i: int, ty: u32, bit: u32) -> u32 {
    let j = last_touch(nodes, alignment, o, i);
    if j < 0 {
        ty
    } else {
        show_ty(ty, shows(nodes[j]), bit)
    }
}

proof fn lemma_show_ty(ty: u32, a: bool, b: bool, bit: u32)
    requires
        bit < 32,
    ensures
        show_ty(show_ty(ty, a, bit), b, bit) == show_ty(ty, b, bit),
        ((ty & (1u32 << bit)) == 0) == a ==> show_ty(ty, a, bit) == ty,
{
    assert(((ty & !(1u32 << bit)) & !(1u32 << bit)) == (ty & !(1u32 << bit))) by (bit_vector);
    assert(((ty | (1u32 << bit)) & !(1u32 << bit)) == (ty & !(1u32 << bit))) by (bit_vector);
    assert(((ty & !(1u32 << bit)) | (1u32 << bit)) == (ty | (1u32 << bit))) by (bit_vector);
    assert(((ty | (1u32 << bit)) | (1u32 << bit)) == (ty | (1u32 << bit))) by (bit_vector);
    assert((ty & (1u32 << bit)) == 0 ==> (ty & !(1u32 << bit)) == ty) by (bit_vector);
    assert((ty & (1u32 << bit)) != 0 ==> (ty | (1u32 << bit)) == ty) by (bit_vector)
        requires
            bit < 32,
    ;
}

/// Writes the visibility of one instance: the not-visible flag is cleared
/// for a visible instance and set for a hidden one; the render type is only
/// written when the flag differs.
fn set_instance_show(tys: &mut Vec<u32>, offset: usize, visibility: bool, bit: u32)
    requires
        offset < old(tys).len(),
        bit < 32,
    ensures
        final(tys)@ == old(tys)@.update(offset as int, show_ty(old(tys)@[offset as int], visibility, bit)),
{
    let ty = tys[offset];
    let old_visibility = (ty & (1u32 << bit)) == 0;
    proof {
        lemma_show_ty(ty, visibility, visibility, bit);
    }
    if old_visibility != visibility {
        let new_ty = if visibility {
            ty & !(1u32 << bit)
        } else {
            ty | (1u32 << bit)
        };
        tys.set(offset, new_ty);
    } else {
        assert(tys@ =~= old(tys)@.update(offset as int, show_ty(ty, visibility, bit)));
    }
}

proof fn lemma_range_step(start: usize, len: usize, alignment: usize, k: int)
    requires
        alignment > 0,
        0 <= k < len / alignment,
    ensures
        instance_offset(start, alignment, k) + alignment <= start + len,
        instance_offset(start, alignment, k + 1) == instance_offset(start, alignment, k) + alignment,
{
    let c = len / alignment;
    assert(c * alignment <= len) by (nonlinear_arith)
        requires
            alignment > 0,
            c == len / alignment,
    ;
    assert((k + 1) * alignment <= c * alignment) by (nonlinear_arith)
        requires
            k + 1 <= c,
            alignment > 0,
    ;
    assert((k + 1) * alignment == k * alignment + alignment) by (nonlinear_arith);
}

fn set_range_show(tys: &mut Vec<u32>, range: (usize, usize), alignment: usize, visibility: bool, bit: u32)
    requires
        range.0 + range.1 <= old(tys).len(),
        alignment > 0,
        bit < 32,
    ensures
        final(tys).len() == old(tys).len(),
        forall|o: int|
            0 <= o < final(tys).len() ==> #[trigger] final(tys)@[o] == if in_range(range, alignment, o) {
                show_ty(old(tys)@[o], visibility, bit)
            } else {
                old(tys)@[o]
            },
{
    let ghost t0 = tys@;
    let count = range.1 / alignment;
    let mut offset: usize = range.0;
    let mut k: usize = 0;
    proof {
        if count > 0 {
            lemma_range_step(range.0, range.1, alignment, 0);
        }
    }
    while k < count
        invariant
            range.0 + range.1 <= t0.len(),
            tys.len() == t0.len(),
            alignment > 0,
            bit < 32,
            count == range.1 / alignment,
            k <= count,
            offset == instance_offset(range.0, alignment, k as int),
            k < count ==> offset + alignment <= range.0 + range.1,
            forall|o: int|
                0 <= o < tys.len() ==> #[trigger] tys@[o] == if exists|j: int|
                    0 <= j < k && o == #[trigger] instance_offset(range.0, alignment, j) {
                    show_ty(t0[o], visibility, bit)
                } else {
                    t0[o]
                },
        decreases count - k,
    {
        proof {
            lemma_range_step(range.0, range.1, alignment, k as int);
        }
        let ghost before = tys@;
        set_instance_show(tys, offset, visibility, bit);
        proof {
            assert forall|o: int| 0 <= o < tys.len() implies #[trigger] tys@[o] == if exists|j: int|
                0 <= j < k + 1 && o == #[trigger] instance_offset(range.0, alignment, j) {
                show_ty(t0[o], visibility, bit)
            } else {
                t0[o]
            } by {
                if o == offset {
                    assert(o == instance_offset(range.0, alignment, k as int));
                    if exists|j: int| 0 <= j < k && o == #[trigger] instance_offset(range.0, alignment, j) {
                        let j = choose|j: int| 0 <= j < k && o == #[trigger] instance_offset(range.0, alignment, j);
                        let kk = k as int;
                        assert(j * alignment < kk * alignment) by (nonlinear_arith)
                            requires
                                j < kk,
                                alignment > 0,
                        ;
                        assert(false);
                    }
                } else {
                    if exists|j: int| 0 <= j < k + 1 && o == #[trigger] instance_offset(range.0, alignment, j) {
                        let j = choose|j: int| 0 <= j < k + 1 && o == #[trigger] instance_offset(range.0, alignment, j);
                        assert(j != k);
                    }
                }
            }
        }
        k = k + 1;
        if k < count {
            proof {
                lemma_range_step(range.0, range.1, alignment, k as int);
            }
        }
        offset = offset + alignment;
    }
}

fn set_node_show(tys: &mut Vec<u32>, node: &ShowNode, alignment: usize, bit: u32, own: bool)
    requires
        alignment > 0,
        bit < 32,
        forall|r: int|
            0 <= r < node.draw_ranges@.len() ==> #[trigger] node.draw_ranges@[r].0 + node.draw_ranges@[r].1
                <= old(tys).len(),
        own && node.own_instance is Some ==> node.own_instance->0 < old(tys).len(),
    ensures
        final(tys).len() == old(tys).len(),
        forall|o: int|
            0 <= o < final(tys).len() ==> #[trigger] final(tys)@[o] == if node_touches(*node, alignment, o, own) {
                show_ty(old(tys)@[o], shows(*node), bit)
            } else {
                old(tys)@[o]
            },
{
    let visibility = node.is_show.visibility || node.is_show.display;
    let ghost t0 = tys@;
    let mut r: usize = 0;
    while r < node.draw_ranges.len()
        invariant
            alignment > 0,
            bit < 32,
            forall|q: int|
                0 <= q < node.draw_ranges@.len() ==> #[trigger] node.draw_ranges@[q].0 + node.draw_ranges@[q].1
                    <= t0.len(),
            visibility == shows(*node),
            tys.len() == t0.len(),
            r <= node.draw_ranges.len(),
            forall|o: int|
                0 <= o < tys.len() ==> #[trigger] tys@[o] == if exists|q: int|
                    0 <= q < r && in_range(#[trigger] node.draw_ranges@[q], alignment, o) {
                    show_ty(t0[o], visibility, bit)
                } else {
                    t0[o]
                },
        decreases node.draw_ranges.len() - r,
    {
        let range = node.draw_ranges[r];
        set_range_show(tys, range, alignment, visibility, bit);
        proof {
            assert forall|o: int| 0 <= o < tys.len() implies #[trigger] tys@[o] == if exists|q: int|
                0 <= q < r + 1 && in_range(#[trigger] node.draw_ranges@[q], alignment, o) {
                show_ty(t0[o], visibility, bit)
            } else {
                t0[o]
            } by {
                lemma_show_ty(t0[o], visibility, visibility, bit);
                if in_range(range, alignment, o) {
                    assert(node.draw_ranges@[r as int] == range);
                }
            }
        }
        r = r + 1;
    }
    if own {
        match node.own_instance {
            Some(s) => {
                set_instance_show(tys, s, visibility, bit);
                proof {
                    lemma_show_ty(t0[s as int], visibility, visibility, bit);
                }
            },
            None => {},
        }
    }
}

proof fn lemma_first_null_instance(nodes: Seq<ShowNode>, i: int, j: int)
    requires
        0 <= i <= j <= nodes.len(),
        forall|k: int| i <= k < j ==> nodes[k].own_instance != Some(NULL_INSTANCE),
    ensures
        first_null_instance(nodes, i) == first_null_instance(nodes, j),
    decreases j - i,
{
    if i < j {
        lemma_first_null_instance(nodes, i + 1, j);
    }
}

proof fn lemma_first_null_instance_ge(nodes: Seq<ShowNode>, j: int)
    requires
        0 <= j <= nodes.len(),
    ensures
        j <= first_null_instance(nodes, j) <= nodes.len(),
    decreases nodes.len() - j,
{
    if j < nodes.len() {
        lemma_first_null_instance_ge(nodes, j + 1);
    }
}

proof fn lemma_last_touch_past(nodes: Seq<ShowNode>, alignment: usize, o: int, i: int)
    requires
        first_null_instance(nodes, 0) < i,
    ensures
        last_touch(nodes, alignment, o, i) == last_touch(nodes, alignment, o, first_null_instance(nodes, 0) + 1),
    decreases i,
{
    lemma_first_null_instance_ge(nodes, 0);
    if i > first_null_instance(nodes, 0) + 1 {
        lemma_last_touch_past(nodes, alignment, o, i - 1);
    }
}

proof fn lemma_last_touch_range(nodes: Seq<ShowNode>, alignment: usize, o: int, i: int)
    requires
        0 <= i,
    ensures
        -1 <= last_touch(nodes, alignment, o, i) < i,
        last_touch(nodes, alignment, o, i) >= 0 ==> last_touch(nodes, alignment, o, i) <= first_null_instance(nodes, 0)
            && processed_touches(nodes, alignment, o, last_touch(nodes, alignment, o, i)),
    decreases i,
{
    if i > 0 {
        lemma_last_touch_range(nodes, alignment, o, i - 1);
    }
}

/// Writes the show state of the nodes whose show state changed into the
/// render types of their instances (`tys`, by instance offset): a node that
/// is visible or displayed clears the not-visible flag `bit` of every
/// instance of its draw objects and of its own instance; any other node sets
/// it.  Where several nodes touch one instance, the last one decides.  The
/// processing stops at the first node whose own instance start is null,
/// after its draw objects.  Nothing happens while the layout is held
/// (`is_run`) or when no visibility or display event came (`events == 0`).
pub fn set_show_data(
    is_run: bool,
    events: usize,
    nodes: &Vec<ShowNode>,
    tys: &mut Vec<u32>,
    alignment: usize,
    bit: u32,
)
    requires
        alignment > 0,
        bit < 32,
        forall|j: int, r: int|
            0 <= j < nodes.len() && 0 <= r < nodes@[j].draw_ranges@.len() ==> #[trigger] nodes@[j].draw_ranges@[r].0
                + nodes@[j].draw_ranges@[r].1 <= old(tys).len(),
        forall|j: int|
            0 <= j < nodes.len() && #[trigger] nodes@[j].own_instance is Some ==> nodes@[j].own_instance->0
                == NULL_INSTANCE || nodes@[j].own_instance->0 < old(tys).len(),
    ensures
        final(tys).len() == old(tys).len(),
        is_run || events == 0 ==> final(tys)@ == old(tys)@,
        !(is_run || events == 0) ==> forall|o: int|
            0 <= o < final(tys).len() ==> #[trigger] final(tys)@[o] == ty_after(
                nodes@,
                alignment,
                o,
                nodes.len() as int,
                old(tys)@[o],
                bit,
            ),
{
    if is_run || events == 0 {
        return ;
    }
    let ghost t0 = tys@;
    let ghost stop = first_null_instance(nodes@, 0);
    let mut j: usize = 0;
    while j < nodes.len()
        invariant_except_break
            forall|o: int|
                0 <= o < tys.len() ==> #[trigger] tys@[o] == ty_after(nodes@, alignment, o, j as int, t0[o], bit),
        invariant
            alignment > 0,
            bit < 32,
            forall|j: int, r: int|
                0 <= j < nodes.len() && 0 <= r < nodes@[j].draw_ranges@.len() ==> #[trigger] nodes@[j].draw_ranges@[r].0
                    + nodes@[j].draw_ranges@[r].1 <= t0.len(),
            forall|j: int|
                0 <= j < nodes.len() && #[trigger] nodes@[j].own_instance is Some ==> nodes@[j].own_instance->0
                    == NULL_INSTANCE || nodes@[j].own_instance->0 < t0.len(),
            stop == first_null_instance(nodes@, 0),
            tys.len() == t0.len(),
            j <= nodes.len(),
            forall|k: int| 0 <= k < j ==> nodes@[k].own_instance != Some(NULL_INSTANCE),
        ensures
            tys.len() == t0.len(),
            forall|o: int|
                0 <= o < tys.len() ==> #[trigger] tys@[o] == ty_after(
                    nodes@,
                    alignment,
                    o,
                    nodes.len() as int,
                    t0[o],
                    bit,
                ),
        decreases nodes.len() - j,
    {
        proof {
            lemma_first_null_instance(nodes@, 0, j as int);
            lemma_first_null_instance_ge(nodes@, j as int);
            lemma_first_null_instance_ge(nodes@, j + 1);
        }
        let node = &nodes[j];
        let own = match node.own_instance {
            Some(s) => s != NULL_INSTANCE,
            None => true,
        };
        let ghost before = tys@;
        set_node_show(tys, node, alignment, bit, own);
        proof {
            assert(own == (j < stop));
            assert(j <= stop);
            assert forall|o: int| 0 <= o < tys.len() implies #[trigger] tys@[o] == ty_after(
                nodes@,
                alignment,
                o,
                j + 1,
                t0[o],
                bit,
            ) by {
                assert(before[o] == ty_after(nodes@, alignment, o, j as int, t0[o], bit));
                lemma_last_touch_range(nodes@, alignment, o, j as int);
                if node_touches(*node, alignment, o, own) {
                    assert(processed_touches(nodes@, alignment, o, j as int));
                    assert(last_touch(nodes@, alignment, o, j + 1) == j);
                    let l = last_touch(nodes@, alignment, o, j as int);
                    if l >= 0 {
                        lemma_show_ty(t0[o], shows(nodes@[l]), shows(*node), bit);
                    }
                } else {
                    assert(!processed_touches(nodes@, alignment, o, j as int));
                    assert(last_touch(nodes@, alignment, o, j + 1) == last_touch(nodes@, alignment, o, j as int));
                }
            }
        }
        if !own {
            proof {
                assert forall|o: int| 0 <= o < tys.len() implies ty_after(
                    nodes@,
                    alignment,
                    o,
                    nodes.len() as int,
                    t0[o],
                    bit,
                ) == ty_after(nodes@, alignment, o, j + 1, t0[o], bit) by {
                    lemma_last_touch_past(nodes@, alignment, o, nodes.len() as int);
                    lemma_last_touch_past(nodes@, alignment, o, j + 1);
                }
            }
            break;
        }
        j = j + 1;
    }
}

} // verus!
