//! Creating and removing passes as render-context marks change.
//!
//! A node whose mark has some bit set owns a pass; the node's `in_pass_id`
//! (the pass its draw objects render into) is then the node itself, and
//! otherwise the `in_pass_id` of its parent node.

use vstd::prelude::*;
use crate::pass_tree::{is_forest, reaches_top};
use crate::mark::{RenderContextMark, any_bit, and_bits, or_bits, no_bits, opt_view};

verus! {

/// Whether a node whose mark changed has to be revisited: it owns a pass
/// (`has_camera`) but its mark is now empty, or it owns none but its mark
/// has some bit set.
pub fn cal_context_mark_dirty(mark: &RenderContextMark, has_camera: bool) -> (r: bool)
    ensures
        r == ((has_camera && !any_bit(mark@)) || (!has_camera && any_bit(mark@))),
{
    if has_camera && mark.not_any() {
        true
    } else if !has_camera && mark.any() {
        true
    } else {
        false
    }
}

/// What happens to the pass of a revisited node.
pub enum PassLife {
    /// The node no longer is a render context: its pass is removed.
    Remove,
    /// The node becomes a render context: a pass is created under
    /// `parent_pass_id`, its post-process effect bits being `effect_mark`.
    Create { parent_pass_id: Option<usize>, effect_mark: RenderContextMark },
    /// The node keeps its pass, now under `parent_pass_id` (`parent_changed`
    /// tells whether that moved); `post_effect_mark` is the pass's new effect bits,
    /// when it has post-process information.
    Keep { parent_pass_id: Option<usize>, parent_changed: bool, post_effect_mark: Option<RenderContextMark> },
    /// The node neither owns nor gets a pass.
    NotPass,
}

/// The new state of a revisited node.
pub struct ContextChange {
    /// The pass the node's draw objects render into.
    pub in_pass_id: Option<usize>,
    /// What happens to the node's own pass.
    pub life: PassLife,
}

/// The bits of an optional borrowed mark.
pub open spec fn opt_ref_view(o: Option<&RenderContextMark>) -> Option<Seq<bool>> {
    match o {
        Some(m) => Some(m@),
        None => None,
    }
}

/// What revisiting node `node` gives (its mark `mark`, the parent of the
/// pass it owns `parent_pass_id`, the effect bits `post` of that pass, the
/// pass `parent_context_id` its parent node renders into, the effect bits
/// `effect`): a node with an empty mark that owned a pass loses it; a node
/// with a mark renders into its own pass, created under the parent's
/// context with the effect bits of its mark, or kept and moved there with
/// its post-process bits restricted to its mark and joined with them; any
/// other node renders into its parent's context.
pub open spec fn change_ok(
    node: usize,
    mark: Seq<bool>,
    parent_pass_id: Option<Option<usize>>,
    post: Option<Seq<bool>>,
    parent_context_id: Option<usize>,
    effect: Seq<bool>,
    r: ContextChange,
) -> bool {
    &&& parent_pass_id is Some && !any_bit(mark) ==> r.in_pass_id == parent_context_id && r.life is Remove
    &&& any_bit(mark) ==> r.in_pass_id == Some(node)
    &&& any_bit(mark) && parent_pass_id is None ==> (r.life matches PassLife::Create { parent_pass_id: p, effect_mark: e }
        && p == parent_context_id && e@ == or_bits(no_bits(), and_bits(effect, mark)))
    &&& any_bit(mark) && parent_pass_id is Some ==> (r.life matches PassLife::Keep { parent_pass_id: p, parent_changed: c, post_effect_mark: e }
        && p == parent_context_id && c == (parent_pass_id->0 != parent_context_id)
        && (post is None ==> e is None)
        && (post matches Some(info) ==> (e matches Some(m)
            && m@ == or_bits(and_bits(info, mark), and_bits(effect, mark)))))
    &&& parent_pass_id is None && !any_bit(mark) ==> r.in_pass_id == parent_context_id && r.life is NotPass
}

/// Revisits node `node`.
///
/// `mark` is its render-context mark, `parent_pass_id` the parent of the pass
/// it owns (`None` when it owns no pass), `post_effect_mark` the effect bits
/// of that pass's post-process information, `parent_context_id` the
/// `in_pass_id` of the parent node and `effect_mark` the bits of the marks
/// that are post-process effects.
pub fn cal_context_node(
    node: usize,
    mark: &RenderContextMark,
    parent_pass_id: Option<Option<usize>>,
    post_effect_mark: Option<&RenderContextMark>,
    parent_context_id: Option<usize>,
    effect_mark: &RenderContextMark,
) -> (r: ContextChange)
    ensures
        change_ok(node, mark@, parent_pass_id, opt_ref_view(post_effect_mark), parent_context_id, effect_mark@, r),
{
    if parent_pass_id.is_some() && mark.not_any() {
        ContextChange { in_pass_id: parent_context_id, life: PassLife::Remove }
    } else if mark.any() {
        let effect = effect_mark.and(mark);
        let life = match parent_pass_id {
            None => PassLife::Create { parent_pass_id: parent_context_id, effect_mark: RenderContextMark::new().or(&effect) },
            Some(old_parent) => {
                let parent_changed = old_parent != parent_context_id;
                let e = match post_effect_mark {
                    Some(info) => Some(info.and(mark).or(&effect)),
                    None => None,
                };
                PassLife::Keep { parent_pass_id: parent_context_id, parent_changed, post_effect_mark: e }
            },
        };
        ContextChange { in_pass_id: Some(node), life }
    } else {
        ContextChange { in_pass_id: parent_context_id, life: PassLife::NotPass }
    }
}

/// The render flags of the instance that draws a pass into its parent: the
/// `uv` and premultiplied (`premulti`) flags are set, and for a pass that is
/// no root the `fbo` flag too.
pub fn pass_instance_flags(ty: u32, is_root: bool, uv: u32, premulti: u32, fbo: u32) -> (r: u32)
    requires
        uv < 32,
        premulti < 32,
        fbo < 32,
    ensures
        r == if is_root {
            ty | (1u32 << uv) | (1u32 << premulti)
        } else {
            ty | (1u32 << uv) | (1u32 << premulti) | (1u32 << fbo)
        },
{
    let mut flags = ty;
    flags = flags | (1u32 << uv);
    flags = flags | (1u32 << premulti);
    if !is_root {
        flags = flags | (1u32 << fbo);
    }
    flags
}

/// The pass that node `x` renders into, after it was revisited with mark
/// `mark` while its parent node renders into `parent_context_id`.
pub open spec fn in_pass_after(x: int, mark: Seq<bool>, parent_context_id: Option<usize>) -> Option<usize> {
    if any_bit(mark) {
        Some(x as usize)
    } else {
        parent_context_id
    }
}

/// The pass the parent node of `x` renders into (none without a parent
/// node).
pub open spec fn parent_context(parents: Seq<Option<usize>>, in_pass: Seq<Option<usize>>, x: int) -> Option<usize> {
    match parents[x] {
        Some(p) => if p < in_pass.len() {
            in_pass[p as int]
        } else {
            None
        },
        None => None,
    }
}

/// The passes the nodes render into after revisiting the nodes of
/// `dirty`, in order (nodes outside the nodes are passed over).
pub open spec fn context_fold(
    parents: Seq<Option<usize>>,
    marks: Seq<Seq<bool>>,
    in_pass: Seq<Option<usize>>,
    dirty: Seq<usize>,
) -> Seq<Option<usize>>
    decreases dirty.len(),
{
    if dirty.len() == 0 {
        in_pass
    } else {
        let before = context_fold(parents, marks, in_pass, dirty.drop_last());
        let x = dirty.last() as int;
        if 0 <= x < before.len() {
            before.update(x, in_pass_after(x, marks[x], parent_context(parents, before, x)))
        } else {
            before
        }
    }
}

/// Revisits the nodes of `dirty` in order (parents before children, as by
/// layer): each node takes its pass from its mark and from the pass its
/// parent node renders into, as updated so far.  `marks[x]` is the mark of
/// node `x`, `pass_parents[x]` the parent of the pass it owns (`None`: it
/// owns none) and `post_marks[x]` the effect bits of that pass.  Returns the
/// change of every revisited node.
pub fn cal_context(
    dirty: &Vec<usize>,
    parents: &Vec<Option<usize>>,
    in_pass: &mut Vec<Option<usize>>,
    marks: &Vec<RenderContextMark>,
    pass_parents: &Vec<Option<Option<usize>>>,
    post_marks: &Vec<Option<RenderContextMark>>,
    effect_mark: &RenderContextMark,
) -> (changes: Vec<(usize, ContextChange)>)
    requires
        parents.len() == old(in_pass).len(),
        marks.len() == old(in_pass).len(),
        pass_parents.len() == old(in_pass).len(),
        post_marks.len() == old(in_pass).len(),
    ensures
        final(in_pass)@ == context_fold(parents@, marks@.map_values(|m: RenderContextMark| m@), old(in_pass)@, dirty@),
        forall|k: int|
            0 <= k < changes.len() ==> {
                let i = (#[trigger] changes@[k]).0 as int;
                let x = dirty@[i];
                let before = context_fold(
                    parents@,
                    marks@.map_values(|m: RenderContextMark| m@),
                    old(in_pass)@,
                    dirty@.take(i),
                );
                &&& 0 <= i < dirty.len()
                &&& x < old(in_pass).len()
                &&& change_ok(
                    x,
                    marks@[x as int]@,
                    pass_parents@[x as int],
                    opt_view(post_marks@[x as int]),
                    parent_context(parents@, before, x as int),
                    effect_mark@,
                    changes@[k].1,
                )
            },
        forall|i: int| 0 <= i < dirty.len() && dirty@[i] < old(in_pass).len() ==> exists|k: int| 0 <= k < changes.len() && #[trigger] changes@[k].0 == i,
        forall|a: int, b: int| 0 <= a < b < changes.len() ==> #[trigger] changes@[a].0 < #[trigger] changes@[b].0,
{
    let n = in_pass.len();
    let ghost mv = marks@.map_values(|m: RenderContextMark| m@);
    let mut changes: Vec<(usize, ContextChange)> = Vec::new();
    let mut i: usize = 0;
    while i < dirty.len()
        invariant
            n == in_pass.len(),
            parents.len() == n,
            marks.len() == n,
            pass_parents.len() == n,
            post_marks.len() == n,
            mv == marks@.map_values(|m: RenderContextMark| m@),
            i <= dirty.len(),
            in_pass@ == context_fold(parents@, mv, old(in_pass)@, dirty@.take(i as int)),
            forall|k: int|
                0 <= k < changes.len() ==> {
                    let j = (#[trigger] changes@[k]).0 as int;
                    let x = dirty@[j];
                    &&& 0 <= j < i
                    &&& x < n
                    &&& change_ok(
                        x,
                        marks@[x as int]@,
                        pass_parents@[x as int],
                        opt_view(post_marks@[x as int]),
                        parent_context(parents@, context_fold(parents@, mv, old(in_pass)@, dirty@.take(j)), x as int),
                        effect_mark@,
                        changes@[k].1,
                    )
                },
            forall|j: int| 0 <= j < i && dirty@[j] < n ==> exists|k: int| 0 <= k < changes.len() && #[trigger] changes@[k].0 == j,
            forall|a: int, b: int| 0 <= a < b < changes.len() ==> #[trigger] changes@[a].0 < #[trigger] changes@[b].0,
        decreases dirty.len() - i,
    {
        let x = dirty[i];
        let ghost changes_before = changes@;
        proof {
            let t = dirty@.take(i + 1);
            assert(t.drop_last() == dirty@.take(i as int));
            assert(t.last() == x);
        }
        if x < n {
            let parent_context_id = match parents[x] {
                Some(p) => if p < n {
                    in_pass[p]
                } else {
                    None
                },
                None => None,
            };
            let post = match &post_marks[x] {
                Some(m) => Some(m),
                None => None,
            };
            let change = cal_context_node(x, &marks[x], pass_parents[x], post, parent_context_id, effect_mark);
            proof {
                assert(mv[x as int] == marks@[x as int]@);
            }
            in_pass.set(x, change.in_pass_id);
            changes.push((i, change));
            proof {
                assert(changes@[changes.len() - 1].0 == i);
                assert forall|a: int, b: int| 0 <= a < b < changes.len() implies #[trigger] changes@[a].0
                    < #[trigger] changes@[b].0 by {
                    assert(changes@[a] == changes_before[a]);
                    if b < changes.len() - 1 {
                        assert(changes@[b] == changes_before[b]);
                    } else {
                        assert(changes_before[a].0 < i);
                    }
                }
            }
        }
        proof {
            assert forall|j: int| 0 <= j < i + 1 && dirty@[j] < n implies exists|k: int|
                0 <= k < changes.len() && #[trigger] changes@[k].0 == j by {
                if j == i {
                    assert(changes@[changes.len() - 1].0 == i);
                } else {
                    let k = choose|k: int| 0 <= k < changes_before.len() && #[trigger] changes_before[k].0 == j;
                    assert(changes@[k] == changes_before[k]);
                }
            }
        }
        i = i + 1;
    }
    proof {
        assert(dirty@.take(dirty.len() as int) == dirty@);
    }
    changes
}

/// The pass node `x` should render into: its own when its mark has a bit
/// set, else the one of its parent node (none at the top of the tree).
pub open spec fn context_of(parents: Seq<Option<usize>>, marks: Seq<Seq<bool>>, x: int, fuel: nat) -> Option<usize>
    decreases fuel,
{
    if fuel == 0 {
        None
    } else if any_bit(marks[x]) {
        Some(x as usize)
    } else {
        match parents[x] {
            Some(p) => if p < parents.len() {
                context_of(parents, marks, p as int, (fuel - 1) as nat)
            } else {
                None
            },
            None => None,
        }
    }
}

proof fn lemma_context_fuel(parents: Seq<Option<usize>>, marks: Seq<Seq<bool>>, x: int, f: nat, g: nat)
    requires
        0 <= x < parents.len(),
        reaches_top(parents, x, f),
        f <= g,
    ensures
        context_of(parents, marks, x, f) == context_of(parents, marks, x, g),
    decreases f,
{
    match parents[x] {
        None => {},
        Some(p) => {
            if p < parents.len() {
                lemma_context_fuel(parents, marks, p as int, (f - 1) as nat, (g - 1) as nat);
            }
        },
    }
}

proof fn lemma_context_fold_len(
    parents: Seq<Option<usize>>,
    marks: Seq<Seq<bool>>,
    in_pass: Seq<Option<usize>>,
    dirty: Seq<usize>,
)
    ensures
        context_fold(parents, marks, in_pass, dirty).len() == in_pass.len(),
    decreases dirty.len(),
{
    if dirty.len() > 0 {
        lemma_context_fold_len(parents, marks, in_pass, dirty.drop_last());
    }
}

proof fn lemma_context_prefix(
    parents: Seq<Option<usize>>,
    marks: Seq<Seq<bool>>,
    in_pass: Seq<Option<usize>>,
    dirty: Seq<usize>,
    k: int,
)
    requires
        parents.len() == marks.len(),
        marks.len() == in_pass.len(),
        parents.len() <= usize::MAX,
        is_forest(parents),
        0 <= k <= dirty.len(),
        forall|a: int, b: int| 0 <= a < b < dirty.len() ==> dirty[a] != dirty[b],
        forall|a: int| 0 <= a < dirty.len() ==> dirty[a] < parents.len(),
        forall|x: usize| x < parents.len() ==> #[trigger] dirty.contains(x),
        forall|a: int, b: int|
            0 <= a < dirty.len() && 0 <= b < dirty.len() && parents[dirty[a] as int] == Some(dirty[b]) ==> b < a,
    ensures
        forall|a: int| 0 <= a < k ==> #[trigger] context_fold(parents, marks, in_pass, dirty.take(k))[dirty[a] as int]
            == context_of(parents, marks, dirty[a] as int, parents.len() as nat),
    decreases k,
{
    let n = parents.len();
    if k > 0 {
        lemma_context_prefix(parents, marks, in_pass, dirty, k - 1);
        let prev = dirty.take(k - 1);
        let cur = dirty.take(k);
        assert(cur.drop_last() =~= prev);
        let before = context_fold(parents, marks, in_pass, prev);
        lemma_context_fold_len(parents, marks, in_pass, prev);
        let x = dirty[k - 1] as int;
        assert(cur.last() == dirty[k - 1]);
        assert(reaches_top(parents, x, n as nat));
        match parents[x] {
            Some(p) => {
                if p < n {
                    assert(dirty.contains(p));
                    let b = choose|b: int| 0 <= b < dirty.len() && dirty[b] == p;
                    assert(b < k - 1);
                    assert(before[p as int] == context_of(parents, marks, p as int, n as nat));
                    lemma_context_fuel(parents, marks, p as int, (n - 1) as nat, n as nat);
                }
            },
            None => {},
        }
        assert(context_fold(parents, marks, in_pass, cur)[x] == context_of(parents, marks, x, n as nat));
    }
}

/// Render contexts: once every node has been revisited, in an order that
/// puts each parent before its children, every node renders into the pass
/// of its nearest ancestor-or-self whose mark has a bit set (none when no
/// node up to the top has one).
pub proof fn lemma_context_nearest_mark(
    parents: Seq<Option<usize>>,
    marks: Seq<Seq<bool>>,
    in_pass: Seq<Option<usize>>,
    dirty: Seq<usize>,
)
    requires
        parents.len() == marks.len(),
        marks.len() == in_pass.len(),
        parents.len() <= usize::MAX,
        is_forest(parents),
        forall|a: int, b: int| 0 <= a < b < dirty.len() ==> dirty[a] != dirty[b],
        forall|a: int| 0 <= a < dirty.len() ==> dirty[a] < parents.len(),
        forall|x: usize| x < parents.len() ==> #[trigger] dirty.contains(x),
        forall|a: int, b: int|
            0 <= a < dirty.len() && 0 <= b < dirty.len() && parents[dirty[a] as int] == Some(dirty[b]) ==> b < a,
    ensures
        forall|x: int| 0 <= x < parents.len() ==> #[trigger] context_fold(parents, marks, in_pass, dirty)[x]
            == context_of(parents, marks, x, parents.len() as nat),
{
    lemma_context_prefix(parents, marks, in_pass, dirty, dirty.len() as int);
    assert(dirty.take(dirty.len() as int) =~= dirty);
    assert forall|x: int| 0 <= x < parents.len() implies #[trigger] context_fold(parents, marks, in_pass, dirty)[x]
        == context_of(parents, marks, x, parents.len() as nat) by {
        assert(dirty.contains(x as usize));
        let a = choose|a: int| 0 <= a < dirty.len() && dirty[a] == x as usize;
        assert(context_fold(parents, marks, in_pass, dirty.take(dirty.len() as int))[dirty[a] as int]
            == context_of(parents, marks, dirty[a] as int, parents.len() as nat));
    }
}

} // verus!
