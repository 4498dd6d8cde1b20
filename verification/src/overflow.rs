//! Overflow clipping of passes.
//!
//! Every frame the passes are walked from the roots down their child
//! passes.  A pass is recomputed when it or a pass above it in the walk
//! changed (its matrix, its will-change matrix, its overflow setting or its
//! layer).  A recomputed pass that clips its content under a rotation needs
//! a copy step and the overflow bit of its effect mark; one that does not
//! loses the bit, and its copy step unless rendering it as an image needs
//! one.  The walk also lists the recomputed passes, parents first, for the
//! view boxes to be computed in that order.

use vstd::prelude::*;
use crate::mark::MARK_BITS;
use crate::post_effect::{PostProcessState, post_view};

verus! {

/// What the overflow walk reads of a pass: whether it changed itself,
/// whether it clips under a rotation (overflow set and a rotating matrix),
/// and its child passes.
pub struct OverflowPass {
    pub changed: bool,
    pub clips: bool,
    pub children: Vec<usize>,
}

/// The post-process state of a pass after it is recomputed: the overflow
/// bit follows `clips`; a clipping pass has a copy step, another keeps its
/// copy step only while its as-image bit is set.
pub open spec fn overflow_after(
    clips: bool,
    mark: Seq<bool>,
    has_copy: bool,
    mark_type: int,
    as_image_type: int,
) -> (Seq<bool>, bool) {
    if clips {
        (mark.update(mark_type, true), true)
    } else {
        let m = mark.update(mark_type, false);
        (m, has_copy && m[as_image_type])
    }
}

/// Recomputes the overflow part of the post-process state of a pass.
pub fn overflow_mark(clips: bool, post: &mut PostProcessState, mark_type: usize, as_image_type: usize)
    requires
        mark_type < MARK_BITS,
        as_image_type < MARK_BITS,
    ensures
        (final(post).effect_mark@, final(post).has_copy) == overflow_after(
            clips,
            old(post).effect_mark@,
            old(post).has_copy,
            mark_type as int,
            as_image_type as int,
        ),
{
    proof {
        post.effect_mark.lemma_len();
    }
    if clips {
        post.has_copy = true;
        post.effect_mark.set(mark_type, true);
    } else {
        post.effect_mark.set(mark_type, false);
        if !post.effect_mark.get(as_image_type) {
            post.has_copy = false;
        }
    }
}

/// The post-process states of the passes, by view.
pub open spec fn posts_view(posts: Seq<Option<PostProcessState>>) -> Seq<Option<(Seq<bool>, bool)>> {
    posts.map_values(|p: Option<PostProcessState>| post_view(p))
}

/// What the walk changes: the post-process states (by view) and the list
/// of recomputed passes.
pub type OverflowView = (Seq<Option<(Seq<bool>, bool)>>, Seq<usize>);

/// The walk from pass `id` down, the pass above it having changed when
/// `parent_change` holds, following at most `fuel` levels.  A pass without
/// walk data or without post-process state ends the walk there.
pub open spec fn overflow_visit(
    passes: Seq<Option<OverflowPass>>,
    st: OverflowView,
    id: usize,
    parent_change: bool,
    mark_type: int,
    as_image_type: int,
    fuel: nat,
) -> OverflowView
    decreases fuel, 0nat, 0nat,
{
    if fuel == 0 || id >= passes.len() || id >= st.0.len() {
        st
    } else {
        match passes[id as int] {
            Some(p) => match st.0[id as int] {
                Some((m, c)) => {
                    let ch = parent_change || p.changed;
                    let st2 = if ch {
                        (
                            st.0.update(id as int, Some(overflow_after(p.clips, m, c, mark_type, as_image_type))),
                            st.1.push(id),
                        )
                    } else {
                        st
                    };
                    overflow_visit_kids(passes, st2, p.children@, ch, mark_type, as_image_type, (fuel - 1) as nat)
                },
                None => st,
            },
            None => st,
        }
    }
}

/// The walk from the passes `kids`, in order.
pub open spec fn overflow_visit_kids(
    passes: Seq<Option<OverflowPass>>,
    st: OverflowView,
    kids: Seq<usize>,
    parent_change: bool,
    mark_type: int,
    as_image_type: int,
    fuel: nat,
) -> OverflowView
    decreases fuel, 1nat, kids.len(),
{
    if kids.len() == 0 {
        st
    } else {
        overflow_visit(
            passes,
            overflow_visit_kids(passes, st, kids.drop_last(), parent_change, mark_type, as_image_type, fuel),
            kids.last(),
            parent_change,
            mark_type,
            as_image_type,
            fuel,
        )
    }
}

fn visit_exec(
    passes: &Vec<Option<OverflowPass>>,
    posts: &mut Vec<Option<PostProcessState>>,
    order: &mut Vec<usize>,
    id: usize,
    parent_change: bool,
    mark_type: usize,
    as_image_type: usize,
    fuel: usize,
)
    requires
        mark_type < MARK_BITS,
        as_image_type < MARK_BITS,
    ensures
        (posts_view(final(posts)@), final(order)@) == overflow_visit(
            passes@,
            (posts_view(old(posts)@), old(order)@),
            id,
            parent_change,
            mark_type as int,
            as_image_type as int,
            fuel as nat,
        ),
    decreases fuel, 0nat, 0nat,
{
    if fuel == 0 || id >= passes.len() || id >= posts.len() {
        return ;
    }
    match &passes[id] {
        Some(p) => {
            if posts[id].is_none() {
                return ;
            }
            let ch = parent_change || p.changed;
            if ch {
                let ghost before = posts@;
                match &mut posts[id] {
                    Some(post) => overflow_mark(p.clips, post, mark_type, as_image_type),
                    None => {},
                }
                order.push(id);
                proof {
                    assert(posts_view(before)[id as int] == post_view(before[id as int]));
                    assert(posts_view(posts@) =~= posts_view(before).update(
                        id as int,
                        Some(
                            overflow_after(
                                p.clips,
                                before[id as int]->0.effect_mark@,
                                before[id as int]->0.has_copy,
                                mark_type as int,
                                as_image_type as int,
                            ),
                        ),
                    ));
                }
            }
            visit_kids_exec(passes, posts, order, &p.children, ch, mark_type, as_image_type, fuel - 1);
        },
        None => {},
    }
}

fn visit_kids_exec(
    passes: &Vec<Option<OverflowPass>>,
    posts: &mut Vec<Option<PostProcessState>>,
    order: &mut Vec<usize>,
    kids: &Vec<usize>,
    parent_change: bool,
    mark_type: usize,
    as_image_type: usize,
    fuel: usize,
)
    requires
        mark_type < MARK_BITS,
        as_image_type < MARK_BITS,
    ensures
        (posts_view(final(posts)@), final(order)@) == overflow_visit_kids(
            passes@,
            (posts_view(old(posts)@), old(order)@),
            kids@,
            parent_change,
            mark_type as int,
            as_image_type as int,
            fuel as nat,
        ),
    decreases fuel, 1nat, kids.len(),
{
    let ghost st0 = (posts_view(posts@), order@);
    let mut k: usize = 0;
    while k < kids.len()
        invariant
            mark_type < MARK_BITS,
            as_image_type < MARK_BITS,
            k <= kids.len(),
            (posts_view(posts@), order@) == overflow_visit_kids(
                passes@,
                st0,
                kids@.take(k as int),
                parent_change,
                mark_type as int,
                as_image_type as int,
                fuel as nat,
            ),
        decreases kids.len() - k,
    {
        proof {
            let t = kids@.take(k + 1);
            assert(t.drop_last() == kids@.take(k as int));
            assert(t.last() == kids@[k as int]);
        }
        visit_exec(passes, posts, order, kids[k], parent_change, mark_type, as_image_type, fuel);
        k = k + 1;
    }
    proof {
        assert(kids@.take(k as int) == kids@);
    }
}

/// Recomputes the overflow of pass `id` and the passes under it, the pass
/// above it having changed when `parent_is_change` holds; appends the
/// recomputed passes to `order`.  The walk follows at most as many levels
/// as there are passes.
pub fn recursive_cal_overflow(
    parent_is_change: bool,
    id: usize,
    passes: &Vec<Option<OverflowPass>>,
    posts: &mut Vec<Option<PostProcessState>>,
    order: &mut Vec<usize>,
    mark_type: usize,
    as_image_type: usize,
)
    requires
        mark_type < MARK_BITS,
        as_image_type < MARK_BITS,
    ensures
        (posts_view(final(posts)@), final(order)@) == overflow_visit(
            passes@,
            (posts_view(old(posts)@), old(order)@),
            id,
            parent_is_change,
            mark_type as int,
            as_image_type as int,
            passes.len() as nat,
        ),
{
    visit_exec(passes, posts, order, id, parent_is_change, mark_type, as_image_type, passes.len());
}

/// Walks the passes from every root in turn and returns the recomputed
/// passes in the order they were recomputed; nothing happens while the
/// frame is held (`is_run`).
pub fn overflow_post_process(
    is_run: bool,
    roots: &Vec<usize>,
    passes: &Vec<Option<OverflowPass>>,
    posts: &mut Vec<Option<PostProcessState>>,
    mark_type: usize,
    as_image_type: usize,
) -> (order: Vec<usize>)
    requires
        mark_type < MARK_BITS,
        as_image_type < MARK_BITS,
    ensures
        is_run ==> posts_view(final(posts)@) == posts_view(old(posts)@) && order@ == Seq::<usize>::empty(),
        !is_run ==> (posts_view(final(posts)@), order@) == overflow_visit_kids(
            passes@,
            (posts_view(old(posts)@), Seq::empty()),
            roots@,
            false,
            mark_type as int,
            as_image_type as int,
            passes.len() as nat,
        ),
{
    let mut order: Vec<usize> = Vec::new();
    if is_run {
        return order;
    }
    visit_kids_exec(passes, posts, &mut order, roots, false, mark_type, as_image_type, passes.len());
    order
}

/// Recomputing a pass twice gives what recomputing it once gives.
pub proof fn lemma_overflow_after_idempotent(
    clips: bool,
    mark: Seq<bool>,
    has_copy: bool,
    mark_type: int,
    as_image_type: int,
)
    requires
        0 <= mark_type < mark.len(),
        0 <= as_image_type < mark.len(),
    ensures
        ({
            let (m, c) = overflow_after(clips, mark, has_copy, mark_type, as_image_type);
            overflow_after(clips, m, c, mark_type, as_image_type) == (m, c)
        }),
{
    let (m, c) = overflow_after(clips, mark, has_copy, mark_type, as_image_type);
    if clips {
        assert(m.update(mark_type, true) =~= m);
    } else {
        assert(m.update(mark_type, false) =~= m);
    }
}

/// No pass changed itself.
pub open spec fn none_changed(passes: Seq<Option<OverflowPass>>) -> bool {
    forall|i: int| 0 <= i < passes.len() && (#[trigger] passes[i]) is Some ==> !passes[i]->0.changed
}

/// When no pass changed, the walk from a pass whose parent did not change
/// recomputes nothing and leaves every state as it was.
pub proof fn lemma_overflow_quiet(
    passes: Seq<Option<OverflowPass>>,
    st: OverflowView,
    id: usize,
    mark_type: int,
    as_image_type: int,
    fuel: nat,
)
    requires
        none_changed(passes),
    ensures
        overflow_visit(passes, st, id, false, mark_type, as_image_type, fuel) == st,
    decreases fuel, 0nat, 0nat,
{
    if fuel > 0 && id < passes.len() && id < st.0.len() {
        if let Some(p) = passes[id as int] {
            if st.0[id as int] is Some {
                lemma_overflow_quiet_kids(passes, st, p.children@, mark_type, as_image_type, (fuel - 1) as nat);
            }
        }
    }
}

/// The walk from passes whose parent did not change, when no pass changed,
/// leaves every state as it was.
pub proof fn lemma_overflow_quiet_kids(
    passes: Seq<Option<OverflowPass>>,
    st: OverflowView,
    kids: Seq<usize>,
    mark_type: int,
    as_image_type: int,
    fuel: nat,
)
    requires
        none_changed(passes),
    ensures
        overflow_visit_kids(passes, st, kids, false, mark_type, as_image_type, fuel) == st,
    decreases fuel, 1nat, kids.len(),
{
    if kids.len() > 0 {
        lemma_overflow_quiet_kids(passes, st, kids.drop_last(), mark_type, as_image_type, fuel);
        lemma_overflow_quiet(passes, st, kids.last(), mark_type, as_image_type, fuel);
    }
}

/// The passes form a forest: every child pass stands on a lower level than
/// its parent, and every level is below the number of passes.
pub open spec fn ranked(passes: Seq<Option<OverflowPass>>, level: Seq<nat>) -> bool {
    &&& level.len() == passes.len()
    &&& forall|i: int| 0 <= i < passes.len() ==> #[trigger] level[i] < passes.len()
    &&& forall|i: int, k: int|
        0 <= i < passes.len() && passes[i] is Some && 0 <= k < passes[i]->0.children@.len()
            && #[trigger] passes[i]->0.children@[k] < passes.len() ==> level[
            passes[i]->0.children@[k] as int] < level[i]
}

proof fn lemma_visit_fuel(
    passes: Seq<Option<OverflowPass>>,
    level: Seq<nat>,
    st: OverflowView,
    id: usize,
    parent_change: bool,
    mark_type: int,
    as_image_type: int,
    f1: nat,
    f2: nat,
)
    requires
        ranked(passes, level),
        id < passes.len() ==> level[id as int] < f1 && level[id as int] < f2,
    ensures
        overflow_visit(passes, st, id, parent_change, mark_type, as_image_type, f1) == overflow_visit(
            passes,
            st,
            id,
            parent_change,
            mark_type,
            as_image_type,
            f2,
        ),
    decreases f1, 0nat, 0nat,
{
    if id < passes.len() && id < st.0.len() {
        if let Some(p) = passes[id as int] {
            if let Some((m, c)) = st.0[id as int] {
                let ch = parent_change || p.changed;
                let st2 = if ch {
                    (st.0.update(id as int, Some(overflow_after(p.clips, m, c, mark_type, as_image_type))), st.1.push(id))
                } else {
                    st
                };
                assert forall|k: int| 0 <= k < p.children@.len() && #[trigger] p.children@[k] < passes.len() implies level[
                    p.children@[k] as int] < (f1 - 1) as nat && level[p.children@[k] as int] < (f2 - 1) as nat by {
                    assert(passes[id as int]->0.children@[k] == p.children@[k]);
                }
                lemma_visit_kids_fuel(
                    passes,
                    level,
                    st2,
                    p.children@,
                    ch,
                    mark_type,
                    as_image_type,
                    (f1 - 1) as nat,
                    (f2 - 1) as nat,
                );
            }
        }
    }
}

proof fn lemma_visit_kids_fuel(
    passes: Seq<Option<OverflowPass>>,
    level: Seq<nat>,
    st: OverflowView,
    kids: Seq<usize>,
    parent_change: bool,
    mark_type: int,
    as_image_type: int,
    f1: nat,
    f2: nat,
)
    requires
        ranked(passes, level),
        forall|k: int|
            0 <= k < kids.len() && #[trigger] kids[k] < passes.len() ==> level[kids[k] as int] < f1 && level[kids[k] as int]
                < f2,
    ensures
        overflow_visit_kids(passes, st, kids, parent_change, mark_type, as_image_type, f1)
            == overflow_visit_kids(passes, st, kids, parent_change, mark_type, as_image_type, f2),
    decreases f1, 1nat, kids.len(),
{
    if kids.len() > 0 {
        let rest = kids.drop_last();
        assert forall|k: int| 0 <= k < rest.len() && #[trigger] rest[k] < passes.len() implies level[rest[k] as int] < f1
            && level[rest[k] as int] < f2 by {
            assert(rest[k] == kids[k]);
        }
        lemma_visit_kids_fuel(passes, level, st, rest, parent_change, mark_type, as_image_type, f1, f2);
        let mid = overflow_visit_kids(passes, st, rest, parent_change, mark_type, as_image_type, f1);
        assert(kids.last() == kids[kids.len() - 1]);
        lemma_visit_fuel(passes, level, mid, kids.last(), parent_change, mark_type, as_image_type, f1, f2);
    }
}

/// On a forest of passes the walk's bound of as many levels as there are
/// passes cuts nothing: allowing more levels gives the same result.
pub proof fn lemma_overflow_depth_enough(
    passes: Seq<Option<OverflowPass>>,
    level: Seq<nat>,
    st: OverflowView,
    roots: Seq<usize>,
    mark_type: int,
    as_image_type: int,
    fuel: nat,
)
    requires
        ranked(passes, level),
        fuel >= passes.len(),
    ensures
        overflow_visit_kids(passes, st, roots, false, mark_type, as_image_type, passes.len() as nat)
            == overflow_visit_kids(passes, st, roots, false, mark_type, as_image_type, fuel),
{
    assert forall|k: int| 0 <= k < roots.len() && #[trigger] roots[k] < passes.len() implies level[roots[k] as int]
        < passes.len() as nat && level[roots[k] as int] < fuel by {
        assert(level[roots[k] as int] < passes.len());
    }
    lemma_visit_kids_fuel(passes, level, st, roots, false, mark_type, as_image_type, passes.len() as nat, fuel);
}

} // verus!
