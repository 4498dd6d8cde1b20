//! The hierarchy of render passes.
//!
//! Every render-context node owns a pass; a pass knows the pass it renders
//! into (its parent, `None` for a root).  Passes are numbered `0..n` and
//! `parents[i]` is the parent of pass `i`; a parent index outside `0..n` names
//! a node that owns no pass.

use vstd::prelude::*;

verus! {

/// Number of passes `j < i` whose parent is `x`.
pub open spec fn num_children(parents: Seq<Option<usize>>, x: int, i: int) -> nat
    decreases i,
{
    if i <= 0 {
        0
    } else {
        num_children(parents, x, i - 1) + if parents[i - 1] == Some(x as usize) {
            1nat
        } else {
            0nat
        }
    }
}

/// Whether `c` is a child pass of `x`.
pub open spec fn is_child(parents: Seq<Option<usize>>, c: int, x: int) -> bool {
    0 <= c < parents.len() && parents[c] == Some(x as usize)
}

/// The child lists of all passes: `children[p]` holds, in increasing order,
/// exactly the passes whose parent is `p`.
pub open spec fn children_wf(parents: Seq<Option<usize>>, children: Seq<Seq<usize>>) -> bool {
    &&& children.len() == parents.len()
    &&& forall|p: int, k: int|
        0 <= p < children.len() && 0 <= k < children[p].len() ==> is_child(
            parents,
            #[trigger] children[p][k] as int,
            p,
        )
    &&& forall|p: int|
        0 <= p < children.len() ==> #[trigger] children[p].len() == num_children(
            parents,
            p,
            parents.len() as int,
        )
    &&& forall|p: int, a: int, b: int|
        0 <= p < children.len() && 0 <= a < b < children[p].len() ==> #[trigger] children[p][a]
            < #[trigger] children[p][b]
}

/// The leaf passes (passes without child pass), in increasing order.
pub open spec fn leaves_wf(parents: Seq<Option<usize>>, leaves: Seq<usize>) -> bool {
    &&& forall|k: int|
        0 <= k < leaves.len() ==> #[trigger] leaves[k] < parents.len() && num_children(
            parents,
            leaves[k] as int,
            parents.len() as int,
        ) == 0
    &&& forall|x: int|
        0 <= x < parents.len() && num_children(parents, x, parents.len() as int) == 0
            ==> leaves.contains(x as usize)
    &&& forall|a: int, b: int| 0 <= a < b < leaves.len() ==> #[trigger] leaves[a] < #[trigger] leaves[b]
}

/// A count of children is zero exactly when no pass below `i` is a child.
pub proof fn lemma_num_children_zero(parents: Seq<Option<usize>>, x: int, i: int)
    requires
        0 <= i <= parents.len(),
    ensures
        num_children(parents, x, i) == 0 <==> forall|c: int| 0 <= c < i ==> parents[c] != Some(x as usize),
    decreases i,
{
    if i > 0 {
        lemma_num_children_zero(parents, x, i - 1);
    }
}

/// Regroups the passes by parent: the child list of every pass, and the leaf
/// passes (those with an empty child list).
pub fn calc_pass_children_and_clear(parents: &Vec<Option<usize>>) -> (r: (Vec<Vec<usize>>, Vec<usize>))
    ensures
        children_wf(parents@, r.0.deep_view()),
        leaves_wf(parents@, r.1@),
{
    let n = parents.len();
    let mut children: Vec<Vec<usize>> = Vec::new();
    let mut i: usize = 0;
    while i < n
        invariant
            n == parents.len(),
            i <= n,
            children.len() == i,
            forall|p: int| 0 <= p < i ==> #[trigger] children[p]@.len() == 0,
        decreases n - i,
    {
        children.push(Vec::new());
        i = i + 1;
    }
    let mut i: usize = 0;
    while i < n
        invariant
            n == parents.len(),
            i <= n,
            children.len() == n,
            forall|p: int, k: int|
                0 <= p < n && 0 <= k < children[p]@.len() ==> #[trigger] children[p]@[k] < i
                    && parents@[children[p]@[k] as int] == Some(p as usize),
            forall|p: int| 0 <= p < n ==> #[trigger] children[p]@.len() == num_children(parents@, p, i as int),
            forall|p: int, a: int, b: int|
                0 <= p < n && 0 <= a < b < children[p]@.len() ==> #[trigger] children[p]@[a]
                    < #[trigger] children[p]@[b],
        decreases n - i,
    {
        match parents[i] {
            Some(p) => {
                if p < n {
                    children[p].push(i);
                }
            },
            None => {},
        }
        i = i + 1;
    }
    let mut leaves: Vec<usize> = Vec::new();
    let mut x: usize = 0;
    while x < n
        invariant
            n == parents.len(),
            x <= n,
            children.len() == n,
            forall|p: int| 0 <= p < n ==> #[trigger] children[p]@.len() == num_children(parents@, p, n as int),
            forall|k: int|
                0 <= k < leaves.len() ==> #[trigger] leaves[k] < x && num_children(
                    parents@,
                    leaves[k] as int,
                    n as int,
                ) == 0,
            forall|y: int|
                0 <= y < x && num_children(parents@, y, n as int) == 0 ==> leaves@.contains(y as usize),
            forall|a: int, b: int| 0 <= a < b < leaves.len() ==> #[trigger] leaves[a] < #[trigger] leaves[b],
        decreases n - x,
    {
        let ghost before = leaves@;
        if children[x].len() == 0 {
            leaves.push(x);
            assert(leaves@[leaves.len() - 1] == x);
        }
        assert forall|y: int|
            0 <= y < x + 1 && num_children(parents@, y, n as int) == 0 implies leaves@.contains(
            y as usize,
        ) by {
            if y < x {
                let k = choose|k: int| 0 <= k < before.len() && before[k] == y as usize;
                assert(leaves@[k] == y as usize);
            } else {
                assert(leaves@[leaves.len() - 1] == x);
            }
        }
        x = x + 1;
    }
    (children, leaves)
}

} // verus!

verus! {

/// Number of child passes of `x` below `i` not yet marked in `done`.
pub open spec fn num_unprocessed(parents: Seq<Option<usize>>, done: Seq<bool>, x: int, i: int) -> nat
    decreases i,
{
    if i <= 0 {
        0
    } else {
        num_unprocessed(parents, done, x, i - 1) + if parents[i - 1] == Some(x as usize) && !done[i
            - 1] {
            1nat
        } else {
            0nat
        }
    }
}

/// Number of passes below `i` not yet marked in `done`.
pub open spec fn num_open(done: Seq<bool>, i: int) -> nat
    decreases i,
{
    if i <= 0 {
        0
    } else {
        num_open(done, i - 1) + if !done[i - 1] {
            1nat
        } else {
            0nat
        }
    }
}

/// Whether some child pass of `x` has a post-process effect.
pub open spec fn has_effect_child(parents: Seq<Option<usize>>, has_effect: Seq<bool>, x: int) -> bool {
    exists|c: int| is_child(parents, c, x) && #[trigger] has_effect[c]
}

/// Whether the chain of parents from pass `i` leaves the passes (a root, or a
/// parent that owns no pass) within `fuel` steps.
pub open spec fn reaches_top(parents: Seq<Option<usize>>, i: int, fuel: nat) -> bool
    decreases fuel,
{
    if fuel == 0 {
        false
    } else {
        match parents[i] {
            None => true,
            Some(p) => p >= parents.len() || reaches_top(parents, p as int, (fuel - 1) as nat),
        }
    }
}

/// The passes form a forest: no chain of parents runs in a cycle.
pub open spec fn is_forest(parents: Seq<Option<usize>>) -> bool {
    forall|i: int| 0 <= i < parents.len() ==> #[trigger] reaches_top(parents, i, parents.len() as nat)
}

/// Number of parent steps from pass `i` to the top of its tree.
pub open spec fn root_dist(parents: Seq<Option<usize>>, i: int, fuel: nat) -> nat
    decreases fuel,
{
    if fuel == 0 {
        0
    } else {
        match parents[i] {
            None => 0,
            Some(p) => if p >= parents.len() {
                0
            } else {
                1 + root_dist(parents, p as int, (fuel - 1) as nat)
            },
        }
    }
}

/// The passes a list marks as processed.
pub open spec fn processed(list: Seq<usize>, n: nat) -> Seq<bool> {
    Seq::new(n, |c: int| list.contains(c as usize))
}

proof fn lemma_children_unprocessed(parents: Seq<Option<usize>>, done: Seq<bool>, x: int, i: int)
    requires
        0 <= i <= done.len(),
        forall|j: int| 0 <= j < i ==> !#[trigger] done[j],
    ensures
        num_unprocessed(parents, done, x, i) == num_children(parents, x, i),
    decreases i,
{
    if i > 0 {
        lemma_children_unprocessed(parents, done, x, i - 1);
    }
}

proof fn lemma_unprocessed_mark(parents: Seq<Option<usize>>, done: Seq<bool>, e: int, x: int, i: int)
    requires
        0 <= e < done.len(),
        !done[e],
        0 <= i <= done.len(),
    ensures
        num_unprocessed(parents, done.update(e, true), x, i) + (if e < i && parents[e] == Some(
            x as usize,
        ) {
            1nat
        } else {
            0nat
        }) == num_unprocessed(parents, done, x, i),
    decreases i,
{
    if i > 0 {
        lemma_unprocessed_mark(parents, done, e, x, i - 1);
    }
}

proof fn lemma_unprocessed_zero(parents: Seq<Option<usize>>, done: Seq<bool>, x: int, i: int)
    requires
        0 <= i <= done.len(),
    ensures
        num_unprocessed(parents, done, x, i) == 0 <==> forall|c: int|
            0 <= c < i && parents[c] == Some(x as usize) ==> done[c],
    decreases i,
{
    if i > 0 {
        lemma_unprocessed_zero(parents, done, x, i - 1);
    }
}

pub proof fn lemma_open_mark(done: Seq<bool>, e: int, i: int)
    requires
        0 <= e < done.len(),
        !done[e],
        0 <= i <= done.len(),
    ensures
        num_open(done.update(e, true), i) + (if e < i {
            1nat
        } else {
            0nat
        }) == num_open(done, i),
    decreases i,
{
    if i > 0 {
        lemma_open_mark(done, e, i - 1);
    }
}

pub proof fn lemma_reaches_mono(parents: Seq<Option<usize>>, i: int, f: nat, g: nat)
    requires
        0 <= i < parents.len(),
        reaches_top(parents, i, f),
        f <= g,
    ensures
        reaches_top(parents, i, g),
        root_dist(parents, i, f) == root_dist(parents, i, g),
        root_dist(parents, i, f) < f,
    decreases f,
{
    match parents[i] {
        None => {},
        Some(p) => {
            if p < parents.len() {
                lemma_reaches_mono(parents, p as int, (f - 1) as nat, (g - 1) as nat);
            }
        },
    }
}

/// In a forest, a child pass lies one step further from the top than its parent.
pub proof fn lemma_child_dist(parents: Seq<Option<usize>>, c: int, x: int)
    requires
        is_forest(parents),
        parents.len() <= usize::MAX,
        is_child(parents, c, x),
        0 <= x < parents.len(),
    ensures
        root_dist(parents, c, parents.len() as nat) == 1 + root_dist(parents, x, parents.len() as nat),
        root_dist(parents, c, parents.len() as nat) < parents.len(),
{
    let n = parents.len() as nat;
    assert(reaches_top(parents, c, n));
    let p = parents[c]->0;
    assert(p as int == x);
    assert(reaches_top(parents, c, n) == (p >= parents.len() || reaches_top(parents, p as int, (n - 1) as nat)));
    assert(reaches_top(parents, x, (n - 1) as nat));
    assert(root_dist(parents, c, n) == 1 + root_dist(parents, p as int, (n - 1) as nat));
    lemma_reaches_mono(parents, x, (n - 1) as nat, n);
    lemma_reaches_mono(parents, c, n, n);
}

/// In a forest, below every unprocessed pass lies an unprocessed pass whose
/// children are all processed.
proof fn lemma_ready_below(parents: Seq<Option<usize>>, done: Seq<bool>, x: int)
    requires
        is_forest(parents),
        parents.len() <= usize::MAX,
        done.len() == parents.len(),
        0 <= x < parents.len(),
        !done[x],
    ensures
        exists|y: int|
            0 <= y < parents.len() && !done[y] && #[trigger] num_unprocessed(
                parents,
                done,
                y,
                parents.len() as int,
            ) == 0,
    decreases parents.len() - root_dist(parents, x, parents.len() as nat),
{
    let n = parents.len() as int;
    if num_unprocessed(parents, done, x, n) == 0 {
        return;
    }
    lemma_unprocessed_zero(parents, done, x, n);
    let c = choose|c: int| 0 <= c < n && parents[c] == Some(x as usize) && !done[c];
    lemma_child_dist(parents, c, x);
    lemma_ready_below(parents, done, c);
}

} // verus!

verus! {

/// No value occurs twice.
pub open spec fn no_dup(s: Seq<usize>) -> bool {
    forall|a: int, b: int| 0 <= a < b < s.len() ==> s[a] != s[b]
}

/// Every value is a pass index.
pub open spec fn all_below(s: Seq<usize>, n: int) -> bool {
    forall|a: int| 0 <= a < s.len() ==> s[a] < n
}

/// Every pass of the list comes after all its child passes in the list.
pub open spec fn topo_ordered(parents: Seq<Option<usize>>, list: Seq<usize>) -> bool {
    forall|a: int, b: int|
        0 <= a < list.len() && 0 <= b < list.len() && is_child(
            parents,
            #[trigger] list[a] as int,
            #[trigger] list[b] as int,
        ) ==> a < b
}

/// Some recorded boundary, at or before `limit`, lies after every child pass
/// of `y` in the list.
pub open spec fn boundary_before(
    parents: Seq<Option<usize>>,
    list: Seq<usize>,
    next: Seq<usize>,
    y: int,
    limit: int,
) -> bool {
    exists|j: int|
        0 <= j < next.len() && next[j] <= limit && forall|a: int|
            0 <= a < list.len() && is_child(parents, #[trigger] list[a] as int, y) ==> a < next[j]
}

/// A pass that has a child pass with a post-process effect starts after a
/// recorded boundary that follows all its child passes.
pub open spec fn boundaries_ok(
    parents: Seq<Option<usize>>,
    has_effect: Seq<bool>,
    list: Seq<usize>,
    next: Seq<usize>,
) -> bool {
    forall|k: int|
        0 <= k < list.len() && has_effect_child(parents, has_effect, #[trigger] list[k] as int)
            ==> boundary_before(parents, list, next, list[k] as int, k)
}

/// The boundaries never decrease and do not pass the end of the list.
pub open spec fn boundaries_sorted(next: Seq<usize>, len: int) -> bool {
    &&& forall|j: int| 0 <= j < next.len() ==> #[trigger] next[j] <= len
    &&& forall|i: int, j: int| 0 <= i < j < next.len() ==> #[trigger] next[i] <= #[trigger] next[j]
}

} // verus!

verus! {

/// The state of the topological sort between steps: the order so far, the
/// recorded boundaries, the ready passes being processed (`t0`), the ready
/// passes without and with an effect child (`t1`, `t2`), the number of
/// unprocessed children of every pass, and whether a processed child of a
/// waiting pass has an effect.
pub struct SortRound {
    pub list: Seq<usize>,
    pub next: Seq<usize>,
    pub t0: Seq<usize>,
    pub t1: Seq<usize>,
    pub t2: Seq<usize>,
    pub count: Seq<int>,
    pub eff: Seq<bool>,
}

/// The sort state held by the executable variables.
pub open spec fn sort_view(
    list: Seq<usize>,
    next: Seq<usize>,
    t0: Seq<usize>,
    t1: Seq<usize>,
    t2: Seq<usize>,
    count: Seq<usize>,
    eff: Seq<bool>,
) -> SortRound {
    SortRound { list, next, t0, t1, t2, count: count.map_values(|c: usize| c as int), eff }
}

/// Processing the ready pass `e`: it joins the order and is counted off its
/// parent; a parent whose last child this was becomes ready, in `t1` when
/// none of its children has an effect, else in `t2`.
pub open spec fn sort_take(parents: Seq<Option<usize>>, has_effect: Seq<bool>, st: SortRound, e: usize) -> SortRound {
    let list = st.list.push(e);
    match parents[e as int] {
        Some(p) => if p < parents.len() {
            let c = st.count[p as int] - 1;
            let f = st.eff[p as int] || has_effect[e as int];
            if c == 0 {
                SortRound {
                    list,
                    next: st.next,
                    t0: st.t0,
                    t1: if f { st.t1 } else { st.t1.push(p) },
                    t2: if f { st.t2.push(p) } else { st.t2 },
                    count: st.count.update(p as int, c),
                    eff: st.eff.update(p as int, false),
                }
            } else {
                SortRound {
                    list,
                    next: st.next,
                    t0: st.t0,
                    t1: st.t1,
                    t2: st.t2,
                    count: st.count.update(p as int, c),
                    eff: st.eff.update(p as int, f),
                }
            }
        } else {
            SortRound { list, next: st.next, t0: st.t0, t1: st.t1, t2: st.t2, count: st.count, eff: st.eff }
        },
        None => SortRound { list, next: st.next, t0: st.t0, t1: st.t1, t2: st.t2, count: st.count, eff: st.eff },
    }
}

/// Processing the first `k` passes of `t0` in order.
pub open spec fn sort_drain(parents: Seq<Option<usize>>, has_effect: Seq<bool>, st: SortRound, t0: Seq<usize>, k: int) -> SortRound
    decreases k,
{
    if k <= 0 {
        st
    } else {
        sort_take(parents, has_effect, sort_drain(parents, has_effect, st, t0, k - 1), t0[k - 1])
    }
}

/// One round: all of `t0` is processed; then the ready passes without an
/// effect child take the turn, or, when there is none, a boundary (the
/// length of the order) is recorded and the passes that waited for an
/// effect child take the turn.
pub open spec fn sort_round(parents: Seq<Option<usize>>, has_effect: Seq<bool>, st: SortRound) -> SortRound {
    let d = sort_drain(parents, has_effect, st, st.t0, st.t0.len() as int);
    if d.t1.len() > 0 {
        SortRound { list: d.list, next: d.next, t0: d.t1, t1: Seq::empty(), t2: d.t2, count: d.count, eff: d.eff }
    } else {
        SortRound {
            list: d.list,
            next: d.next.push(d.list.len() as usize),
            t0: d.t2,
            t1: Seq::empty(),
            t2: Seq::empty(),
            count: d.count,
            eff: d.eff,
        }
    }
}

/// Rounds until no pass is ready, at most `fuel` of them.
pub open spec fn sort_rounds(parents: Seq<Option<usize>>, has_effect: Seq<bool>, st: SortRound, fuel: nat) -> SortRound
    decreases fuel,
{
    if fuel == 0 || st.t0.len() == 0 {
        st
    } else {
        sort_rounds(parents, has_effect, sort_round(parents, has_effect, st), (fuel - 1) as nat)
    }
}

/// The start of the sort: the leaves are ready, every pass counts its
/// children, nothing is ordered.
pub open spec fn sort_start(parents: Seq<Option<usize>>, leaves: Seq<usize>) -> SortRound {
    let n = parents.len() as int;
    SortRound {
        list: Seq::empty(),
        next: Seq::empty(),
        t0: leaves,
        t1: Seq::empty(),
        t2: Seq::empty(),
        count: Seq::new(parents.len(), |x: int| num_children(parents, x, n) as int),
        eff: Seq::new(parents.len(), |x: int| false),
    }
}

/// The order of the passes and the boundaries the layered sort produces
/// (every round processes at least one new pass, so `n + 1` rounds always
/// suffice).
pub open spec fn toop_order(parents: Seq<Option<usize>>, has_effect: Seq<bool>, leaves: Seq<usize>) -> (Seq<usize>, Seq<usize>) {
    let r = sort_rounds(parents, has_effect, sort_start(parents, leaves), (parents.len() + 1) as nat);
    (r.list, r.next)
}

/// Whether `x` waits in the frontier: in `t0` from position `k` on, or in
/// `t1` or `t2`.
pub open spec fn in_front(t0: Seq<usize>, k: int, t1: Seq<usize>, t2: Seq<usize>, x: usize) -> bool {
    (exists|a: int| k <= a < t0.len() && t0[a] == x) || t1.contains(x) || t2.contains(x)
}

/// The state of the topological sort while it runs.
pub open spec fn sort_state(
    parents: Seq<Option<usize>>,
    has_effect: Seq<bool>,
    list: Seq<usize>,
    t0: Seq<usize>,
    k: int,
    t1: Seq<usize>,
    t2: Seq<usize>,
    count: Seq<usize>,
    eff: Seq<bool>,
    done: Seq<bool>,
    next: Seq<usize>,
) -> bool {
    let n = parents.len() as int;
    &&& has_effect.len() == n
    &&& done.len() == n
    &&& count.len() == n
    &&& eff.len() == n
    &&& forall|c: int| 0 <= c < n ==> #[trigger] done[c] == list.contains(c as usize)
    &&& no_dup(list) && all_below(list, n)
    &&& no_dup(t0) && all_below(t0, n)
    &&& no_dup(t1) && all_below(t1, n)
    &&& no_dup(t2) && all_below(t2, n)
    &&& 0 <= k <= t0.len()
    &&& forall|a: int| k <= a < t0.len() ==> !done[#[trigger] t0[a] as int]
    &&& forall|a: int| 0 <= a < t1.len() ==> !done[#[trigger] t1[a] as int]
    &&& forall|a: int| 0 <= a < t2.len() ==> !done[#[trigger] t2[a] as int]
    &&& forall|a: int, b: int| k <= a < t0.len() && 0 <= b < t1.len() ==> #[trigger] t0[a] != #[trigger] t1[b]
    &&& forall|a: int, b: int| k <= a < t0.len() && 0 <= b < t2.len() ==> #[trigger] t0[a] != #[trigger] t2[b]
    &&& forall|a: int, b: int| 0 <= a < t1.len() && 0 <= b < t2.len() ==> #[trigger] t1[a] != #[trigger] t2[b]
    &&& forall|x: int| 0 <= x < n ==> #[trigger] count[x] == num_unprocessed(parents, done, x, n)
    &&& forall|x: int| 0 <= x < n ==> ((done[x] || in_front(t0, k, t1, t2, x as usize)) <==> #[trigger] count[x] == 0)
    &&& forall|x: int|
        0 <= x < n ==> #[trigger] eff[x] == (count[x] > 0 && exists|c: int|
            is_child(parents, c, x) && done[c] && #[trigger] has_effect[c])
    &&& forall|b: int| 0 <= b < t2.len() ==> has_effect_child(parents, has_effect, #[trigger] t2[b] as int)
    &&& forall|b: int| 0 <= b < t1.len() ==> !has_effect_child(parents, has_effect, #[trigger] t1[b] as int)
    &&& forall|a: int|
        k <= a < t0.len() && has_effect_child(parents, has_effect, #[trigger] t0[a] as int) ==> boundary_before(
            parents,
            list,
            next,
            t0[a] as int,
            list.len() as int,
        )
    &&& topo_ordered(parents, list)
    &&& boundaries_ok(parents, has_effect, list, next)
    &&& boundaries_sorted(next, list.len() as int)
}

/// Appending `e` to a list adds exactly `e` to what it contains.
proof fn lemma_push_contains(list: Seq<usize>, e: usize)
    ensures
        forall|c: usize| #[trigger] list.push(e).contains(c) <==> (list.contains(c) || c == e),
{
    assert forall|c: usize| #[trigger] list.push(e).contains(c) <==> (list.contains(c) || c == e) by {
        if list.push(e).contains(c) {
            let a = choose|a: int| 0 <= a < list.push(e).len() && list.push(e)[a] == c;
            if a < list.len() {
                assert(list[a] == c);
            }
        }
        if list.contains(c) {
            let a = choose|a: int| 0 <= a < list.len() && list[a] == c;
            assert(list.push(e)[a] == c);
        }
        if c == e {
            assert(list.push(e)[list.len() as int] == c);
        }
    }
}

/// Moves the ready pass `t0[k]` to the end of the order and counts it off its
/// parent; a parent whose last child this was becomes ready.
fn process_ready(
    parents: &Vec<Option<usize>>,
    has_effect: &Vec<bool>,
    list: &mut Vec<usize>,
    t0: &Vec<usize>,
    k: usize,
    t1: &mut Vec<usize>,
    t2: &mut Vec<usize>,
    count: &mut Vec<usize>,
    eff: &mut Vec<bool>,
    Ghost(done): Ghost<Seq<bool>>,
    next: &Vec<usize>,
)
    requires
        sort_state(parents@, has_effect@, old(list)@, t0@, k as int, old(t1)@, old(t2)@, old(count)@, old(eff)@, done, next@),
        k < t0.len(),
    ensures
        sort_state(
            parents@,
            has_effect@,
            final(list)@,
            t0@,
            k + 1,
            final(t1)@,
            final(t2)@,
            final(count)@,
            final(eff)@,
            done.update(t0[k as int] as int, true),
            next@,
        ),
        sort_view(final(list)@, next@, t0@, final(t1)@, final(t2)@, final(count)@, final(eff)@) == sort_take(
            parents@,
            has_effect@,
            sort_view(old(list)@, next@, t0@, old(t1)@, old(t2)@, old(count)@, old(eff)@),
            t0@[k as int],
        ),
{
    let n = parents.len();
    let e = t0[k];
    let ghost done2 = done.update(e as int, true);
    let ghost old_list = list@;
    let ghost old_t1 = t1@;
    let ghost old_t2 = t2@;
    let ghost old_count = count@;
    let ghost old_eff = eff@;
    proof {
        assert forall|x: int| 0 <= x < n implies #[trigger] num_unprocessed(parents@, done2, x, n as int) + (if parents@[e as int] == Some(x as usize) { 1nat } else { 0nat }) == num_unprocessed(parents@, done, x, n as int) by {
            lemma_unprocessed_mark(parents@, done, e as int, x, n as int);
        }
        lemma_push_contains(list@, e);
        // every child of `e` is already processed
        assert(count@[e as int] == 0) by {
            assert(in_front(t0@, k as int, t1@, t2@, e));
        }
        lemma_unprocessed_zero(parents@, done, e as int, n as int);
    }
    match parents[e] {
        Some(x) => {
            if x < n {
                proof {
                    lemma_unprocessed_zero(parents@, done, x as int, n as int);
                    assert(count@[x as int] > 0);
                    assert(!done[x as int]);
                }
                let c = count[x] - 1;
                count.set(x, c);
                let f = eff[x] || has_effect[e];
                eff.set(x, f);
                if c == 0 {
                    proof {
                        lemma_unprocessed_zero(parents@, done2, x as int, n as int);
                    }
                    if !f {
                        t1.push(x);
                    } else {
                        t2.push(x);
                    }
                    eff.set(x, false);
                }
            }
        },
        None => {},
    }
    list.push(e);
    proof {
        let sv = sort_view(list@, next@, t0@, t1@, t2@, count@, eff@);
        let st = sort_take(parents@, has_effect@, sort_view(old_list, next@, t0@, old_t1, old_t2, old_count, old_eff), e);
        assert(sv.count =~= st.count);
        assert(sv.eff =~= st.eff);
        assert(sv.t1 =~= st.t1);
        assert(sv.t2 =~= st.t2);
        assert(sv.list =~= st.list);
        assert(sv == st);
        let nn = n as int;
        let l2 = list@;
        let k2 = k as int + 1;
        assert(forall|c: int| 0 <= c < nn ==> #[trigger] done2[c] == l2.contains(c as usize));
        assert(no_dup(l2));
        assert(all_below(l2, nn));
        assert(no_dup(t1@) && all_below(t1@, nn));
        assert(no_dup(t2@) && all_below(t2@, nn));
        assert(forall|a: int| k2 <= a < t0.len() ==> !done2[#[trigger] t0@[a] as int]);
        assert(forall|a: int| 0 <= a < t1.len() ==> !done2[#[trigger] t1@[a] as int]);
        assert(forall|a: int| 0 <= a < t2.len() ==> !done2[#[trigger] t2@[a] as int]);
        assert(forall|a: int, b: int| k2 <= a < t0.len() && 0 <= b < t1.len() ==> #[trigger] t0@[a] != #[trigger] t1@[b]);
        assert(forall|a: int, b: int| k2 <= a < t0.len() && 0 <= b < t2.len() ==> #[trigger] t0@[a] != #[trigger] t2@[b]);
        assert(forall|a: int, b: int| 0 <= a < t1.len() && 0 <= b < t2.len() ==> #[trigger] t1@[a] != #[trigger] t2@[b]);
        assert(forall|x: int| 0 <= x < nn ==> #[trigger] count@[x] == num_unprocessed(parents@, done2, x, nn));
        lemma_push_contains(old_t1, parents@[e as int].unwrap_or(0));
        lemma_push_contains(old_t2, parents@[e as int].unwrap_or(0));
        assert forall|x: int| 0 <= x < nn implies ((done2[x] || in_front(t0@, k2, t1@, t2@, x as usize)) <==> #[trigger] count@[x] == 0) by {
            let xu = x as usize;
            if x == e as int {
                assert(done2[x]);
                assert(parents@[e as int] != Some(e));
            } else {
                assert(done2[x] == done[x]);
                let pushed = count@[x] != old_count[x] && count@[x] == 0;
                if in_front(t0@, k as int, old_t1, old_t2, xu) {
                    if exists|a: int| k <= a < t0.len() && t0@[a] == xu {
                        let a = choose|a: int| k <= a < t0.len() && t0@[a] == xu;
                        assert(a != k as int);
                        assert(in_front(t0@, k2, t1@, t2@, xu));
                    } else if old_t1.contains(xu) {
                        assert(t1@.contains(xu));
                    } else {
                        assert(t2@.contains(xu));
                    }
                }
                if in_front(t0@, k2, t1@, t2@, xu) {
                    if exists|a: int| k2 <= a < t0.len() && t0@[a] == xu {
                        let a = choose|a: int| k2 <= a < t0.len() && t0@[a] == xu;
                        assert(in_front(t0@, k as int, old_t1, old_t2, xu));
                    }
                }
            }
        }
        assert(forall|x: int|
            0 <= x < nn ==> #[trigger] eff@[x] == (count@[x] > 0 && exists|c: int|
                is_child(parents@, c, x) && done2[c] && #[trigger] has_effect@[c]));
        assert(forall|b: int| 0 <= b < t2.len() ==> has_effect_child(parents@, has_effect@, #[trigger] t2@[b] as int));
        assert(forall|b: int| 0 <= b < t1.len() ==> !has_effect_child(parents@, has_effect@, #[trigger] t1@[b] as int));
        assert(forall|a: int|
            k2 <= a < t0.len() && has_effect_child(parents@, has_effect@, #[trigger] t0@[a] as int) ==> boundary_before(
                parents@, l2, next@, t0@[a] as int, l2.len() as int));
        assert(topo_ordered(parents@, l2));
        assert(boundaries_ok(parents@, has_effect@, l2, next@));
        assert(boundaries_sorted(next@, l2.len() as int));
    }
}

/// A drained `t0` hands the turn to the ready passes without effect child.
proof fn lemma_release_plain(
    parents: Seq<Option<usize>>,
    has_effect: Seq<bool>,
    list: Seq<usize>,
    t0: Seq<usize>,
    t1: Seq<usize>,
    t2: Seq<usize>,
    count: Seq<usize>,
    eff: Seq<bool>,
    done: Seq<bool>,
    next: Seq<usize>,
)
    requires
        sort_state(parents, has_effect, list, t0, t0.len() as int, t1, t2, count, eff, done, next),
    ensures
        sort_state(parents, has_effect, list, t1, 0, Seq::empty(), t2, count, eff, done, next),
{
    let n = parents.len() as int;
    assert forall|x: int| 0 <= x < n implies ((done[x] || in_front(t1, 0, Seq::empty(), t2, x as usize)) <==> #[trigger] count[x] == 0) by {
        let xu = x as usize;
        if in_front(t0, t0.len() as int, t1, t2, xu) {
            if t1.contains(xu) {
                let a = choose|a: int| 0 <= a < t1.len() && t1[a] == xu;
                assert(in_front(t1, 0, Seq::empty(), t2, xu));
            }
        }
        if in_front(t1, 0, Seq::empty(), t2, xu) {
            if exists|a: int| 0 <= a < t1.len() && t1[a] == xu {
                let a = choose|a: int| 0 <= a < t1.len() && t1[a] == xu;
                assert(t1.contains(xu));
            }
            assert(in_front(t0, t0.len() as int, t1, t2, xu));
        }
    }
}

/// With no plain ready pass left, a boundary is recorded and the passes that
/// waited for an effect child take the turn.
proof fn lemma_release_effect(
    parents: Seq<Option<usize>>,
    has_effect: Seq<bool>,
    list: Seq<usize>,
    t0: Seq<usize>,
    t2: Seq<usize>,
    count: Seq<usize>,
    eff: Seq<bool>,
    done: Seq<bool>,
    next: Seq<usize>,
)
    requires
        sort_state(parents, has_effect, list, t0, t0.len() as int, Seq::empty(), t2, count, eff, done, next),
        list.len() <= usize::MAX,
    ensures
        sort_state(parents, has_effect, list, t2, 0, Seq::empty(), Seq::empty(), count, eff, done, next.push(list.len() as usize)),
{
    let n = parents.len() as int;
    let next2 = next.push(list.len() as usize);
    let j = next.len() as int;
    assert(next2[j] == list.len());
    assert forall|x: int| 0 <= x < n implies ((done[x] || in_front(t2, 0, Seq::empty(), Seq::empty(), x as usize)) <==> #[trigger] count[x] == 0) by {
        let xu = x as usize;
        if in_front(t0, t0.len() as int, Seq::empty(), t2, xu) {
            if t2.contains(xu) {
                let a = choose|a: int| 0 <= a < t2.len() && t2[a] == xu;
                assert(in_front(t2, 0, Seq::empty(), Seq::empty(), xu));
            }
        }
        if in_front(t2, 0, Seq::empty(), Seq::empty(), xu) {
            if exists|a: int| 0 <= a < t2.len() && t2[a] == xu {
                let a = choose|a: int| 0 <= a < t2.len() && t2[a] == xu;
                assert(t2.contains(xu));
            }
            assert(in_front(t0, t0.len() as int, Seq::empty(), t2, xu));
        }
    }
    assert forall|a: int|
        0 <= a < t2.len() && has_effect_child(parents, has_effect, #[trigger] t2[a] as int) implies boundary_before(
            parents,
            list,
            next2,
            t2[a] as int,
            list.len() as int,
        ) by {
        assert(forall|b: int| 0 <= b < list.len() && is_child(parents, #[trigger] list[b] as int, t2[a] as int) ==> b < next2[j]);
    }
    assert forall|k: int|
        0 <= k < list.len() && has_effect_child(parents, has_effect, #[trigger] list[k] as int) implies boundary_before(
            parents,
            list,
            next2,
            list[k] as int,
            k,
        ) by {
        assert(boundary_before(parents, list, next, list[k] as int, k));
        let i = choose|i: int|
            0 <= i < next.len() && next[i] <= k && forall|a: int|
                0 <= a < list.len() && is_child(parents, #[trigger] list[a] as int, list[k] as int) ==> a < next[i];
        assert(next2[i] == next[i]);
    }
    assert(boundaries_ok(parents, has_effect, list, next2));
}

proof fn lemma_num_open_le(done: Seq<bool>, i: int)
    requires
        0 <= i,
    ensures
        num_open(done, i) <= i,
    decreases i,
{
    if i > 0 {
        lemma_num_open_le(done, i - 1);
    }
}

/// Orders the passes so that every pass comes after all its child passes.
///
/// Processing starts from the leaves; a pass becomes ready once its last
/// child is processed.  Ready passes none of whose children has a
/// post-process effect are processed first; when none is left, the current
/// length of the order is recorded in the second result (a boundary: the
/// passes before it must be rendered before the passes after it) and the
/// passes that wait for an effect child are released.
pub fn calc_pass_toop_sort(
    parents: &Vec<Option<usize>>,
    has_effect: &Vec<bool>,
    children: &Vec<Vec<usize>>,
    leaves: Vec<usize>,
) -> (r: (Vec<usize>, Vec<usize>))
    requires
        has_effect.len() == parents.len(),
        children_wf(parents@, children.deep_view()),
        leaves_wf(parents@, leaves@),
    ensures
        no_dup(r.0@),
        all_below(r.0@, parents.len() as int),
        topo_ordered(parents@, r.0@),
        boundaries_ok(parents@, has_effect@, r.0@, r.1@),
        boundaries_sorted(r.1@, r.0.len() as int),
        is_forest(parents@) ==> forall|x: usize| x < parents.len() ==> #[trigger] r.0@.contains(x),
        (r.0@, r.1@) == toop_order(parents@, has_effect@, leaves@),
{
    let n = parents.len();
    let mut count: Vec<usize> = Vec::new();
    let mut eff: Vec<bool> = Vec::new();
    let mut i: usize = 0;
    while i < n
        invariant
            n == parents.len(),
            children.len() == n,
            children_wf(parents@, children.deep_view()),
            i <= n,
            count.len() == i,
            eff.len() == i,
            forall|x: int| 0 <= x < i ==> #[trigger] count[x] == num_children(parents@, x, n as int),
            forall|x: int| 0 <= x < i ==> !#[trigger] eff[x],
        decreases n - i,
    {
        assert(children.deep_view()[i as int].len() == children[i as int]@.len());
        count.push(children[i].len());
        eff.push(false);
        i = i + 1;
    }
    let mut list: Vec<usize> = Vec::new();
    let mut next: Vec<usize> = Vec::new();
    let mut t0: Vec<usize> = leaves;
    let mut t1: Vec<usize> = Vec::new();
    let mut t2: Vec<usize> = Vec::new();
    let ghost mut done: Seq<bool> = Seq::new(n as nat, |c: int| false);
    let ghost start = sort_start(parents@, leaves@);
    let ghost mut fuel: nat = (n + 1) as nat;
    proof {
        let v = sort_view(list@, next@, t0@, t1@, t2@, count@, eff@);
        assert(v.count =~= start.count);
        assert(v.eff =~= start.eff);
        assert(v.list =~= start.list);
        assert(v.next =~= start.next);
        assert(v.t1 =~= start.t1);
        assert(v.t2 =~= start.t2);
        assert(v == start);
        lemma_num_open_le(done, n as int);
    }
    proof {
        assert forall|x: int| 0 <= x < n implies #[trigger] count[x] == num_unprocessed(parents@, done, x, n as int) by {
            lemma_children_unprocessed(parents@, done, x, n as int);
        }
        assert forall|x: int| 0 <= x < n implies ((done[x] || in_front(t0@, 0, t1@, t2@, x as usize)) <==> #[trigger] count[x] == 0) by {
            if count[x] == 0 {
                assert(t0@.contains(x as usize));
                let a = choose|a: int| 0 <= a < t0.len() && t0@[a] == x as usize;
                assert(in_front(t0@, 0, t1@, t2@, x as usize));
            }
            if in_front(t0@, 0, t1@, t2@, x as usize) {
                let a = choose|a: int| 0 <= a < t0.len() && t0@[a] == x as usize;
            }
        }
        assert forall|a: int| 0 <= a < t0.len() implies !has_effect_child(parents@, has_effect@, #[trigger] t0@[a] as int) by {
            lemma_num_children_zero(parents@, t0@[a] as int, n as int);
        }
    }
    while t0.len() > 0
        invariant
            n == parents.len(),
            sort_state(parents@, has_effect@, list@, t0@, 0, t1@, t2@, count@, eff@, done, next@),
            t1.len() == 0,
            t0.len() == 0 ==> t2.len() == 0,
            fuel > num_open(done, n as int),
            sort_rounds(parents@, has_effect@, sort_view(list@, next@, t0@, t1@, t2@, count@, eff@), fuel)
                == sort_rounds(parents@, has_effect@, start, (n + 1) as nat),
        decreases num_open(done, n as int),
    {
        let mut k: usize = 0;
        let ghost open_before = num_open(done, n as int);
        let ghost round_start = sort_view(list@, next@, t0@, t1@, t2@, count@, eff@);
        while k < t0.len()
            invariant
                n == parents.len(),
                sort_state(parents@, has_effect@, list@, t0@, k as int, t1@, t2@, count@, eff@, done, next@),
                k == 0 || num_open(done, n as int) < open_before,
                num_open(done, n as int) <= open_before,
                round_start.t0 == t0@,
                sort_view(list@, next@, t0@, t1@, t2@, count@, eff@) == sort_drain(
                    parents@,
                    has_effect@,
                    round_start,
                    t0@,
                    k as int,
                ),
            decreases t0.len() - k,
        {
            let e = t0[k];
            process_ready(parents, has_effect, &mut list, &t0, k, &mut t1, &mut t2, &mut count, &mut eff, Ghost(done), &next);
            proof {
                lemma_open_mark(done, e as int, n as int);
                done = done.update(e as int, true);
            }
            k = k + 1;
        }
        proof {
            assert(t0@.len() > 0);
        }
        let ghost t0_drained = t0@;
        let ghost drained = sort_view(list@, next@, t0@, t1@, t2@, count@, eff@);
        t0.clear();
        if t1.len() > 0 {
            proof {
                lemma_release_plain(parents@, has_effect@, list@, t0_drained, t1@, t2@, count@, eff@, done, next@);
            }
            std::mem::swap(&mut t0, &mut t1);
        } else {
            let l = list.len();
            proof {
                assert(t1@ =~= Seq::<usize>::empty());
                lemma_release_effect(parents@, has_effect@, list@, t0_drained, t2@, count@, eff@, done, next@);
            }
            next.push(l);
            std::mem::swap(&mut t0, &mut t2);
        }
        proof {
            let v = sort_view(list@, next@, t0@, t1@, t2@, count@, eff@);
            let rr = sort_round(parents@, has_effect@, round_start);
            assert(drained == sort_drain(parents@, has_effect@, round_start, round_start.t0, round_start.t0.len() as int));
            assert(v.t0 =~= rr.t0);
            assert(v.t1 =~= rr.t1);
            assert(v.t2 =~= rr.t2);
            assert(v.next =~= rr.next);
            assert(v == rr);
            fuel = (fuel - 1) as nat;
        }
    }
    proof {
        let v = sort_view(list@, next@, t0@, t1@, t2@, count@, eff@);
        assert(sort_rounds(parents@, has_effect@, v, fuel) == v);
    }
    proof {
        if is_forest(parents@) {
            assert forall|x: usize| x < parents.len() implies #[trigger] list@.contains(x) by {
                if !done[x as int] {
                    lemma_ready_below(parents@, done, x as int);
                    let y = choose|y: int|
                        0 <= y < parents.len() && !done[y] && #[trigger] num_unprocessed(
                            parents@,
                            done,
                            y,
                            parents.len() as int,
                        ) == 0;
                    assert(count@[y] == 0);
                    assert(!in_front(t0@, 0, t1@, t2@, y as usize));
                }
                assert(done[x as int]);
            }
        }
    }
    (list, next)
}

} // verus!

verus! {

/// The first pass on the chain of parents from `i` (included) whose flag is
/// set; `None` when the chain leaves the passes first.
pub open spec fn first_flagged(parents: Seq<Option<usize>>, flags: Seq<bool>, i: int, fuel: nat) -> Option<int>
    decreases fuel,
{
    if fuel == 0 || i < 0 || i >= parents.len() {
        None
    } else if flags[i] {
        Some(i)
    } else {
        match parents[i] {
            None => None,
            Some(p) => first_flagged(parents, flags, p as int, (fuel - 1) as nat),
        }
    }
}

proof fn lemma_first_flagged_range(parents: Seq<Option<usize>>, flags: Seq<bool>, i: int, f: nat)
    ensures
        first_flagged(parents, flags, i, f) matches Some(j) ==> 0 <= j < parents.len() && flags[j],
    decreases f,
{
    if f > 0 && 0 <= i < parents.len() && !flags[i] {
        if let Some(p) = parents[i] {
            lemma_first_flagged_range(parents, flags, p as int, (f - 1) as nat);
        }
    }
}

proof fn lemma_first_flagged_fuel(parents: Seq<Option<usize>>, flags: Seq<bool>, i: int, f: nat, g: nat)
    requires
        0 <= i < parents.len(),
        reaches_top(parents, i, f),
        f <= g,
    ensures
        first_flagged(parents, flags, i, f) == first_flagged(parents, flags, i, g),
    decreases f,
{
    match parents[i] {
        None => {},
        Some(p) => {
            if p < parents.len() {
                lemma_first_flagged_fuel(parents, flags, p as int, (f - 1) as nat, (g - 1) as nat);
            }
        },
    }
}

/// Walks up from pass `start` to the first pass whose flag is set.
pub fn find_flagged_ancestor(parents: &Vec<Option<usize>>, flags: &Vec<bool>, start: usize) -> (r: Option<usize>)
    requires
        flags.len() == parents.len(),
        start < parents.len() ==> reaches_top(parents@, start as int, parents.len() as nat),
    ensures
        r == (match first_flagged(parents@, flags@, start as int, parents.len() as nat) {
            Some(i) => Some(i as usize),
            None => None,
        }),
        r matches Some(i) ==> i < parents.len() && flags[i as int],
{
    let n = parents.len();
    let mut cur = start;
    while cur < n && !flags[cur]
        invariant
            n == parents.len(),
            flags.len() == n,
            cur < n ==> reaches_top(parents@, cur as int, n as nat),
            first_flagged(parents@, flags@, start as int, n as nat) == first_flagged(parents@, flags@, cur as int, n as nat),
        decreases (if cur < n { root_dist(parents@, cur as int, n as nat) + 1 } else { 0 }),
    {
        match parents[cur] {
            None => {
                return None;
            },
            Some(p) => {
                proof {
                    assert(reaches_top(parents@, cur as int, n as nat));
                    assert(first_flagged(parents@, flags@, cur as int, n as nat) == first_flagged(parents@, flags@, p as int, (n - 1) as nat));
                    if p < n {
                        assert(reaches_top(parents@, p as int, (n - 1) as nat));
                        assert(root_dist(parents@, cur as int, n as nat) == 1 + root_dist(parents@, p as int, (n - 1) as nat));
                        lemma_reaches_mono(parents@, p as int, (n - 1) as nat, n as nat);
                        lemma_first_flagged_fuel(parents@, flags@, p as int, (n - 1) as nat, n as nat);
                    }
                }
                cur = p;
            },
        }
    }
    if cur < n {
        Some(cur)
    } else {
        None
    }
}

/// Whether the chain of parents from pass `start` leaves the passes or ends
/// at a root within as many steps as there are passes (it runs in no cycle).
pub fn chain_ends(parents: &Vec<Option<usize>>, start: usize) -> (r: bool)
    ensures
        r == (start < parents.len() ==> reaches_top(parents@, start as int, parents.len() as nat)),
{
    let n = parents.len();
    if start >= n {
        return true;
    }
    let mut cur = start;
    let mut fuel = n;
    loop
        invariant
            n == parents.len(),
            start < n,
            cur < n,
            reaches_top(parents@, start as int, n as nat) == reaches_top(parents@, cur as int, fuel as nat),
        decreases fuel,
    {
        if fuel == 0 {
            return false;
        }
        match parents[cur] {
            None => {
                return true;
            },
            Some(p) => {
                if p >= n {
                    return true;
                }
                cur = p;
                fuel = fuel - 1;
            },
        }
    }
}

/// The graph node a pass renders into: the graph node of the first pass, from
/// `parent_id` up, that has one (`None` when no pass on the way has one).
pub fn get_to(parent_id: usize, parents: &Vec<Option<usize>>, graph_ids: &Vec<Option<usize>>) -> (r: Option<usize>)
    requires
        graph_ids.len() == parents.len(),
        parent_id < parents.len() ==> reaches_top(parents@, parent_id as int, parents.len() as nat),
    ensures
        r == (match first_flagged(parents@, graph_ids@.map_values(|g: Option<usize>| g is Some), parent_id as int, parents.len() as nat) {
            Some(i) => graph_ids@[i],
            None => None,
        }),
{
    let n = parents.len();
    let mut flags: Vec<bool> = Vec::new();
    let mut i: usize = 0;
    while i < n
        invariant
            n == parents.len(),
            graph_ids.len() == n,
            i <= n,
            flags@ == graph_ids@.subrange(0, i as int).map_values(|g: Option<usize>| g is Some),
        decreases n - i,
    {
        flags.push(graph_ids[i].is_some());
        i = i + 1;
        proof {
            assert(flags@ =~= graph_ids@.subrange(0, i as int).map_values(|g: Option<usize>| g is Some));
        }
    }
    proof {
        assert(graph_ids@.subrange(0, n as int) =~= graph_ids@);
        assert(flags@ == graph_ids@.map_values(|g: Option<usize>| g is Some));
    }
    let found = find_flagged_ancestor(parents, &flags, parent_id);
    proof {
        let f = first_flagged(parents@, graph_ids@.map_values(|g: Option<usize>| g is Some), parent_id as int, n as nat);
        assert(first_flagged(parents@, flags@, parent_id as int, n as nat) == f);
        lemma_first_flagged_range(parents@, flags@, parent_id as int, n as nat);
        if let Some(i) = found {
            assert(f is Some);
            assert(f->0 == i as int);
        }
    }
    match found {
        Some(i) => graph_ids[i],
        None => None,
    }
}

} // verus!

verus! {

/// The dirty marks after marking pass `i` and its ancestors dirty, stopping
/// at the first pass already marked or when the chain leaves the passes.
pub open spec fn mark_up(parents: Seq<Option<usize>>, marks: Seq<bool>, i: int) -> Seq<bool>
    decreases num_open(marks, marks.len() as int),
{
    if 0 <= i < marks.len() && i < parents.len() && !marks[i] {
        proof {
            lemma_open_mark(marks, i, marks.len() as int);
        }
        match parents[i] {
            None => marks.update(i, true),
            Some(p) => mark_up(parents, marks.update(i, true), p as int),
        }
    } else {
        marks
    }
}

/// Marks pass `start` dirty together with its ancestors, up to the first one
/// already dirty (whose own ancestors are then dirty as well).
pub fn mark_dirty_up(parents: &Vec<Option<usize>>, dirty_marks: &mut Vec<bool>, start: Option<usize>)
    requires
        old(dirty_marks).len() == parents.len(),
    ensures
        final(dirty_marks)@ == (match start {
            Some(s) => mark_up(parents@, old(dirty_marks)@, s as int),
            None => old(dirty_marks)@,
        }),
{
    let n = parents.len();
    let mut cur = match start {
        Some(s) => s,
        None => {
            return;
        },
    };
    let ghost target = mark_up(parents@, dirty_marks@, cur as int);
    assert(target == mark_up(parents@, old(dirty_marks)@, start->0 as int));
    while cur < n && !dirty_marks[cur]
        invariant
            n == parents.len(),
            dirty_marks.len() == n,
            mark_up(parents@, dirty_marks@, cur as int) == target,
        decreases num_open(dirty_marks@, n as int),
    {
        proof {
            lemma_open_mark(dirty_marks@, cur as int, n as int);
        }
        let ghost before = dirty_marks@;
        dirty_marks.set(cur, true);
        proof {
            assert(mark_up(parents@, before, cur as int) == match parents@[cur as int] {
                None => dirty_marks@,
                Some(p) => mark_up(parents@, dirty_marks@, p as int),
            });
        }
        match parents[cur] {
            None => {
                cur = n;
            },
            Some(p) => {
                cur = p;
            },
        }
    }
    proof {
        assert(mark_up(parents@, dirty_marks@, cur as int) == dirty_marks@);
        assert(dirty_marks@ == target);
    }
}

} // verus!
