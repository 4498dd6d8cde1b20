//! Render lists of the passes.
//!
//! Every pass collects the things drawn into it: the draw objects of its
//! nodes and the child passes rendered into it.  The collected entries are
//! ordered by depth, then by draw order, and split into an opaque and a
//! transparent list; then depth slots are handed out in drawing order.

use vstd::prelude::*;
use crate::pass_tree::{is_forest, reaches_top, root_dist, lemma_child_dist, lemma_reaches_mono};

verus! {

/// What an entry of a render list draws: a draw object, or a whole pass.
#[derive(Clone, Copy, Debug, PartialEq, Eq, Structural)]
pub enum DrawIndex {
    DrawObj(usize),
    Pass2D(usize),
}

/// Draw order within one depth, and whether the drawing is opaque.
#[derive(Clone, Copy, Debug, PartialEq, Eq, Structural)]
pub struct DrawInfo {
    pub order: u32,
    pub is_opacity: bool,
}

impl DrawInfo {
    pub fn new(order: u32, is_opacity: bool) -> (r: Self)
        ensures
            r.order == order,
            r.is_opacity == is_opacity,
    {
        DrawInfo { order, is_opacity }
    }
}

/// One entry of a render list: what is drawn, the start of its depth range,
/// and its draw information.
#[derive(Clone, Copy, Debug, PartialEq, Eq, Structural)]
pub struct DrawEntry {
    pub index: DrawIndex,
    pub z_start: usize,
    pub info: DrawInfo,
}

/// The render lists of one pass.
pub struct Draw2DList {
    pub all_list: Vec<DrawEntry>,
    pub opaque: Vec<DrawIndex>,
    pub transparent: Vec<DrawIndex>,
}

/// `a` is drawn before `b`: a lower depth first, then a lower draw order.
pub open spec fn draws_before(a: DrawEntry, b: DrawEntry) -> bool {
    a.z_start < b.z_start || (a.z_start == b.z_start && a.info.order < b.info.order)
}

/// `a` and `b` share depth and draw order.
pub open spec fn same_rank(a: DrawEntry, b: DrawEntry) -> bool {
    a.z_start == b.z_start && a.info.order == b.info.order
}

/// The entry at position `i` of `s` comes before the one at `j`: it is drawn
/// before it, or it has the same rank and stands earlier.
pub open spec fn ordered_at(s: Seq<DrawEntry>, i: usize, j: usize) -> bool {
    draws_before(s[i as int], s[j as int]) || (same_rank(s[i as int], s[j as int]) && i < j)
}

/// `perm` lists the positions of `s` in drawing order; entries of the same
/// rank keep their order in `s`.
pub open spec fn is_draw_order(s: Seq<DrawEntry>, perm: Seq<usize>) -> bool {
    &&& perm.len() == s.len()
    &&& forall|k: int| 0 <= k < perm.len() ==> #[trigger] perm[k] < s.len()
    &&& forall|a: int, b: int|
        #![trigger perm[a], perm[b]]
        0 <= a < b < perm.len() ==> ordered_at(s, perm[a], perm[b])
}

/// `t` is `s` sorted stably into drawing order.
pub open spec fn stably_sorted(s: Seq<DrawEntry>, t: Seq<DrawEntry>) -> bool {
    exists|perm: Seq<usize>|
        #![trigger is_draw_order(s, perm)]
        is_draw_order(s, perm) && t == perm.map_values(|i: usize| s[i as int])
}

/// The indices of the entries of `s` whose opacity is `opaque`, in order.
pub open spec fn pick(s: Seq<DrawEntry>, opaque: bool) -> Seq<DrawIndex>
    decreases s.len(),
{
    if s.len() == 0 {
        Seq::empty()
    } else {
        let p = pick(s.drop_last(), opaque);
        if s.last().info.is_opacity == opaque {
            p.push(s.last().index)
        } else {
            p
        }
    }
}

impl DrawEntry {
    /// Whether `self` is drawn before `other`.
    pub fn draws_before(&self, other: &DrawEntry) -> (r: bool)
        ensures
            r == draws_before(*self, *other),
    {
        self.z_start < other.z_start || (self.z_start == other.z_start && self.info.order
            < other.info.order)
    }
}

/// The positions of `s` in drawing order (ties keep their order in `s`).
pub fn draw_order(s: &Vec<DrawEntry>) -> (perm: Vec<usize>)
    ensures
        is_draw_order(s@, perm@),
{
    let n = s.len();
    let mut perm: Vec<usize> = Vec::new();
    let mut i: usize = 0;
    while i < n
        invariant
            n == s.len(),
            i <= n,
            perm.len() == i,
            forall|k: int| 0 <= k < perm.len() ==> #[trigger] perm[k] < i,
            forall|a: int, b: int|
                #![trigger perm[a], perm[b]]
                0 <= a < b < perm.len() ==> ordered_at(s@, perm[a], perm[b]),
        decreases n - i,
    {
        let mut pos: usize = 0;
        loop
            invariant
                n == s.len(),
                i < n,
                perm.len() == i,
                pos <= perm.len(),
                forall|k: int| 0 <= k < perm.len() ==> #[trigger] perm[k] < i,
                forall|k: int| 0 <= k < pos ==> !draws_before(s@[i as int], #[trigger] s@[perm[k] as int]),
            ensures
                pos <= perm.len(),
                forall|k: int| 0 <= k < pos ==> !draws_before(s@[i as int], #[trigger] s@[perm[k] as int]),
                pos < perm.len() ==> draws_before(s@[i as int], s@[perm[pos as int] as int]),
            decreases perm.len() - pos,
        {
            if pos >= perm.len() {
                break;
            }
            if s[i].draws_before(&s[perm[pos]]) {
                break;
            }
            pos = pos + 1;
        }
        proof {
            assert forall|k: int| pos <= k < perm.len() implies draws_before(
                s@[i as int],
                #[trigger] s@[perm[k] as int],
            ) by {
                if k > pos {
                    assert(ordered_at(s@, perm[pos as int], perm[k]));
                }
            }
        }
        let ghost old_perm = perm@;
        perm.insert(pos, i);
        proof {
            assert forall|a: int, b: int| 0 <= a < b < perm.len() implies #[trigger] ordered_at(
                s@,
                perm[a],
                perm[b],
            ) by {
                if a < pos && b < pos {
                    assert(perm[a] == old_perm[a] && perm[b] == old_perm[b]);
                } else if a < pos && b == pos {
                    assert(perm[a] == old_perm[a]);
                    assert(!draws_before(s@[i as int], s@[old_perm[a] as int]));
                } else if a < pos {
                    assert(perm[a] == old_perm[a] && perm[b] == old_perm[b - 1]);
                } else if a == pos {
                    assert(perm[b] == old_perm[b - 1]);
                    assert(draws_before(s@[i as int], s@[old_perm[b - 1] as int]));
                } else {
                    assert(perm[a] == old_perm[a - 1] && perm[b] == old_perm[b - 1]);
                }
            }
        }
        i = i + 1;
    }
    perm
}

/// Sorts the collected entries of a pass into drawing order (stable) and
/// splits them into the opaque and the transparent list.
pub fn sort_and_split(list: &mut Draw2DList)
    ensures
        stably_sorted(old(list).all_list@, final(list).all_list@),
        final(list).opaque@ == pick(final(list).all_list@, true),
        final(list).transparent@ == pick(final(list).all_list@, false),
{
    let perm = draw_order(&list.all_list);
    let n = list.all_list.len();
    let mut sorted: Vec<DrawEntry> = Vec::new();
    let mut k: usize = 0;
    while k < n
        invariant
            n == list.all_list.len(),
            is_draw_order(list.all_list@, perm@),
            k <= n,
            sorted@ == perm@.take(k as int).map_values(|i: usize| list.all_list@[i as int]),
        decreases n - k,
    {
        let e = list.all_list[perm[k]];
        proof {
            assert(perm@.take(k + 1) == perm@.take(k as int).push(perm@[k as int]));
        }
        sorted.push(e);
        k = k + 1;
    }
    proof {
        assert(perm@.take(n as int) == perm@);
        assert(stably_sorted(list.all_list@, sorted@));
    }
    list.all_list = sorted;
    let mut opaque: Vec<DrawIndex> = Vec::new();
    let mut transparent: Vec<DrawIndex> = Vec::new();
    let mut k: usize = 0;
    while k < n
        invariant
            n == list.all_list.len(),
            k <= n,
            opaque@ == pick(list.all_list@.take(k as int), true),
            transparent@ == pick(list.all_list@.take(k as int), false),
        decreases n - k,
    {
        let e = list.all_list[k];
        proof {
            let t = list.all_list@.take(k + 1);
            assert(t.drop_last() == list.all_list@.take(k as int));
            assert(t.last() == e);
        }
        if e.info.is_opacity {
            opaque.push(e.index);
        } else {
            transparent.push(e.index);
        }
        k = k + 1;
    }
    proof {
        assert(list.all_list@.take(n as int) == list.all_list@);
    }
    list.opaque = opaque;
    list.transparent = transparent;
}

/// One drawing node: its entity, the pass it renders into, its draw objects
/// with their draw information, the start of its depth range, whether it is
/// shown and whether its quad meets the dirty area of its pass.
pub struct NodeDraws {
    pub entity: usize,
    pub in_pass: usize,
    pub draws: Vec<(usize, DrawInfo)>,
    pub z_start: usize,
    pub visible: bool,
    pub in_dirty_rect: bool,
}

/// Whether entity `p` owns a pass.
pub open spec fn is_pass_at(is_pass: Seq<bool>, p: int) -> bool {
    0 <= p < is_pass.len() && is_pass[p]
}

/// The entries a node puts into its own pass: its draw objects, when it has
/// some, is shown and meets the dirty area.
pub open spec fn node_entries(node: NodeDraws) -> Seq<DrawEntry> {
    if node.draws@.len() > 0 && node.visible && node.in_dirty_rect {
        node.draws@.map_values(
            |d: (usize, DrawInfo)|
                DrawEntry { index: DrawIndex::DrawObj(d.0), z_start: node.z_start, info: d.1 },
        )
    } else {
        Seq::empty()
    }
}

/// The entry a node puts into the parent of its pass.
pub open spec fn pass_entry(node: NodeDraws) -> DrawEntry {
    DrawEntry {
        index: DrawIndex::Pass2D(node.entity),
        z_start: node.z_start,
        info: DrawInfo { order: 10, is_opacity: false },
    }
}

/// What visiting `node` appends to the list of pass `e`.
pub open spec fn node_adds(
    node: NodeDraws,
    is_pass: Seq<bool>,
    parents: Seq<Option<usize>>,
    e: int,
) -> Seq<DrawEntry> {
    let ip = node.in_pass as int;
    if !is_pass_at(is_pass, ip) {
        Seq::empty()
    } else {
        let own = if ip == e {
            node_entries(node)
        } else {
            Seq::empty()
        };
        match parents[ip] {
            Some(q) => if is_pass_at(is_pass, q as int) && q == e {
                own.push(pass_entry(node))
            } else {
                own
            },
            None => own,
        }
    }
}

/// What visiting the first `k` nodes appends to the list of pass `e`.
pub open spec fn gathered(
    nodes: Seq<NodeDraws>,
    is_pass: Seq<bool>,
    parents: Seq<Option<usize>>,
    e: int,
    k: int,
) -> Seq<DrawEntry>
    decreases k,
{
    if k <= 0 {
        Seq::empty()
    } else {
        gathered(nodes, is_pass, parents, e, k - 1) + node_adds(nodes[k - 1], is_pass, parents, e)
    }
}

/// The collected entries of every list.
pub open spec fn all_lists(lists: Seq<Draw2DList>) -> Seq<Seq<DrawEntry>> {
    lists.map_values(|l: Draw2DList| l.all_list@)
}

fn push_entry(lists: &mut Vec<Draw2DList>, p: usize, entry: DrawEntry)
    requires
        p < old(lists).len(),
    ensures
        final(lists).len() == old(lists).len(),
        forall|e: int|
            0 <= e < final(lists).len() && e != p ==> #[trigger] final(lists)@[e] == old(lists)@[e],
        final(lists)@[p as int].all_list@ == old(lists)@[p as int].all_list@.push(entry),
        final(lists)@[p as int].opaque@ == old(lists)@[p as int].opaque@,
        final(lists)@[p as int].transparent@ == old(lists)@[p as int].transparent@,
{
    lists[p].all_list.push(entry);
}

/// Puts the draw objects of a node into its pass, and the node itself into
/// the parent of that pass.
pub fn gather_node(
    lists: &mut Vec<Draw2DList>,
    is_pass: &Vec<bool>,
    parents: &Vec<Option<usize>>,
    node: &NodeDraws,
)
    requires
        old(lists).len() == is_pass.len(),
        parents.len() == is_pass.len(),
    ensures
        final(lists).len() == old(lists).len(),
        forall|e: int|
            0 <= e < final(lists).len() ==> #[trigger] final(lists)@[e].all_list@ == old(
                lists,
            )@[e].all_list@ + node_adds(*node, is_pass@, parents@, e),
        forall|e: int|
            0 <= e < final(lists).len() ==> #[trigger] final(lists)@[e].opaque@ == old(
                lists,
            )@[e].opaque@ && final(lists)@[e].transparent@ == old(lists)@[e].transparent@,
{
    let n = lists.len();
    let ip = node.in_pass;
    if ip >= n || !is_pass[ip] {
        assert forall|e: int| 0 <= e < lists.len() implies #[trigger] lists@[e].all_list@
            == old(lists)@[e].all_list@ + node_adds(*node, is_pass@, parents@, e) by {
            assert(lists@[e].all_list@ + Seq::<DrawEntry>::empty() == lists@[e].all_list@);
        }
        return ;
    }
    let ghost start = lists@;
    if node.draws.len() > 0 && node.visible && node.in_dirty_rect {
        let mut j: usize = 0;
        while j < node.draws.len()
            invariant
                lists.len() == n,
                ip < n,
                node.draws@.len() > 0 && node.visible && node.in_dirty_rect,
                j <= node.draws.len(),
                forall|e: int| 0 <= e < n && e != ip ==> #[trigger] lists@[e] == start[e],
                lists@[ip as int].all_list@ == start[ip as int].all_list@ + node_entries(
                    *node,
                ).take(j as int),
                lists@[ip as int].opaque@ == start[ip as int].opaque@,
                lists@[ip as int].transparent@ == start[ip as int].transparent@,
            decreases node.draws.len() - j,
        {
            let d = node.draws[j];
            let entry = DrawEntry { index: DrawIndex::DrawObj(d.0), z_start: node.z_start, info: d.1 };
            proof {
                assert(node_entries(*node).take(j + 1) == node_entries(*node).take(j as int).push(entry));
            }
            push_entry(lists, ip, entry);
            j = j + 1;
        }
        assert(node_entries(*node).take(j as int) == node_entries(*node));
    } else {
        assert(start[ip as int].all_list@ + node_entries(*node) == start[ip as int].all_list@);
    }
    let ghost mid = lists@;
    match parents[ip] {
        Some(q) => {
            if q < n && is_pass[q] {
                let entry = DrawEntry {
                    index: DrawIndex::Pass2D(node.entity),
                    z_start: node.z_start,
                    info: DrawInfo::new(10, false),
                };
                push_entry(lists, q, entry);
            }
        },
        None => {},
    }
    assert forall|e: int| 0 <= e < lists.len() implies #[trigger] lists@[e].all_list@ == old(
        lists,
    )@[e].all_list@ + node_adds(*node, is_pass@, parents@, e) by {
        if e != ip {
            assert(start[e].all_list@ + Seq::<DrawEntry>::empty() == start[e].all_list@);
        }
    }
}

/// The order in which the entries `entries` of a pass, and of the passes
/// without effect nested in it, receive depth slots: a draw object with a
/// draw state gets one, a pass with an effect gets one, a pass without effect
/// hands out its own entries in turn (`fuel` bounds the nesting).
pub open spec fn depth_order(
    lists: Seq<Seq<DrawEntry>>,
    is_pass: Seq<bool>,
    has_effect: Seq<bool>,
    has_state: Seq<bool>,
    entries: Seq<DrawEntry>,
    fuel: nat,
) -> Seq<DrawIndex>
    decreases fuel, entries.len(),
{
    if entries.len() == 0 {
        Seq::empty()
    } else {
        let prev = depth_order(lists, is_pass, has_effect, has_state, entries.drop_last(), fuel);
        let idx = entries.last().index;
        prev + match idx {
            DrawIndex::DrawObj(k) => if (k as int) < has_state.len() && has_state[k as int] {
                seq![idx]
            } else {
                Seq::empty()
            },
            DrawIndex::Pass2D(p) => if !is_pass_at(is_pass, p as int) {
                Seq::empty()
            } else if has_effect[p as int] {
                seq![idx]
            } else if fuel == 0 {
                Seq::empty()
            } else {
                depth_order(
                    lists,
                    is_pass,
                    has_effect,
                    has_state,
                    lists[p as int],
                    (fuel - 1) as nat,
                )
            },
        }
    }
}

fn alloc_depth(
    lists: &Vec<Draw2DList>,
    is_pass: &Vec<bool>,
    has_effect: &Vec<bool>,
    has_state: &Vec<bool>,
    entries: &Vec<DrawEntry>,
    fuel: usize,
    out: &mut Vec<DrawIndex>,
)
    requires
        lists.len() == is_pass.len(),
        has_effect.len() == is_pass.len(),
    ensures
        final(out)@ == old(out)@ + depth_order(
            all_lists(lists@),
            is_pass@,
            has_effect@,
            has_state@,
            entries@,
            fuel as nat,
        ),
    decreases fuel,
{
    let ghost w = all_lists(lists@);
    let ghost start = out@;
    let mut k: usize = 0;
    while k < entries.len()
        invariant
            lists.len() == is_pass.len(),
            has_effect.len() == is_pass.len(),
            w == all_lists(lists@),
            k <= entries.len(),
            out@ == start + depth_order(w, is_pass@, has_effect@, has_state@, entries@.take(k as int), fuel as nat),
        decreases entries.len() - k,
    {
        let ghost before = out@;
        let idx = entries[k].index;
        proof {
            let t = entries@.take(k + 1);
            assert(t.drop_last() == entries@.take(k as int));
            assert(t.last().index == idx);
        }
        match idx {
            DrawIndex::DrawObj(d) => {
                if d < has_state.len() && has_state[d] {
                    out.push(idx);
                }
            },
            DrawIndex::Pass2D(p) => {
                if p < is_pass.len() && is_pass[p] {
                    if has_effect[p] {
                        out.push(idx);
                    } else if fuel > 0 {
                        alloc_depth(lists, is_pass, has_effect, has_state, &lists[p].all_list, fuel - 1, out);
                        assert(w[p as int] == lists@[p as int].all_list@);
                    }
                }
            },
        }
        proof {
            let t = entries@.take(k + 1);
            let d = depth_order(w, is_pass@, has_effect@, has_state@, t, fuel as nat);
            let dp = depth_order(w, is_pass@, has_effect@, has_state@, t.drop_last(), fuel as nat);
            assert(out@ == start + d) by {
                assert(start + dp + (d.subrange(dp.len() as int, d.len() as int)) == start + d);
            }
        }
        k = k + 1;
    }
    assert(entries@.take(k as int) == entries@);
}

/// The contents of depth runs.
pub open spec fn runs_of(runs: Seq<Vec<DrawIndex>>) -> Seq<Seq<DrawIndex>> {
    runs.map_values(|r: Vec<DrawIndex>| r@)
}

/// Whether pass `e` hands out depth slots starting from zero itself: every
/// pass but one with an effect that renders into another pass.
pub open spec fn starts_depth_run(
    is_pass: Seq<bool>,
    parents: Seq<Option<usize>>,
    has_effect: Seq<bool>,
    e: int,
) -> bool {
    is_pass_at(is_pass, e) && !(has_effect[e] && parents[e] is Some)
}

/// The depth runs of the passes: for every pass that starts a run, the
/// order in which its entries receive the depth slots `0, 1, 2, ..`.  The
/// nesting of passes is followed to as many levels as there are entities,
/// which covers every nesting along a forest of passes
/// (`lemma_depth_order_complete`).
pub fn depth_runs(
    lists: &Vec<Draw2DList>,
    is_pass: &Vec<bool>,
    parents: &Vec<Option<usize>>,
    has_effect: &Vec<bool>,
    has_state: &Vec<bool>,
) -> (runs: Vec<Vec<DrawIndex>>)
    requires
        lists.len() == is_pass.len(),
        parents.len() == is_pass.len(),
        has_effect.len() == is_pass.len(),
    ensures
        runs.len() == lists.len(),
        forall|e: int|
            0 <= e < runs.len() ==> #[trigger] runs@[e]@ == if starts_depth_run(
                is_pass@,
                parents@,
                has_effect@,
                e,
            ) {
                depth_order(
                    all_lists(lists@),
                    is_pass@,
                    has_effect@,
                    has_state@,
                    lists@[e].all_list@,
                    lists.len() as nat,
                )
            } else {
                Seq::empty()
            },
{
    let n = lists.len();
    let mut runs: Vec<Vec<DrawIndex>> = Vec::new();
    let mut e: usize = 0;
    while e < n
        invariant
            n == lists.len(),
            lists.len() == is_pass.len(),
            parents.len() == is_pass.len(),
            has_effect.len() == is_pass.len(),
            e <= n,
            runs.len() == e,
            forall|f: int|
                0 <= f < e ==> #[trigger] runs@[f]@ == if starts_depth_run(
                    is_pass@,
                    parents@,
                    has_effect@,
                    f,
                ) {
                    depth_order(
                        all_lists(lists@),
                        is_pass@,
                        has_effect@,
                        has_state@,
                        lists@[f].all_list@,
                        n as nat,
                    )
                } else {
                    Seq::empty()
                },
        decreases n - e,
    {
        let mut run: Vec<DrawIndex> = Vec::new();
        if is_pass[e] && !(has_effect[e] && parents[e].is_some()) {
            alloc_depth(lists, is_pass, has_effect, has_state, &lists[e].all_list, n, &mut run);
        }
        runs.push(run);
        e = e + 1;
    }
    runs
}

/// What computing the render lists gives: `sorted[e]` is everything pass `e`
/// collected, in drawing order; its opaque and transparent lists are split
/// from it, its collected entries are cleared, and `runs[e]` is its depth
/// run over the sorted lists.
pub open spec fn render_lists_result(
    old_lists: Seq<Draw2DList>,
    nodes: Seq<NodeDraws>,
    is_pass: Seq<bool>,
    parents: Seq<Option<usize>>,
    has_effect: Seq<bool>,
    has_state: Seq<bool>,
    sorted: Seq<Seq<DrawEntry>>,
    new_lists: Seq<Draw2DList>,
    runs: Seq<Seq<DrawIndex>>,
) -> bool {
    let n = old_lists.len();
    &&& sorted.len() == n
    &&& new_lists.len() == n
    &&& runs.len() == n
    &&& forall|e: int|
        0 <= e < n ==> {
            &&& stably_sorted(
                old_lists[e].all_list@ + gathered(nodes, is_pass, parents, e, nodes.len() as int),
                #[trigger] sorted[e],
            )
            &&& new_lists[e].opaque@ == pick(sorted[e], true)
            &&& new_lists[e].transparent@ == pick(sorted[e], false)
            &&& new_lists[e].all_list@.len() == 0
            &&& runs[e] == if starts_depth_run(is_pass, parents, has_effect, e) {
                depth_order(sorted, is_pass, has_effect, has_state, sorted[e], n as nat)
            } else {
                Seq::empty()
            }
        }
}

fn sort_pass(lists: &mut Vec<Draw2DList>, p: usize)
    requires
        p < old(lists).len(),
    ensures
        final(lists).len() == old(lists).len(),
        forall|e: int|
            0 <= e < final(lists).len() && e != p ==> #[trigger] final(lists)@[e] == old(lists)@[e],
        stably_sorted(old(lists)@[p as int].all_list@, final(lists)@[p as int].all_list@),
        final(lists)@[p as int].opaque@ == pick(final(lists)@[p as int].all_list@, true),
        final(lists)@[p as int].transparent@ == pick(final(lists)@[p as int].all_list@, false),
{
    sort_and_split(&mut lists[p]);
}

fn clear_pass(lists: &mut Vec<Draw2DList>, p: usize)
    requires
        p < old(lists).len(),
    ensures
        final(lists).len() == old(lists).len(),
        forall|e: int|
            0 <= e < final(lists).len() && e != p ==> #[trigger] final(lists)@[e] == old(lists)@[e],
        final(lists)@[p as int].all_list@.len() == 0,
        final(lists)@[p as int].opaque@ == old(lists)@[p as int].opaque@,
        final(lists)@[p as int].transparent@ == old(lists)@[p as int].transparent@,
{
    lists[p].all_list.clear();
}

/// Builds the render lists of all passes: every node puts its draw objects
/// into its pass and itself into the parent of its pass; every list is then
/// sorted into drawing order and split by opacity; the depth runs are handed
/// out; the collected entries are cleared.
pub fn calc_render_lists(
    lists: &mut Vec<Draw2DList>,
    nodes: &Vec<NodeDraws>,
    is_pass: &Vec<bool>,
    parents: &Vec<Option<usize>>,
    has_effect: &Vec<bool>,
    has_state: &Vec<bool>,
) -> (runs: Vec<Vec<DrawIndex>>)
    requires
        old(lists).len() == is_pass.len(),
        parents.len() == is_pass.len(),
        has_effect.len() == is_pass.len(),
    ensures
        exists|sorted: Seq<Seq<DrawEntry>>|
            #![trigger render_lists_result(old(lists)@, nodes@, is_pass@, parents@, has_effect@, has_state@, sorted, final(lists)@, runs_of(runs@))]
            render_lists_result(
                old(lists)@,
                nodes@,
                is_pass@,
                parents@,
                has_effect@,
                has_state@,
                sorted,
                final(lists)@,
                runs_of(runs@),
            ),
{
    let n = lists.len();
    let mut i: usize = 0;
    while i < nodes.len()
        invariant
            n == lists.len(),
            n == old(lists).len(),
            lists.len() == is_pass.len(),
            parents.len() == is_pass.len(),
            i <= nodes.len(),
            forall|e: int|
                0 <= e < n ==> #[trigger] lists@[e].all_list@ == old(lists)@[e].all_list@ + gathered(
                    nodes@,
                    is_pass@,
                    parents@,
                    e,
                    i as int,
                ),
        decreases nodes.len() - i,
    {
        gather_node(lists, is_pass, parents, &nodes[i]);
        i = i + 1;
    }
    let ghost collected = all_lists(lists@);
    let mut e: usize = 0;
    while e < n
        invariant
            n == lists.len(),
            collected.len() == n,
            e <= n,
            forall|f: int| e <= f < n ==> #[trigger] lists@[f].all_list@ == collected[f],
            forall|f: int|
                0 <= f < e ==> {
                    &&& stably_sorted(collected[f], #[trigger] lists@[f].all_list@)
                    &&& lists@[f].opaque@ == pick(lists@[f].all_list@, true)
                    &&& lists@[f].transparent@ == pick(lists@[f].all_list@, false)
                },
        decreases n - e,
    {
        sort_pass(lists, e);
        e = e + 1;
    }
    let ghost sorted = all_lists(lists@);
    let runs = depth_runs(lists, is_pass, parents, has_effect, has_state);
    let ghost split = lists@;
    let mut e: usize = 0;
    while e < n
        invariant
            n == lists.len(),
            split.len() == n,
            e <= n,
            forall|f: int| e <= f < n ==> #[trigger] lists@[f] == split[f],
            forall|f: int|
                0 <= f < e ==> {
                    &&& (#[trigger] lists@[f]).all_list@.len() == 0
                    &&& lists@[f].opaque@ == split[f].opaque@
                    &&& lists@[f].transparent@ == split[f].transparent@
                },
        decreases n - e,
    {
        clear_pass(lists, e);
        e = e + 1;
    }
    proof {
        assert forall|f: int| 0 <= f < n implies stably_sorted(
            old(lists)@[f].all_list@ + gathered(nodes@, is_pass@, parents@, f, nodes.len() as int),
            #[trigger] sorted[f],
        ) by {
            assert(collected[f] == old(lists)@[f].all_list@ + gathered(nodes@, is_pass@, parents@, f, nodes.len() as int));
        }
        assert(render_lists_result(
            old(lists)@,
            nodes@,
            is_pass@,
            parents@,
            has_effect@,
            has_state@,
            sorted,
            lists@,
            runs_of(runs@),
        ));
    }
    runs
}

/// Every pass entry of the list of pass `q` names a child pass of `q`.
pub open spec fn entries_nested(
    entries: Seq<DrawEntry>,
    is_pass: Seq<bool>,
    parents: Seq<Option<usize>>,
    q: int,
) -> bool {
    forall|k: int|
        0 <= k < entries.len() ==> match #[trigger] entries[k].index {
            DrawIndex::Pass2D(p) => is_pass_at(is_pass, p as int) ==> parents[p as int] == Some(q as usize),
            DrawIndex::DrawObj(_) => true,
        }
}

/// The lists nest along the pass tree: the pass entries of every pass's
/// list name its child passes.
pub open spec fn lists_nested(lists: Seq<Seq<DrawEntry>>, is_pass: Seq<bool>, parents: Seq<Option<usize>>) -> bool {
    forall|q: int| 0 <= q < lists.len() ==> #[trigger] entries_nested(lists[q], is_pass, parents, q)
}

proof fn lemma_depth_fuel(
    lists: Seq<Seq<DrawEntry>>,
    is_pass: Seq<bool>,
    parents: Seq<Option<usize>>,
    has_effect: Seq<bool>,
    has_state: Seq<bool>,
    q: int,
    entries: Seq<DrawEntry>,
    f: nat,
    g: nat,
)
    requires
        lists.len() == is_pass.len(),
        parents.len() == is_pass.len(),
        parents.len() <= usize::MAX,
        lists_nested(lists, is_pass, parents),
        is_forest(parents),
        0 <= q < parents.len(),
        entries_nested(entries, is_pass, parents, q),
        parents.len() - root_dist(parents, q, parents.len() as nat) <= f <= g,
    ensures
        depth_order(lists, is_pass, has_effect, has_state, entries, f) == depth_order(
            lists,
            is_pass,
            has_effect,
            has_state,
            entries,
            g,
        ),
    decreases f, entries.len(),
{
    let n = parents.len() as nat;
    if entries.len() > 0 {
        lemma_depth_fuel(lists, is_pass, parents, has_effect, has_state, q, entries.drop_last(), f, g);
        assert(reaches_top(parents, q, n));
        lemma_reaches_mono(parents, q, n, n);
        match entries.last().index {
            DrawIndex::Pass2D(p) => {
                if is_pass_at(is_pass, p as int) && !has_effect[p as int] {
                    assert(entries[entries.len() - 1] == entries.last());
                    assert(parents[p as int] == Some(q as usize));
                    lemma_child_dist(parents, p as int, q);
                    assert(entries_nested(lists[p as int], is_pass, parents, p as int));
                    lemma_depth_fuel(
                        lists,
                        is_pass,
                        parents,
                        has_effect,
                        has_state,
                        p as int,
                        lists[p as int],
                        (f - 1) as nat,
                        (g - 1) as nat,
                    );
                }
            },
            DrawIndex::DrawObj(_) => {},
        }
    }
}

/// When the lists nest along a forest of passes, the depth run of a pass
/// follows every level of nesting: following at most as many levels as
/// there are entities gives the same run as following any more.
pub proof fn lemma_depth_order_complete(
    lists: Seq<Seq<DrawEntry>>,
    is_pass: Seq<bool>,
    parents: Seq<Option<usize>>,
    has_effect: Seq<bool>,
    has_state: Seq<bool>,
    e: int,
    g: nat,
)
    requires
        lists.len() == is_pass.len(),
        parents.len() == is_pass.len(),
        parents.len() <= usize::MAX,
        lists_nested(lists, is_pass, parents),
        is_forest(parents),
        0 <= e < parents.len(),
        g >= parents.len(),
    ensures
        depth_order(lists, is_pass, has_effect, has_state, lists[e], parents.len() as nat) == depth_order(
            lists,
            is_pass,
            has_effect,
            has_state,
            lists[e],
            g,
        ),
{
    lemma_depth_fuel(lists, is_pass, parents, has_effect, has_state, e, lists[e], parents.len() as nat, g);
}

/// Splitting by opacity loses and duplicates nothing: the opaque and the
/// transparent list together are as long as the sorted list, and each holds
/// only entries of its kind.
pub proof fn lemma_pick_partition(s: Seq<DrawEntry>)
    ensures
        pick(s, true).len() + pick(s, false).len() == s.len(),
        forall|k: int| 0 <= k < pick(s, true).len() ==> exists|j: int| 0 <= j < s.len() && s[j].info.is_opacity && #[trigger] pick(s, true)[k] == s[j].index,
        forall|k: int| 0 <= k < pick(s, false).len() ==> exists|j: int| 0 <= j < s.len() && !s[j].info.is_opacity && #[trigger] pick(s, false)[k] == s[j].index,
    decreases s.len(),
{
    if s.len() > 0 {
        let t = s.drop_last();
        lemma_pick_partition(t);
        assert forall|k: int| 0 <= k < pick(s, true).len() implies exists|j: int| 0 <= j < s.len() && s[j].info.is_opacity && #[trigger] pick(s, true)[k] == s[j].index by {
            if k < pick(t, true).len() {
                let j = choose|j: int| 0 <= j < t.len() && t[j].info.is_opacity && pick(t, true)[k] == t[j].index;
                assert(s[j] == t[j]);
            } else {
                assert(s[s.len() - 1] == s.last());
            }
        }
        assert forall|k: int| 0 <= k < pick(s, false).len() implies exists|j: int| 0 <= j < s.len() && !s[j].info.is_opacity && #[trigger] pick(s, false)[k] == s[j].index by {
            if k < pick(t, false).len() {
                let j = choose|j: int| 0 <= j < t.len() && !t[j].info.is_opacity && pick(t, false)[k] == t[j].index;
                assert(s[j] == t[j]);
            } else {
                assert(s[s.len() - 1] == s.last());
            }
        }
    }
}

/// A drawing order names every position once: its entries are distinct.
pub proof fn lemma_draw_order_distinct(s: Seq<DrawEntry>, perm: Seq<usize>)
    requires
        is_draw_order(s, perm),
    ensures
        forall|a: int, b: int| 0 <= a < b < perm.len() ==> perm[a] != perm[b],
{
    assert forall|a: int, b: int| 0 <= a < b < perm.len() implies perm[a] != perm[b] by {
        assert(ordered_at(s, perm[a], perm[b]));
    }
}

/// Position `x` occurs in `perm`.
spec fn names(perm: Seq<usize>, x: int) -> bool {
    exists|k: int| 0 <= k < perm.len() && #[trigger] perm[k] == x
}

/// A drawing order names every position of `s`.
proof fn lemma_draw_order_covers(s: Seq<DrawEntry>, perm: Seq<usize>)
    requires
        is_draw_order(s, perm),
    ensures
        forall|x: int| 0 <= x < s.len() ==> #[trigger] names(perm, x),
{
    lemma_draw_order_distinct(s, perm);
    let q = perm.map_values(|x: usize| x as int);
    let range = vstd::set_lib::set_int_range(0, s.len() as int);
    assert(q.no_duplicates()) by {
        assert forall|i: int, j: int| 0 <= i < q.len() && 0 <= j < q.len() && i != j implies q[i] != q[j] by {
            if i < j {
                assert(perm[i] != perm[j]);
            } else {
                assert(perm[j] != perm[i]);
            }
        }
    }
    q.unique_seq_to_set();
    vstd::set_lib::lemma_int_range(0, s.len() as int);
    assert(q.to_set().subset_of(range)) by {
        assert forall|x: int| q.to_set().contains(x) implies range.contains(x) by {
            assert(q.contains(x));
            let k = choose|k: int| 0 <= k < q.len() && q[k] == x;
            assert(perm[k] < s.len());
        }
    }
    vstd::set_lib::lemma_len_subset(q.to_set(), range);
    vstd::set_lib::lemma_subset_equality(q.to_set(), range);
    assert forall|x: int| 0 <= x < s.len() implies #[trigger] names(perm, x) by {
        assert(range.contains(x));
        assert(q.to_set().contains(x));
        assert(q.contains(x));
        let k = choose|k: int| 0 <= k < q.len() && q[k] == x;
        assert(perm[k] == x);
    }
}

/// Two drawing orders of `s` agree on their first `m` positions.
proof fn lemma_draw_order_prefix(s: Seq<DrawEntry>, p1: Seq<usize>, p2: Seq<usize>, m: int)
    requires
        is_draw_order(s, p1),
        is_draw_order(s, p2),
        0 <= m <= p1.len(),
    ensures
        forall|j: int| 0 <= j < m ==> #[trigger] p1[j] == p2[j],
    decreases m,
{
    if m > 0 {
        let i = m - 1;
        lemma_draw_order_prefix(s, p1, p2, i);
        lemma_draw_order_distinct(s, p1);
        lemma_draw_order_distinct(s, p2);
        lemma_draw_order_covers(s, p1);
        lemma_draw_order_covers(s, p2);
        let a = p1[i];
        let b = p2[i];
        if a != b {
            assert(names(p2, a as int));
            assert(names(p1, b as int));
            let ja = choose|k: int| 0 <= k < p2.len() && #[trigger] p2[k] == a as int;
            let jb = choose|k: int| 0 <= k < p1.len() && #[trigger] p1[k] == b as int;
            if ja < i {
                assert(p1[ja] == p2[ja]);
            }
            if jb < i {
                assert(p1[jb] == p2[jb]);
            }
            assert(ja > i);
            assert(jb > i);
            assert(ordered_at(s, p2[i], p2[ja]));
            assert(ordered_at(s, p1[i], p1[jb]));
        }
    }
}

/// The drawing order of a list is unique: any two agree.
pub proof fn lemma_draw_order_unique(s: Seq<DrawEntry>, p1: Seq<usize>, p2: Seq<usize>)
    requires
        is_draw_order(s, p1),
        is_draw_order(s, p2),
    ensures
        p1 == p2,
{
    lemma_draw_order_prefix(s, p1, p2, p1.len() as int);
    assert(p1 =~= p2);
}

/// Sorting a list stably into drawing order has one result.
pub proof fn lemma_stably_sorted_unique(s: Seq<DrawEntry>, t1: Seq<DrawEntry>, t2: Seq<DrawEntry>)
    requires
        stably_sorted(s, t1),
        stably_sorted(s, t2),
    ensures
        t1 == t2,
{
    let p1 = choose|perm: Seq<usize>| is_draw_order(s, perm) && t1 == perm.map_values(|i: usize| s[i as int]);
    let p2 = choose|perm: Seq<usize>| is_draw_order(s, perm) && t2 == perm.map_values(|i: usize| s[i as int]);
    lemma_draw_order_unique(s, p1, p2);
}

/// Sorting a sorted list again changes nothing.
pub proof fn lemma_stably_sorted_idempotent(s: Seq<DrawEntry>, t: Seq<DrawEntry>, u: Seq<DrawEntry>)
    requires
        s.len() <= usize::MAX,
        stably_sorted(s, t),
        stably_sorted(t, u),
    ensures
        u == t,
{
    let p = choose|perm: Seq<usize>| is_draw_order(s, perm) && t == perm.map_values(|i: usize| s[i as int]);
    let id = Seq::new(t.len(), |i: int| i as usize);
    assert forall|a: int, b: int| 0 <= a < b < id.len() implies #[trigger] ordered_at(t, id[a], id[b]) by {
        assert(id[a] == a && id[b] == b);
        assert(ordered_at(s, p[a], p[b]));
        assert(t[a] == s[p[a] as int]);
        assert(t[b] == s[p[b] as int]);
    }
    assert(forall|k: int| 0 <= k < id.len() ==> #[trigger] id[k] == k);
    assert(is_draw_order(t, id));
    assert(t =~= id.map_values(|i: usize| t[i as int]));
    assert(stably_sorted(t, t));
    lemma_stably_sorted_unique(t, t, u);
}

/// Every node that owns a pass renders into it.
pub open spec fn nodes_own_pass(nodes: Seq<NodeDraws>, is_pass: Seq<bool>) -> bool {
    forall|k: int|
        0 <= k < nodes.len() && is_pass_at(is_pass, (#[trigger] nodes[k]).entity as int) ==> nodes[k].in_pass
            == nodes[k].entity
}

proof fn lemma_gathered_nested(
    old_list: Seq<DrawEntry>,
    nodes: Seq<NodeDraws>,
    is_pass: Seq<bool>,
    parents: Seq<Option<usize>>,
    e: int,
    k: int,
)
    requires
        parents.len() == is_pass.len(),
        0 <= k <= nodes.len(),
        nodes_own_pass(nodes, is_pass),
        entries_nested(old_list, is_pass, parents, e),
    ensures
        entries_nested(old_list + gathered(nodes, is_pass, parents, e, k), is_pass, parents, e),
    decreases k,
{
    if k > 0 {
        lemma_gathered_nested(old_list, nodes, is_pass, parents, e, k - 1);
        let prev = old_list + gathered(nodes, is_pass, parents, e, k - 1);
        let node = nodes[k - 1];
        let add = node_adds(node, is_pass, parents, e);
        assert(old_list + gathered(nodes, is_pass, parents, e, k) =~= prev + add);
        assert forall|j: int| 0 <= j < add.len() implies match #[trigger] add[j].index {
            DrawIndex::Pass2D(p) => is_pass_at(is_pass, p as int) ==> parents[p as int] == Some(e as usize),
            DrawIndex::DrawObj(_) => true,
        } by {
            let ip = node.in_pass as int;
            let own = if ip == e {
                node_entries(node)
            } else {
                Seq::empty()
            };
            if j < own.len() {
                assert(own[j].index is DrawObj);
            }
        }
    }
}

proof fn lemma_sorted_nested(s: Seq<DrawEntry>, t: Seq<DrawEntry>, is_pass: Seq<bool>, parents: Seq<Option<usize>>, e: int)
    requires
        stably_sorted(s, t),
        entries_nested(s, is_pass, parents, e),
    ensures
        entries_nested(t, is_pass, parents, e),
{
    let perm = choose|perm: Seq<usize>| is_draw_order(s, perm) && t == perm.map_values(|i: usize| s[i as int]);
    assert forall|k: int| 0 <= k < t.len() implies match #[trigger] t[k].index {
        DrawIndex::Pass2D(p) => is_pass_at(is_pass, p as int) ==> parents[p as int] == Some(e as usize),
        DrawIndex::DrawObj(_) => true,
    } by {
        assert(perm[k] < s.len());
        assert(t[k] == s[perm[k] as int]);
    }
}

/// Depth runs are complete: when the passes form a forest, every node that
/// owns a pass renders into it, and the lists start nested, every depth
/// run of `calc_render_lists` follows every level of nesting (following
/// more levels changes nothing).
pub proof fn lemma_render_runs_complete(
    old_lists: Seq<Draw2DList>,
    nodes: Seq<NodeDraws>,
    is_pass: Seq<bool>,
    parents: Seq<Option<usize>>,
    has_effect: Seq<bool>,
    has_state: Seq<bool>,
    sorted: Seq<Seq<DrawEntry>>,
    new_lists: Seq<Draw2DList>,
    runs: Seq<Seq<DrawIndex>>,
    e: int,
    g: nat,
)
    requires
        old_lists.len() == is_pass.len(),
        parents.len() == is_pass.len(),
        parents.len() <= usize::MAX,
        is_forest(parents),
        nodes_own_pass(nodes, is_pass),
        lists_nested(all_lists(old_lists), is_pass, parents),
        render_lists_result(old_lists, nodes, is_pass, parents, has_effect, has_state, sorted, new_lists, runs),
        0 <= e < old_lists.len(),
        starts_depth_run(is_pass, parents, has_effect, e),
        g >= old_lists.len(),
    ensures
        runs[e] == depth_order(sorted, is_pass, has_effect, has_state, sorted[e], g),
{
    assert forall|q: int| 0 <= q < sorted.len() implies #[trigger] entries_nested(sorted[q], is_pass, parents, q) by {
        assert(all_lists(old_lists)[q] == old_lists[q].all_list@);
        assert(entries_nested(all_lists(old_lists)[q], is_pass, parents, q));
        lemma_gathered_nested(old_lists[q].all_list@, nodes, is_pass, parents, q, nodes.len() as int);
        lemma_sorted_nested(
            old_lists[q].all_list@ + gathered(nodes, is_pass, parents, q, nodes.len() as int),
            sorted[q],
            is_pass,
            parents,
            q,
        );
    }
    lemma_depth_order_complete(sorted, is_pass, parents, has_effect, has_state, e, g);
}

} // verus!
