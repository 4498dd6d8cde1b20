//! Setting the render context of a subtree.
//!
//! Every node records the pass its draw objects render into.  When a node
//! changes (it gets or loses a pass, or joins the tree), the context is set
//! again from that node down: a node that owns a pass renders into it and
//! hands it to its children, and its pass is placed under the context of
//! its parent; a node with a mark but no pass yet is left for later, with
//! its subtree; any other node renders into its parent's context.

use vstd::prelude::*;

verus! {

/// The state that setting contexts changes: the pass every node renders
/// into, the parent of every pass, and the nodes still to be visited.
pub struct ContextState {
    pub in_context: Vec<Option<usize>>,
    pub pass_parent: Vec<Option<usize>>,
    pub dirty: Vec<bool>,
}

/// The tree and marks that setting contexts reads: the children of every
/// node in order, whether it has a render-context mark, and the pass it
/// owns.
pub struct ContextTree {
    pub children: Vec<Vec<usize>>,
    pub has_mark: Vec<bool>,
    pub pass_of: Vec<Option<usize>>,
}

/// A state by view.
pub type StateView = (Seq<Option<usize>>, Seq<Option<usize>>, Seq<bool>);

/// The contents of a tree's child lists.
pub open spec fn kids_of(tree: ContextTree, node: int) -> Seq<usize> {
    tree.children@[node]@
}

/// The tree fits the state: every node (and child) is a node, every owned
/// pass is a pass.
pub open spec fn tree_fits(tree: ContextTree, n: nat, passes: nat) -> bool {
    &&& tree.children@.len() == n
    &&& tree.has_mark@.len() == n
    &&& tree.pass_of@.len() == n
    &&& forall|x: int, k: int|
        0 <= x < n && 0 <= k < tree.children@[x]@.len() ==> #[trigger] tree.children@[x]@[k] < n
    &&& forall|x: int| 0 <= x < n && #[trigger] tree.pass_of@[x] is Some ==> tree.pass_of@[x]->0 < passes
}

/// Setting contexts from `node` down, its parent rendering into `ctx`,
/// following at most `fuel` levels.
pub open spec fn visit(tree: ContextTree, st: StateView, node: usize, ctx: Option<usize>, fuel: nat) -> StateView
    decreases fuel, 0nat, 0nat,
{
    if fuel == 0 || node >= st.0.len() {
        st
    } else {
        let (ic, pp, dirty) = st;
        match tree.pass_of@[node as int] {
            Some(r) => {
                let pp2 = pp.update(r as int, ctx);
                if ic[node as int] == Some(r) {
                    (ic, pp2, dirty)
                } else {
                    let st2 = (ic.update(node as int, Some(r)), pp2, dirty.update(node as int, false));
                    visit_kids(tree, st2, kids_of(tree, node as int), Some(r), (fuel - 1) as nat)
                }
            },
            None => if tree.has_mark@[node as int] {
                st
            } else {
                let st2 = (ic.update(node as int, ctx), pp, dirty.update(node as int, false));
                visit_kids(tree, st2, kids_of(tree, node as int), ctx, (fuel - 1) as nat)
            },
        }
    }
}

/// Setting contexts for the nodes `kids`, in order.
pub open spec fn visit_kids(tree: ContextTree, st: StateView, kids: Seq<usize>, ctx: Option<usize>, fuel: nat) -> StateView
    decreases fuel, 1nat, kids.len(),
{
    if kids.len() == 0 {
        st
    } else {
        visit(tree, visit_kids(tree, st, kids.drop_last(), ctx, fuel), kids.last(), ctx, fuel)
    }
}

/// A state by view.
pub open spec fn state_view(st: ContextState) -> StateView {
    (st.in_context@, st.pass_parent@, st.dirty@)
}

proof fn lemma_visit_len(tree: ContextTree, st: StateView, node: usize, ctx: Option<usize>, fuel: nat)
    requires
        tree_fits(tree, st.0.len(), st.1.len()),
        st.2.len() == st.0.len(),
    ensures
        visit(tree, st, node, ctx, fuel).0.len() == st.0.len(),
        visit(tree, st, node, ctx, fuel).1.len() == st.1.len(),
        visit(tree, st, node, ctx, fuel).2.len() == st.2.len(),
    decreases fuel, 0nat, 0nat,
{
    if fuel > 0 && node < st.0.len() {
        let (ic, pp, dirty) = st;
        match tree.pass_of@[node as int] {
            Some(r) => {
                if ic[node as int] != Some(r) {
                    let st2 = (ic.update(node as int, Some(r)), pp.update(r as int, ctx), dirty.update(node as int, false));
                    lemma_visit_kids_len(tree, st2, kids_of(tree, node as int), Some(r), (fuel - 1) as nat);
                }
            },
            None => if !tree.has_mark@[node as int] {
                let st2 = (ic.update(node as int, ctx), pp, dirty.update(node as int, false));
                lemma_visit_kids_len(tree, st2, kids_of(tree, node as int), ctx, (fuel - 1) as nat);
            },
        }
    }
}

proof fn lemma_visit_kids_len(tree: ContextTree, st: StateView, kids: Seq<usize>, ctx: Option<usize>, fuel: nat)
    requires
        tree_fits(tree, st.0.len(), st.1.len()),
        st.2.len() == st.0.len(),
    ensures
        visit_kids(tree, st, kids, ctx, fuel).0.len() == st.0.len(),
        visit_kids(tree, st, kids, ctx, fuel).1.len() == st.1.len(),
        visit_kids(tree, st, kids, ctx, fuel).2.len() == st.2.len(),
    decreases fuel, 1nat, kids.len(),
{
    if kids.len() > 0 {
        lemma_visit_kids_len(tree, st, kids.drop_last(), ctx, fuel);
        lemma_visit_len(tree, visit_kids(tree, st, kids.drop_last(), ctx, fuel), kids.last(), ctx, fuel);
    }
}

fn visit_exec(tree: &ContextTree, st: &mut ContextState, node: usize, ctx: Option<usize>, fuel: usize)
    requires
        tree_fits(*tree, old(st).in_context@.len(), old(st).pass_parent@.len()),
        old(st).dirty@.len() == old(st).in_context@.len(),
    ensures
        state_view(*final(st)) == visit(*tree, state_view(*old(st)), node, ctx, fuel as nat),
    decreases fuel, 0nat, 0nat,
{
    if fuel == 0 || node >= st.in_context.len() {
        return ;
    }
    match tree.pass_of[node] {
        Some(r) => {
            st.pass_parent.set(r, ctx);
            if st.in_context[node] == Some(r) {
                return ;
            }
            st.in_context.set(node, Some(r));
            st.dirty.set(node, false);
            visit_kids_exec(tree, st, &tree.children[node], Some(r), fuel - 1);
        },
        None => {
            if tree.has_mark[node] {
                return ;
            }
            st.in_context.set(node, ctx);
            st.dirty.set(node, false);
            visit_kids_exec(tree, st, &tree.children[node], ctx, fuel - 1);
        },
    }
}

fn visit_kids_exec(tree: &ContextTree, st: &mut ContextState, kids: &Vec<usize>, ctx: Option<usize>, fuel: usize)
    requires
        tree_fits(*tree, old(st).in_context@.len(), old(st).pass_parent@.len()),
        old(st).dirty@.len() == old(st).in_context@.len(),
    ensures
        state_view(*final(st)) == visit_kids(*tree, state_view(*old(st)), kids@, ctx, fuel as nat),
    decreases fuel, 1nat, kids.len(),
{
    let ghost st0 = state_view(*st);
    let mut k: usize = 0;
    while k < kids.len()
        invariant
            tree_fits(*tree, st0.0.len(), st0.1.len()),
            st0.2.len() == st0.0.len(),
            k <= kids.len(),
            state_view(*st) == visit_kids(*tree, st0, kids@.take(k as int), ctx, fuel as nat),
        decreases kids.len() - k,
    {
        proof {
            let t = kids@.take(k + 1);
            assert(t.drop_last() == kids@.take(k as int));
            assert(t.last() == kids@[k as int]);
            lemma_visit_kids_len(*tree, st0, kids@.take(k as int), ctx, fuel as nat);
        }
        visit_exec(tree, st, kids[k], ctx, fuel);
        k = k + 1;
    }
    proof {
        assert(kids@.take(k as int) == kids@);
    }
}

/// Sets the render context from `node` down, its parent rendering into
/// `parent_context_id`; the tree is followed to as many levels as it has
/// nodes.
pub fn recursive_set_node_context(
    tree: &ContextTree,
    st: &mut ContextState,
    node: usize,
    parent_context_id: Option<usize>,
)
    requires
        tree_fits(*tree, old(st).in_context@.len(), old(st).pass_parent@.len()),
        old(st).dirty@.len() == old(st).in_context@.len(),
    ensures
        state_view(*final(st)) == visit(
            *tree,
            state_view(*old(st)),
            node,
            parent_context_id,
            old(st).in_context@.len(),
        ),
{
    let n = st.in_context.len();
    visit_exec(tree, st, node, parent_context_id, n);
}

} // verus!
