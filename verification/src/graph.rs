//! The render graph nodes of passes.
//!
//! Only a pass with a post-process effect, or a root pass, becomes a node of
//! the render graph; every other pass is drawn into the pass it belongs to.
//! A graph node of a child pass is made a dependency of the graph node its
//! parent pass renders into (see `pass_tree::get_to`), through the node's
//! own post-process when it has one.

use vstd::prelude::*;

verus! {

/// What happens to the graph node of a pass.
#[derive(Clone, Copy, Debug, PartialEq, Eq, Structural)]
pub enum GraphNodeChange {
    Keep,
    Add,
    Remove,
}

/// Whether a pass should be a node of the render graph.
pub open spec fn wants_graph_node(has_effect: bool, is_root: bool) -> bool {
    has_effect || is_root
}

/// Whether a pass has a graph node after a change.
pub open spec fn has_node_after(has_node: bool, change: GraphNodeChange) -> bool {
    match change {
        GraphNodeChange::Keep => has_node,
        GraphNodeChange::Add => true,
        GraphNodeChange::Remove => false,
    }
}

/// The change that a pass whose mark changed (or that just got a camera)
/// needs: a graph node is added when the pass wants one and has none, and
/// removed when it has one it does not want.
pub fn graph_node_change(has_effect: bool, is_root: bool, has_node: bool) -> (r: GraphNodeChange)
    ensures
        r == if wants_graph_node(has_effect, is_root) {
            if has_node {
                GraphNodeChange::Keep
            } else {
                GraphNodeChange::Add
            }
        } else if has_node {
            GraphNodeChange::Remove
        } else {
            GraphNodeChange::Keep
        },
{
    if has_effect || is_root {
        if has_node {
            GraphNodeChange::Keep
        } else {
            GraphNodeChange::Add
        }
    } else if has_node {
        GraphNodeChange::Remove
    } else {
        GraphNodeChange::Keep
    }
}

/// After its change, a pass has a graph node exactly when it has an effect
/// or is a root, and a pass that has the node it should have is left alone.
pub proof fn lemma_graph_node_rule(has_effect: bool, is_root: bool, has_node: bool, change: GraphNodeChange)
    requires
        change == (if wants_graph_node(has_effect, is_root) {
            if has_node {
                GraphNodeChange::Keep
            } else {
                GraphNodeChange::Add
            }
        } else if has_node {
            GraphNodeChange::Remove
        } else {
            GraphNodeChange::Keep
        }),
    ensures
        has_node_after(has_node, change) == wants_graph_node(has_effect, is_root),
        has_node == wants_graph_node(has_effect, is_root) ==> change == GraphNodeChange::Keep,
{
}

/// How the graph node of a pass whose parent changed is linked.
#[derive(Clone, Copy, Debug, PartialEq, Eq, Structural)]
pub enum ParentLink {
    /// The pass has no graph node: nothing to link.
    Skip,
    /// The pass is a root: its graph node is a final node.
    Finish,
    /// The graph node becomes a dependency of the one its parent renders into.
    Depend,
}

/// Decides how the graph node of a pass is linked after its parent changed.
pub fn parent_link(has_node: bool, is_root: bool) -> (r: ParentLink)
    ensures
        r == if !has_node {
            ParentLink::Skip
        } else if is_root {
            ParentLink::Finish
        } else {
            ParentLink::Depend
        },
{
    if !has_node {
        ParentLink::Skip
    } else if is_root {
        ParentLink::Finish
    } else {
        ParentLink::Depend
    }
}

/// The graph node through which graph node `id` is linked: the graph node
/// of its own post-process, when there is one (`post_graph`) and making `id`
/// its dependency succeeded (`depend_ok`); else `id` itself.
pub fn post_process_target(id: usize, post_graph: Option<usize>, depend_ok: bool) -> (r: usize)
    ensures
        r == match post_graph {
            Some(p) => if depend_ok {
                p
            } else {
                id
            },
            None => id,
        },
{
    match post_graph {
        Some(p) => if depend_ok {
            p
        } else {
            id
        },
        None => id,
    }
}

/// A singly linked list of values.
pub struct LinkNode<T> {
    value: Option<T>,
    next: Option<Box<LinkNode<T>>>,
}

} // verus!
