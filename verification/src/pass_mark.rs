//! Dirty marks of passes.
//!
//! A pass whose render list must be rebuilt carries the list-dirty mark.
//! Passes are numbered; `list_dirty[p]` is the list-dirty mark of pass `p`.

use vstd::prelude::*;

verus! {

/// Sets the list-dirty marks of passes.
#[derive(Clone, Copy, Debug, PartialEq, Eq, Structural, Hash)]
pub struct CalcMark;

impl CalcMark {
    /// A draw object was created or deleted: the pass its node draws into
    /// (`in_pass`) must rebuild its list.
    pub fn drawobj_create(list_dirty: &mut Vec<bool>, in_pass: usize)
        requires
            in_pass < old(list_dirty).len(),
        ensures
            final(list_dirty)@ == old(list_dirty)@.update(in_pass as int, true),
    {
        list_dirty.set(in_pass, true);
    }

    /// A pass was created: it starts without dirty mark (nothing happens
    /// when the pass is not there any more).
    pub fn pass2d_create(list_dirty: &mut Vec<bool>, pass: usize)
        ensures
            final(list_dirty)@ == if pass < old(list_dirty).len() {
                old(list_dirty)@.update(pass as int, false)
            } else {
                old(list_dirty)@
            },
    {
        if pass < list_dirty.len() {
            list_dirty.set(pass, false);
        }
    }

    /// A pass was created or deleted: the pass that the parent of its node
    /// draws into must rebuild its list.  The lookups on the way (the node
    /// of the pass, the parent of that node, the pass the parent draws into)
    /// may each fail, and then nothing happens.
    pub fn pass2d_create_or_delete(
        list_dirty: &mut Vec<bool>,
        node_of_pass: Option<usize>,
        parents: &Vec<Option<usize>>,
        in_pass: &Vec<Option<usize>>,
    )
        ensures
            final(list_dirty)@ == match node_of_pass {
                Some(node) => if node < parents.len() {
                    match parents@[node as int] {
                        Some(parent) => if parent < in_pass.len() {
                            match in_pass@[parent as int] {
                                Some(p) => if p < old(list_dirty).len() {
                                    old(list_dirty)@.update(p as int, true)
                                } else {
                                    old(list_dirty)@
                                },
                                None => old(list_dirty)@,
                            }
                        } else {
                            old(list_dirty)@
                        },
                        None => old(list_dirty)@,
                    }
                } else {
                    old(list_dirty)@
                },
                None => old(list_dirty)@,
            },
    {
        if let Some(node) = node_of_pass {
            if node < parents.len() {
                if let Some(parent) = parents[node] {
                    if parent < in_pass.len() {
                        if let Some(p) = in_pass[parent] {
                            if p < list_dirty.len() {
                                list_dirty.set(p, true);
                            }
                        }
                    }
                }
            }
        }
    }
}

} // verus!
