//! The tree that the layout engine walks.
//!
//! Besides the ordinary nodes, the layout tree holds the characters of text
//! nodes.  A key names an ordinary node (its text index null) or the
//! character at `text_index` of the text node `entity`.  Characters that form
//! a word hang below the word's container character: their `context_id` is
//! the container's index, and the container counts its characters.

use vstd::prelude::*;

verus! {

/// The null entity.
pub const NULL_ENTITY: usize = usize::MAX;

/// The null character index.
pub const NULL_INDEX: usize = usize::MAX;

/// The null context id of a character.
pub const NULL_CONTEXT: isize = isize::MIN;

/// A node of the layout tree.
#[derive(Clone, Copy, Debug, PartialEq, Eq, Structural)]
pub struct LayoutKey {
    pub entity: usize,
    pub text_index: usize,
}

impl LayoutKey {
    /// The null key.
    pub fn null() -> (r: Self)
        ensures
            r.entity == NULL_ENTITY,
            r.text_index == NULL_INDEX,
    {
        LayoutKey { entity: NULL_ENTITY, text_index: NULL_INDEX }
    }

    /// Whether the key is null: both its entity and its index are.
    pub fn is_null(&self) -> (r: bool)
        ensures
            r == (self.text_index == NULL_INDEX && self.entity == NULL_ENTITY),
    {
        self.text_index == NULL_INDEX && self.entity == NULL_ENTITY
    }
}

/// What the tree reads of a character: the index of its word container
/// (`-1` or null when it stands alone) and, for a container, the number of
/// its characters.
#[derive(Clone, Copy, Debug, PartialEq, Eq, Structural)]
pub struct CharLink {
    pub context_id: isize,
    pub count: usize,
}

/// The links of a node upward: its parent and its siblings.
#[derive(Clone, Copy, Debug, PartialEq, Eq, Structural)]
pub struct Up {
    pub parent: LayoutKey,
    pub prev: LayoutKey,
    pub next: LayoutKey,
}

/// The links of a node downward: its first and last child, and the child
/// count and descendant count of the node tree.
#[derive(Clone, Copy, Debug, PartialEq, Eq, Structural)]
pub struct Down {
    pub head: LayoutKey,
    pub tail: LayoutKey,
    pub len: usize,
    pub count: usize,
}

/// A key of an ordinary node.
pub open spec fn node_key(entity: usize) -> LayoutKey {
    LayoutKey { entity, text_index: NULL_INDEX }
}

/// A key of a character of `entity`, null when the index is.
pub open spec fn char_key(entity: usize, index: usize) -> LayoutKey {
    LayoutKey { entity: if index == NULL_INDEX { NULL_ENTITY } else { entity }, text_index: index }
}

/// The previous sibling of character `i`: none for the first character; the
/// container of the previous character when that one belongs to another
/// container; else the previous character.
pub open spec fn char_prev(chars: Seq<CharLink>, i: int) -> usize {
    if i == 0 {
        NULL_INDEX
    } else if chars[i - 1].context_id != chars[i].context_id {
        chars[i - 1].context_id as usize
    } else {
        (i - 1) as usize
    }
}

/// The next sibling of character `i`: the next character when it belongs to
/// the same container; when the next character belongs to `i` itself (a word
/// container), the character after the word, if any; else none.
pub open spec fn char_next(chars: Seq<CharLink>, i: int) -> usize {
    let n = i + 1;
    if n >= chars.len() {
        NULL_INDEX
    } else if chars[n].context_id != chars[i].context_id {
        if chars[n].context_id == i as isize {
            let r = i + chars[i].count;
            if r >= chars.len() {
                NULL_INDEX
            } else {
                r as usize
            }
        } else {
            NULL_INDEX
        }
    } else {
        n as usize
    }
}

/// The upward links of a key.  `node_up` is what the node tree gives for an
/// ordinary node (parent, previous and next entity); `chars` are the
/// characters of the text node, for a character key.
pub open spec fn up_of(k: LayoutKey, node_up: Option<(usize, usize, usize)>, chars: Seq<CharLink>) -> Option<Up> {
    if k.text_index == NULL_INDEX {
        match node_up {
            Some(u) => Some(Up { parent: node_key(u.0), prev: node_key(u.1), next: node_key(u.2) }),
            None => None,
        }
    } else {
        Some(
            Up {
                parent: node_key(k.entity),
                prev: char_key(k.entity, char_prev(chars, k.text_index as int)),
                next: char_key(k.entity, char_next(chars, k.text_index as int)),
            },
        )
    }
}

/// The upward links of a layout key.
pub fn get_up(k: LayoutKey, node_up: Option<(usize, usize, usize)>, chars: &Vec<CharLink>) -> (r: Option<Up>)
    requires
        k.text_index != NULL_INDEX ==> k.text_index < chars.len() && k.text_index + chars@[k.text_index as int].count
            <= usize::MAX,
    ensures
        r == up_of(k, node_up, chars@),
{
    if k.text_index == NULL_INDEX {
        return match node_up {
            Some(u) => Some(
                Up {
                    parent: LayoutKey { entity: u.0, text_index: NULL_INDEX },
                    prev: LayoutKey { entity: u.1, text_index: NULL_INDEX },
                    next: LayoutKey { entity: u.2, text_index: NULL_INDEX },
                },
            ),
            None => None,
        };
    }
    let i = k.text_index;
    let c = chars[i];
    let prev = if i == 0 {
        NULL_INDEX
    } else {
        let p = i - 1;
        if chars[p].context_id != c.context_id {
            chars[p].context_id as usize
        } else {
            p
        }
    };
    let n = i + 1;
    let next = if n >= chars.len() {
        NULL_INDEX
    } else {
        let nc = chars[n];
        if nc.context_id != c.context_id {
            if nc.context_id == i as isize {
                let r = i + c.count;
                if r >= chars.len() {
                    NULL_INDEX
                } else {
                    r
                }
            } else {
                NULL_INDEX
            }
        } else {
            n
        }
    };
    Some(
        Up {
            parent: LayoutKey { entity: k.entity, text_index: NULL_INDEX },
            prev: LayoutKey {
                entity: if prev == NULL_INDEX {
                    NULL_ENTITY
                } else {
                    k.entity
                },
                text_index: prev,
            },
            next: LayoutKey {
                entity: if next == NULL_INDEX {
                    NULL_ENTITY
                } else {
                    k.entity
                },
                text_index: next,
            },
        },
    )
}

/// The downward links of a key.  A text node with characters leads to its
/// first character and to its last top-level one (the container of the last
/// character, when it has one); another ordinary node leads to what the node
/// tree gives (`node_down`: head, tail, child count, descendant count); a
/// character has no child.
pub open spec fn down_of(
    k: LayoutKey,
    chars: Option<Seq<CharLink>>,
    node_down: Option<(usize, usize, usize, usize)>,
) -> Option<Down> {
    if k.text_index != NULL_INDEX {
        None
    } else if chars is Some && chars->0.len() != 0 {
        let cs = chars->0;
        let last = cs[cs.len() - 1];
        let last_index = if last.context_id == NULL_CONTEXT {
            (cs.len() - 1) as usize
        } else {
            last.context_id as usize
        };
        Some(
            Down {
                head: LayoutKey { entity: k.entity, text_index: 0 },
                tail: LayoutKey { entity: k.entity, text_index: last_index },
                len: 0,
                count: 0,
            },
        )
    } else {
        match node_down {
            Some(d) => Some(Down { head: node_key(d.0), tail: node_key(d.1), len: d.2, count: d.3 }),
            None => None,
        }
    }
}

/// The characters of a text node, when it has them.
pub open spec fn chars_of(chars: Option<&Vec<CharLink>>) -> Option<Seq<CharLink>> {
    match chars {
        Some(c) => Some(c@),
        None => None,
    }
}

/// The downward links of a layout key.
pub fn get_down(
    k: LayoutKey,
    chars: Option<&Vec<CharLink>>,
    node_down: Option<(usize, usize, usize, usize)>,
) -> (r: Option<Down>)
    ensures
        r == down_of(k, chars_of(chars), node_down),
{
    if k.text_index != NULL_INDEX {
        return None;
    }
    if let Some(cs) = chars {
        if cs.len() != 0 {
            let last = cs[cs.len() - 1];
            let last_index = if last.context_id == NULL_CONTEXT {
                cs.len() - 1
            } else {
                last.context_id as usize
            };
            return Some(
                Down {
                    head: LayoutKey { entity: k.entity, text_index: 0 },
                    tail: LayoutKey { entity: k.entity, text_index: last_index },
                    len: 0,
                    count: 0,
                },
            );
        }
    }
    match node_down {
        Some(d) => Some(
            Down {
                head: LayoutKey { entity: d.0, text_index: NULL_INDEX },
                tail: LayoutKey { entity: d.1, text_index: NULL_INDEX },
                len: d.2,
                count: d.3,
            },
        ),
        None => None,
    }
}

/// The layer of a key: an ordinary node's layer in the node tree
/// (`node_layer`); a character has none.
pub fn get_layer(k: LayoutKey, node_layer: Option<usize>) -> (r: Option<usize>)
    ensures
        r == if k.text_index == NULL_INDEX {
            node_layer
        } else {
            None
        },
{
    if k.text_index == NULL_INDEX {
        node_layer
    } else {
        None
    }
}

/// Which layout inputs of a node changed since the last frame.
#[derive(Clone, Copy, Debug, PartialEq, Eq, Structural)]
pub struct LayoutChanges {
    pub size: bool,
    pub position: bool,
    pub margin: bool,
    pub layer: bool,
    pub min_max: bool,
    pub text_content: bool,
    pub text_style: bool,
    pub flex_container: bool,
    pub flex_normal: bool,
    pub padding: bool,
    pub border: bool,
    pub show: bool,
}

/// What of a node's layout must be redone: its rectangle, its children, its
/// flex item style, its own padding and border, its display.
#[derive(Clone, Copy, Debug, PartialEq, Eq, Structural)]
pub struct LayoutDirty {
    pub rect: bool,
    pub children: bool,
    pub normal_style: bool,
    pub self_style: bool,
    pub display: bool,
}

/// The layout work that changes call for.
pub open spec fn dirty_of(c: LayoutChanges) -> LayoutDirty {
    LayoutDirty {
        rect: c.size || c.position || c.margin || c.layer || c.min_max,
        children: c.text_content || c.text_style || c.flex_container || c.layer,
        normal_style: c.flex_normal,
        self_style: c.padding || c.border,
        display: c.show,
    }
}

/// Whether any layout work is due.
pub open spec fn any_dirty(d: LayoutDirty) -> bool {
    d.rect || d.children || d.normal_style || d.self_style || d.display
}

/// Classifies the changes of a node into layout work.
pub fn layout_dirty(c: &LayoutChanges) -> (r: LayoutDirty)
    ensures
        r == dirty_of(*c),
{
    LayoutDirty {
        rect: c.size || c.position || c.margin || c.layer || c.min_max,
        children: c.text_content || c.text_style || c.flex_container || c.layer,
        normal_style: c.flex_normal,
        self_style: c.padding || c.border,
        display: c.show,
    }
}

/// What each change calls for: a change of size, position, margin, layer
/// or min/max size moves the node (its rectangle is redone); a change of the
/// text, the text style, the flex container style or the layer redoes its
/// children; the flex item style, the padding and border, and the display
/// each redo their own part.  No work is due without a change, and every
/// piece of work comes from one of these changes.
pub proof fn lemma_layout_dirty_rules(c: LayoutChanges)
    ensures
        c.size ==> dirty_of(c).rect,
        c.position ==> dirty_of(c).rect,
        c.margin ==> dirty_of(c).rect,
        c.min_max ==> dirty_of(c).rect,
        c.layer ==> dirty_of(c).rect && dirty_of(c).children,
        c.text_content ==> dirty_of(c).children,
        c.text_style ==> dirty_of(c).children,
        c.flex_container ==> dirty_of(c).children,
        c.flex_normal ==> dirty_of(c).normal_style,
        c.padding ==> dirty_of(c).self_style,
        c.border ==> dirty_of(c).self_style,
        c.show ==> dirty_of(c).display,
        dirty_of(c).rect ==> c.size || c.position || c.margin || c.layer || c.min_max,
        dirty_of(c).children ==> c.text_content || c.text_style || c.flex_container || c.layer,
        dirty_of(c).normal_style ==> c.flex_normal,
        dirty_of(c).self_style ==> c.padding || c.border,
        dirty_of(c).display ==> c.show,
{
}

/// An event of a node in the tree whose changes call for work, and whose
/// parent has its layout state, adds that node and its work to the plan,
/// unless the layout broke before it.
pub proof fn lemma_plan_takes_event(events: Seq<LayoutEvent>, k: int)
    requires
        0 <= k < events.len(),
        events[k].in_tree,
        !events[k].parent_lost,
        any_dirty(dirty_of(events[k].changes)),
        !plan_upto(events, k).1,
    ensures
        plan_upto(events, k + 1).0 == plan_upto(events, k).0.push((events[k].entity, dirty_of(events[k].changes))),
        !plan_upto(events, k + 1).1,
{
}

/// A style change event for a node: the node, whether it has layout styles
/// and stands in the node tree, what changed, and whether it has a parent
/// that lacks a layout state.
#[derive(Clone, Copy, Debug, PartialEq, Eq, Structural)]
pub struct LayoutEvent {
    pub entity: usize,
    pub in_tree: bool,
    pub changes: LayoutChanges,
    pub parent_lost: bool,
}

/// The layout work for the first `k` events, and whether a node with a lost
/// parent stopped it.  Nodes outside the tree or without work are passed
/// over.
pub open spec fn plan_upto(events: Seq<LayoutEvent>, k: int) -> (Seq<(usize, LayoutDirty)>, bool)
    decreases k,
{
    if k <= 0 {
        (Seq::empty(), false)
    } else {
        let (steps, broken) = plan_upto(events, k - 1);
        let e = events[k - 1];
        let d = dirty_of(e.changes);
        if broken || !e.in_tree || !any_dirty(d) {
            (steps, broken)
        } else if e.parent_lost {
            (steps, true)
        } else {
            (steps.push((e.entity, d)), false)
        }
    }
}

/// The layout work of a frame: the nodes and their work in event order,
/// whether the layout is broken (a node's parent lacks its state; the work
/// stops there and the layout is held from then on), and whether the
/// layout is computed.
pub struct LayoutPlan {
    pub steps: Vec<(usize, LayoutDirty)>,
    pub broken: bool,
    pub compute: bool,
}

/// Plans the layout of a frame from the style change events.  Nothing is
/// done while the layout is held (`is_run`) or when no style changed.
pub fn plan_layout(is_run: bool, events: &Vec<LayoutEvent>) -> (r: LayoutPlan)
    ensures
        is_run || events.len() == 0 ==> r.steps@.len() == 0 && !r.broken && !r.compute,
        !(is_run || events.len() == 0) ==> {
            let (steps, broken) = plan_upto(events@, events.len() as int);
            &&& r.steps@ == steps
            &&& r.broken == broken
            &&& r.compute == !broken
        },
{
    let mut steps: Vec<(usize, LayoutDirty)> = Vec::new();
    if is_run || events.len() == 0 {
        return LayoutPlan { steps, broken: false, compute: false };
    }
    let mut broken = false;
    let mut k: usize = 0;
    while k < events.len()
        invariant
            k <= events.len(),
            (steps@, broken) == plan_upto(events@, k as int),
        decreases events.len() - k,
    {
        let e = events[k];
        let d = layout_dirty(&e.changes);
        if !broken && e.in_tree && (d.rect || d.children || d.normal_style || d.self_style || d.display) {
            if e.parent_lost {
                broken = true;
            } else {
                steps.push((e.entity, d));
            }
        }
        k = k + 1;
    }
    LayoutPlan { steps, broken, compute: !broken }
}

} // verus!
