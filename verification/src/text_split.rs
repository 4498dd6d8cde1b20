//! Splitting text into character nodes for the layout.
//!
//! A text is cut into tokens: single-character words, the characters of
//! longer words (the first marked as the word's start), white space and
//! line breaks.  Each becomes a character node; a longer word gets a
//! container node before its characters, which point to it and which it
//! counts.  Nodes left from the previous split are reused where they hold
//! the same character.  This module computes the structure of the nodes;
//! their sizes and positions are measured with the font.

use vstd::prelude::*;

verus! {

/// The structure of a character node: its character (`'\0'` for a word
/// container), the number of characters of a container, the index of the
/// character in the text (`-1` when it stands for none), and the index of
/// its word container (`-1` when it has none).
#[derive(Clone, Copy, Debug, PartialEq, Eq, Structural)]
pub struct CharSlot {
    pub ch: char,
    pub count: usize,
    pub char_i: isize,
    pub context_id: isize,
}

/// A token of the text, with the index of its character in the text.
#[derive(Clone, Copy, Debug, PartialEq, Eq, Structural)]
pub enum SplitToken {
    /// A word of one character.
    Word(isize, char),
    /// A character of a longer word, after its first.
    WordNext(isize, char),
    /// The first character of a longer word.
    WordStart(isize, char),
    /// The end of a longer word.
    WordEnd,
    /// A white space.
    Whitespace(isize),
    /// A line break.
    Newline(isize),
}

/// A fresh node for a character.
pub open spec fn fresh_slot(ch: char, char_i: isize) -> CharSlot {
    CharSlot { ch, count: 0, char_i, context_id: -1isize }
}

/// A node of the layout engine's default.
pub open spec fn default_slot() -> CharSlot {
    CharSlot { ch: '\0', count: 0, char_i: -1isize, context_id: -1isize }
}

/// A word container counting one (its first character is counted as it
/// comes).
pub open spec fn container_slot() -> CharSlot {
    CharSlot { ch: '\0', count: 1, char_i: -1isize, context_id: -1isize }
}

/// The nodes after placing character `ch` at `index`: a new node at the
/// end, a fresh node in place of one holding another character, or the node
/// holding that character kept with its index in the text updated.
pub open spec fn place_char(chars: Seq<CharSlot>, index: int, ch: char, char_i: isize) -> Seq<CharSlot> {
    if index >= chars.len() {
        chars.push(fresh_slot(ch, char_i))
    } else if chars[index].ch != ch {
        chars.update(index, fresh_slot(ch, char_i))
    } else {
        chars.update(index, CharSlot { char_i, ..chars[index] })
    }
}

/// The nodes after placing `slot` at `index` (at the end or in place).
pub open spec fn place_slot(chars: Seq<CharSlot>, index: int, slot: CharSlot) -> Seq<CharSlot> {
    if index >= chars.len() {
        chars.push(slot)
    } else {
        chars.update(index, slot)
    }
}

/// The nodes after placing a character of the word whose container is at
/// `word`: it points to the container, which counts it.
pub open spec fn place_word_char(chars: Seq<CharSlot>, index: int, word: int, ch: char, char_i: isize) -> Seq<
    CharSlot,
> {
    let c1 = place_char(chars, index, ch, char_i);
    let c2 = c1.update(index, CharSlot { context_id: word as isize, ..c1[index] });
    c2.update(word, CharSlot { count: (c2[word].count + 1) as usize, ..c2[word] })
}

/// One token of the split: the nodes, the next node index and the index of
/// the current word container.
pub open spec fn split_step(st: (Seq<CharSlot>, int, int), tok: SplitToken) -> (Seq<CharSlot>, int, int) {
    let (chars, ci, wi) = st;
    match tok {
        SplitToken::Word(i, c) => (place_char(chars, ci, c, i), ci + 1, wi),
        SplitToken::WordNext(i, c) => (place_word_char(chars, ci, wi, c, i), ci + 1, wi),
        SplitToken::WordStart(i, c) => {
            let c1 = place_slot(chars, ci, container_slot());
            (place_word_char(c1, ci + 1, ci, c, i), ci + 2, ci)
        },
        SplitToken::WordEnd => st,
        SplitToken::Whitespace(i) => (place_char(chars, ci, ' ', i), ci + 1, wi),
        SplitToken::Newline(i) => {
            let c1 = if ci == chars.len() {
                chars.push(default_slot())
            } else {
                chars
            };
            (c1.update(ci, CharSlot { ch: '\n', char_i: i, ..c1[ci] }), ci + 1, wi)
        },
    }
}

/// The split state after the first `k` tokens.
pub open spec fn split_fold(init: (Seq<CharSlot>, int, int), tokens: Seq<SplitToken>, k: int) -> (
    Seq<CharSlot>,
    int,
    int,
)
    decreases k,
{
    if k <= 0 {
        init
    } else {
        split_step(split_fold(init, tokens, k - 1), tokens[k - 1])
    }
}

/// The split state before the first token: with an indent, the first node
/// becomes a space standing for no character.
pub open spec fn split_start(chars: Seq<CharSlot>, indent: bool) -> (Seq<CharSlot>, int, int) {
    if indent {
        let c1 = if chars.len() == 0 {
            seq![default_slot()]
        } else {
            chars
        };
        (c1.update(0, CharSlot { ch: ' ', char_i: -1isize, ..c1[0] }), 1, 0)
    } else {
        (chars, 0, 0)
    }
}

/// The nodes after splitting: the nodes placed, those left over dropped.
pub open spec fn split_result(chars: Seq<CharSlot>, indent: bool, tokens: Seq<SplitToken>) -> Seq<CharSlot> {
    let (c, ci, _) = split_fold(split_start(chars, indent), tokens, tokens.len() as int);
    c.take(ci)
}

/// Splits text into character nodes.
#[derive(Clone, Copy, Debug, PartialEq, Eq, Structural, Hash)]
pub struct CalcTextSplit;

/// The state of a split in progress is sound: the next index lies within
/// the nodes, the word container before it, and no count can overflow
/// within `budget` more tokens.
pub open spec fn split_sound(st: (Seq<CharSlot>, int, int), budget: int) -> bool {
    let (chars, ci, wi) = st;
    &&& 0 <= wi <= ci <= chars.len()
    &&& (ci > 0 ==> wi < ci)
    &&& forall|k: int| 0 <= k < chars.len() ==> #[trigger] chars[k].count + budget + 1 <= usize::MAX
}

fn place_char_exec(chars: &mut Vec<CharSlot>, index: usize, ch: char, char_i: isize)
    requires
        index <= old(chars).len(),
    ensures
        final(chars)@ == place_char(old(chars)@, index as int, ch, char_i),
{
    if index >= chars.len() {
        chars.push(CharSlot { ch, count: 0, char_i, context_id: -1 });
    } else if chars[index].ch != ch {
        chars.set(index, CharSlot { ch, count: 0, char_i, context_id: -1 });
    } else {
        let c = chars[index];
        chars.set(index, CharSlot { ch: c.ch, count: c.count, char_i, context_id: c.context_id });
    }
}

fn place_word_char_exec(chars: &mut Vec<CharSlot>, index: usize, word: usize, ch: char, char_i: isize)
    requires
        index <= old(chars).len(),
        word <= index,
        forall|k: int| 0 <= k < old(chars).len() ==> #[trigger] old(chars)@[k].count + 1 <= usize::MAX,
    ensures
        final(chars)@ == place_word_char(old(chars)@, index as int, word as int, ch, char_i),
{
    place_char_exec(chars, index, ch, char_i);
    let c = chars[index];
    chars.set(index, CharSlot { ch: c.ch, count: c.count, char_i: c.char_i, context_id: word as isize });
    let w = chars[word];
    chars.set(word, CharSlot { ch: w.ch, count: w.count + 1, char_i: w.char_i, context_id: w.context_id });
}

impl CalcTextSplit {
    /// Splits a text into character nodes, reusing the nodes `chars` of the
    /// previous split: `indent` tells whether the text has a positive
    /// indent, `tokens` are the tokens of the text.
    pub fn cacl_simple(chars: &mut Vec<CharSlot>, indent: bool, tokens: &Vec<SplitToken>)
        requires
            tokens.len() + 2 <= usize::MAX,
            forall|k: int| 0 <= k < old(chars).len() ==> #[trigger] old(chars)@[k].count + tokens.len() + 1 <= usize::MAX,
        ensures
            final(chars)@ == split_result(old(chars)@, indent, tokens@),
    {
        let ghost init = split_start(chars@, indent);
        let mut ci: usize = 0;
        let mut wi: usize = 0;
        if indent {
            if chars.len() == 0 {
                chars.push(CharSlot { ch: '\0', count: 0, char_i: -1, context_id: -1 });
            }
            let c = chars[0];
            chars.set(0, CharSlot { ch: ' ', count: c.count, char_i: -1, context_id: c.context_id });
            ci = 1;
        }
        proof {
            assert((chars@, ci as int, wi as int) == init);
        }
        let mut t: usize = 0;
        while t < tokens.len()
            invariant
                tokens.len() + 2 <= usize::MAX,
                t <= tokens.len(),
                (chars@, ci as int, wi as int) == split_fold(init, tokens@, t as int),
                split_sound((chars@, ci as int, wi as int), tokens.len() - t),
                ci <= chars.len(),
            decreases tokens.len() - t,
        {
            let ghost before = (chars@, ci as int, wi as int);
            match tokens[t] {
                SplitToken::Word(i, c) => {
                    place_char_exec(chars, ci, c, i);
                    let _len = chars.len();
                    ci = ci + 1;
                },
                SplitToken::WordNext(i, c) => {
                    place_word_char_exec(chars, ci, wi, c, i);
                    let _len = chars.len();
                    ci = ci + 1;
                },
                SplitToken::WordStart(i, c) => {
                    if ci >= chars.len() {
                        chars.push(CharSlot { ch: '\0', count: 1, char_i: -1, context_id: -1 });
                    } else {
                        chars.set(ci, CharSlot { ch: '\0', count: 1, char_i: -1, context_id: -1 });
                    }
                    let _len = chars.len();
                    wi = ci;
                    ci = ci + 1;
                    place_word_char_exec(chars, ci, wi, c, i);
                    let _len = chars.len();
                    ci = ci + 1;
                },
                SplitToken::WordEnd => {},
                SplitToken::Whitespace(i) => {
                    place_char_exec(chars, ci, ' ', i);
                    let _len = chars.len();
                    ci = ci + 1;
                },
                SplitToken::Newline(i) => {
                    if ci == chars.len() {
                        chars.push(CharSlot { ch: '\0', count: 0, char_i: -1, context_id: -1 });
                    }
                    let c = chars[ci];
                    chars.set(ci, CharSlot { ch: '\n', count: c.count, char_i: i, context_id: c.context_id });
                    let _len = chars.len();
                    ci = ci + 1;
                },
            }
            proof {
                assert(split_fold(init, tokens@, t + 1) == split_step(before, tokens@[t as int]));
            }
            t = t + 1;
        }
        proof {
            assert(tokens@.len() == t);
        }
        chars.truncate(ci);
    }
}

/// A text node to split: its layer in the node tree (`None` outside it),
/// whether it has a parent, whether it has a sibling, whether its width or
/// height is set, whether it is positioned absolutely, whether its text has
/// a positive indent, the tokens of its text, its character nodes and
/// whether it lays its characters out itself (a virtual node).
pub struct TextNode {
    pub layer: Option<usize>,
    pub has_parent: bool,
    pub has_sibling: bool,
    pub sized: bool,
    pub absolute: bool,
    pub indent: bool,
    pub tokens: Vec<SplitToken>,
    pub chars: Vec<CharSlot>,
    pub vnode: bool,
}

/// A split text node is virtual (its characters join its parent's layout)
/// unless it is the only child of its parent, or it is sized or positioned
/// absolutely.
pub open spec fn is_vnode(has_parent: bool, has_sibling: bool, sized: bool, absolute: bool) -> bool {
    !(has_parent && !has_sibling) && !(sized || absolute)
}

/// The position of the first node from `j` on that lies outside the tree or
/// on its top layer, or the number of nodes.
pub open spec fn first_stop(nodes: Seq<TextNode>, j: int) -> int
    decreases nodes.len() - j,
{
    if j < 0 || j >= nodes.len() {
        nodes.len() as int
    } else if nodes[j].layer is None || nodes[j].layer == Some(0usize) {
        j
    } else {
        first_stop(nodes, j + 1)
    }
}

/// A text node can be split without overflowing a count.
pub open spec fn text_node_fits(node: TextNode) -> bool {
    &&& node.tokens@.len() + 2 <= usize::MAX
    &&& forall|k: int| 0 <= k < node.chars@.len() ==> #[trigger] node.chars@[k].count + node.tokens@.len() + 1 <= usize::MAX
}

/// The node after its split.
pub open spec fn text_node_split(old_node: TextNode, new_node: TextNode) -> bool {
    &&& new_node.chars@ == split_result(old_node.chars@, old_node.indent, old_node.tokens@)
    &&& new_node.vnode == is_vnode(old_node.has_parent, old_node.has_sibling, old_node.sized, old_node.absolute)
    &&& new_node.tokens@ == old_node.tokens@
    &&& new_node.layer == old_node.layer
}

fn split_node(node: &mut TextNode)
    requires
        text_node_fits(*old(node)),
    ensures
        text_node_split(*old(node), *final(node)),
{
    CalcTextSplit::cacl_simple(&mut node.chars, node.indent, &node.tokens);
    node.vnode = !(node.has_parent && !node.has_sibling) && !(node.sized || node.absolute);
}

impl CalcTextSplit {
    /// Splits the text nodes whose text or font changed, in order; the first
    /// node outside the tree or on its top layer ends the work.
    pub fn text_split(nodes: &mut Vec<TextNode>)
        requires
            forall|j: int| 0 <= j < old(nodes).len() ==> text_node_fits(#[trigger] old(nodes)@[j]),
        ensures
            final(nodes).len() == old(nodes).len(),
            forall|j: int|
                0 <= j < final(nodes).len() ==> if j < first_stop(old(nodes)@, 0) {
                    text_node_split(old(nodes)@[j], #[trigger] final(nodes)@[j])
                } else {
                    final(nodes)@[j] == old(nodes)@[j]
                },
    {
        let n = nodes.len();
        let mut j: usize = 0;
        proof {
            lemma_first_stop_ge(old(nodes)@, 0);
        }
        while j < n
            invariant_except_break
                first_stop(old(nodes)@, 0) == first_stop(old(nodes)@, j as int),
            invariant
                n == nodes.len(),
                n == old(nodes).len(),
                j <= n,
                j <= first_stop(old(nodes)@, 0),
                forall|k: int| 0 <= k < n ==> text_node_fits(#[trigger] old(nodes)@[k]),
                forall|k: int| j <= k < n ==> #[trigger] nodes@[k] == old(nodes)@[k],
                forall|k: int| 0 <= k < j ==> text_node_split(old(nodes)@[k], #[trigger] nodes@[k]),
            ensures
                n == nodes.len(),
                j == first_stop(old(nodes)@, 0),
                forall|k: int| j <= k < n ==> #[trigger] nodes@[k] == old(nodes)@[k],
                forall|k: int| 0 <= k < j ==> text_node_split(old(nodes)@[k], #[trigger] nodes@[k]),
            decreases n - j,
        {
            let stop = match nodes[j].layer {
                Some(l) => l == 0,
                None => true,
            };
            if stop {
                break;
            }
            proof {
                assert(first_stop(old(nodes)@, j as int) == first_stop(old(nodes)@, j + 1));
                lemma_first_stop_ge(old(nodes)@, j + 1);
            }
            split_node(&mut nodes[j]);
            j = j + 1;
        }
    }
}

proof fn lemma_first_stop_ge(nodes: Seq<TextNode>, j: int)
    requires
        0 <= j <= nodes.len(),
    ensures
        j <= first_stop(nodes, j) <= nodes.len(),
    decreases nodes.len() - j,
{
    if j < nodes.len() {
        lemma_first_stop_ge(nodes, j + 1);
    }
}

/// The number of nodes that the first `k` tokens take: two for the start
/// of a longer word (its container and its first character), none for the
/// end of a word, one for every other token.
pub open spec fn nodes_for(tokens: Seq<SplitToken>, k: int) -> int
    decreases k,
{
    if k <= 0 {
        0
    } else {
        nodes_for(tokens, k - 1) + match tokens[k - 1] {
            SplitToken::WordStart(_, _) => 2int,
            SplitToken::WordEnd => 0int,
            _ => 1int,
        }
    }
}

proof fn lemma_split_count(init: (Seq<CharSlot>, int, int), tokens: Seq<SplitToken>, k: int)
    requires
        0 <= k <= tokens.len(),
        0 <= init.2 <= init.1 <= init.0.len(),
    ensures
        ({
            let (c, ci, wi) = split_fold(init, tokens, k);
            &&& ci == init.1 + nodes_for(tokens, k)
            &&& 0 <= wi <= ci <= c.len()
        }),
    decreases k,
{
    if k > 0 {
        lemma_split_count(init, tokens, k - 1);
    }
}

/// A longer word, from the node where it starts: after its first `m`
/// tokens (its start and `m - 1` further characters), its container stands
/// at the start node, is a fresh container (no character, no text index, no
/// word of its own) and counts exactly `1 + m`: itself and its `m`
/// characters, which follow it and all point to it.  Nodes left from an
/// earlier split do not enter the count.
pub proof fn lemma_word_container_counts(st: (Seq<CharSlot>, int, int), tokens: Seq<SplitToken>, m: int)
    requires
        0 <= st.1 <= st.0.len(),
        st.1 + m + 1 <= isize::MAX,
        1 <= m <= tokens.len(),
        tokens[0] is WordStart,
        forall|j: int| 1 <= j < m ==> #[trigger] tokens[j] is WordNext,
    ensures
        ({
            let (c, ci, wi) = split_fold(st, tokens, m);
            let w = st.1;
            &&& wi == w
            &&& ci == w + m + 1
            &&& ci <= c.len()
            &&& c[w].ch == '\0' && c[w].char_i == -1 && c[w].context_id == -1
            &&& c[w].count == m + 1
            &&& forall|j: int| 1 <= j <= m ==> (#[trigger] c[w + j]).context_id == w as isize
        }),
    decreases m,
{
    let w = st.1;
    if m == 1 {
        let (chars, ci, wi) = st;
        assert(split_fold(st, tokens, 0) == st);
        let c1 = place_slot(chars, ci, container_slot());
        assert(c1[ci] == container_slot());
        assert(split_fold(st, tokens, 1) == split_step(st, tokens[0]));
    } else {
        lemma_word_container_counts(st, tokens, m - 1);
        let prev = split_fold(st, tokens, m - 1);
        assert(tokens[m - 1] is WordNext);
        assert(split_fold(st, tokens, m) == split_step(prev, tokens[m - 1]));
        let (c, ci, wi) = prev;
        let c2 = split_fold(st, tokens, m).0;
        assert forall|j: int| 1 <= j <= m implies (#[trigger] c2[w + j]).context_id == w as isize by {
            if j < m {
                assert(c[w + j].context_id == w as isize);
            }
        }
    }
}

/// A split leaves one node per token, two per start of a longer word and
/// none per end of a word, plus one for an indent.
pub proof fn lemma_split_len(chars: Seq<CharSlot>, indent: bool, tokens: Seq<SplitToken>)
    ensures
        split_result(chars, indent, tokens).len() == (if indent {
            1int
        } else {
            0int
        }) + nodes_for(tokens, tokens.len() as int),
{
    lemma_split_count(split_start(chars, indent), tokens, tokens.len() as int);
}

} // verus!
