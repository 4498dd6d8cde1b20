use pi_ui_render::text_split::{CalcTextSplit, CharSlot, SplitToken, TextNode};

fn slot(ch: char, count: usize, char_i: isize, context_id: isize) -> CharSlot {
    CharSlot { ch, count, char_i, context_id }
}

#[test]
fn split_builds_word_containers() {
    let mut chars = Vec::new();
    let tokens = vec![
        SplitToken::WordStart(0, 'a'),
        SplitToken::WordNext(1, 'b'),
        SplitToken::WordEnd,
        SplitToken::Whitespace(2),
        SplitToken::Word(3, 'c'),
        SplitToken::Newline(4),
    ];
    CalcTextSplit::cacl_simple(&mut chars, false, &tokens);
    assert_eq!(
        chars,
        vec![
            slot('\0', 3, -1, -1),
            slot('a', 0, 0, 0),
            slot('b', 0, 1, 0),
            slot(' ', 0, 2, -1),
            slot('c', 0, 3, -1),
            slot('\n', 0, 4, -1),
        ]
    );
}

#[test]
fn split_reuses_nodes_of_the_same_character() {
    let mut chars = vec![slot('x', 5, 9, 2), slot('c', 7, 1, 0), slot('z', 0, 2, -1)];
    CalcTextSplit::cacl_simple(&mut chars, false, &vec![SplitToken::Word(0, 'x'), SplitToken::Word(1, 'y')]);
    assert_eq!(chars, vec![slot('x', 5, 0, 2), slot('y', 0, 1, -1)]);
}

#[test]
fn split_with_indent() {
    let mut chars = Vec::new();
    CalcTextSplit::cacl_simple(&mut chars, true, &vec![SplitToken::Word(0, 'a')]);
    assert_eq!(chars, vec![slot(' ', 0, -1, -1), slot('a', 0, 0, -1)]);
    let mut chars = vec![slot('q', 4, 8, 1)];
    CalcTextSplit::cacl_simple(&mut chars, true, &Vec::new());
    assert_eq!(chars, vec![slot(' ', 4, -1, 1)]);
}

#[test]
fn split_of_empty_text_drops_all_nodes() {
    let mut chars = vec![slot('a', 0, 0, -1), slot('b', 0, 1, -1)];
    CalcTextSplit::cacl_simple(&mut chars, false, &Vec::new());
    assert!(chars.is_empty());
}

fn text_node(layer: Option<usize>, has_parent: bool, has_sibling: bool, sized: bool) -> TextNode {
    TextNode {
        layer,
        has_parent,
        has_sibling,
        sized,
        absolute: false,
        indent: false,
        tokens: vec![SplitToken::Word(0, 'k')],
        chars: Vec::new(),
        vnode: false,
    }
}

#[test]
fn text_split_stops_at_the_top_layer() {
    let mut nodes = vec![
        text_node(Some(2), true, true, false),
        text_node(Some(3), true, false, false),
        text_node(Some(0), true, true, false),
        text_node(Some(2), true, true, false),
    ];
    CalcTextSplit::text_split(&mut nodes);
    assert_eq!(nodes[0].chars, vec![slot('k', 0, 0, -1)]);
    assert!(nodes[0].vnode);
    assert_eq!(nodes[1].chars.len(), 1);
    assert!(!nodes[1].vnode);
    assert!(nodes[2].chars.is_empty());
    assert!(nodes[3].chars.is_empty());
}

#[test]
fn text_split_sized_node_is_no_vnode() {
    let mut nodes = vec![text_node(Some(1), true, true, true), text_node(None, true, true, false), text_node(Some(1), true, true, false)];
    CalcTextSplit::text_split(&mut nodes);
    assert!(!nodes[0].vnode);
    assert!(nodes[2].chars.is_empty());
}
