use pi_ui_render::layout::{
    get_down, get_layer, get_up, layout_dirty, plan_layout, CharLink, Down, LayoutChanges, LayoutEvent, LayoutKey,
    Up, NULL_CONTEXT, NULL_ENTITY, NULL_INDEX,
};

#[test]
fn layout_test() {
    println!("id: {:?}", LayoutKey::null());
    assert!(LayoutKey::null().is_null());
}

#[test]
fn key_is_null_only_when_both_parts_are() {
    assert!(!LayoutKey { entity: 3, text_index: NULL_INDEX }.is_null());
    assert!(!LayoutKey { entity: NULL_ENTITY, text_index: 0 }.is_null());
    assert_eq!(LayoutKey::null(), LayoutKey { entity: NULL_ENTITY, text_index: NULL_INDEX });
}

fn node(e: usize) -> LayoutKey {
    LayoutKey { entity: e, text_index: NULL_INDEX }
}

fn ch(e: usize, i: usize) -> LayoutKey {
    LayoutKey { entity: e, text_index: i }
}

// a word of two characters (container at 0), then a lone character
fn word_chars() -> Vec<CharLink> {
    vec![
        CharLink { context_id: -1, count: 3 },
        CharLink { context_id: 0, count: 0 },
        CharLink { context_id: 0, count: 0 },
        CharLink { context_id: -1, count: 0 },
    ]
}

#[test]
fn up_of_an_ordinary_node_comes_from_the_node_tree() {
    let chars = Vec::new();
    let up = get_up(node(5), Some((1, 4, 6)), &chars);
    assert_eq!(up, Some(Up { parent: node(1), prev: node(4), next: node(6) }));
    assert_eq!(get_up(node(5), None, &chars), None);
}

#[test]
fn up_of_a_word_container_skips_its_characters() {
    let chars = word_chars();
    let up = get_up(ch(9, 0), None, &chars).unwrap();
    assert_eq!(up.parent, node(9));
    assert_eq!(up.prev, LayoutKey::null());
    assert_eq!(up.next, ch(9, 3));
}

#[test]
fn up_of_characters_inside_a_word() {
    let chars = word_chars();
    let up = get_up(ch(9, 1), None, &chars).unwrap();
    // the previous character is the container, whose context is null: no sibling
    assert_eq!(up.prev, LayoutKey::null());
    assert_eq!(up.next, ch(9, 2));
    let up = get_up(ch(9, 2), None, &chars).unwrap();
    assert_eq!(up.prev, ch(9, 1));
    assert_eq!(up.next, LayoutKey::null());
}

#[test]
fn up_of_the_character_after_a_word() {
    let chars = word_chars();
    let up = get_up(ch(9, 3), None, &chars).unwrap();
    assert_eq!(up.prev, ch(9, 0));
    assert_eq!(up.next, LayoutKey::null());
}

#[test]
fn down_of_a_text_node_leads_to_its_characters() {
    let mut chars = word_chars();
    chars[3].context_id = NULL_CONTEXT;
    let down = get_down(node(9), Some(&chars), Some((1, 2, 3, 4)));
    assert_eq!(down, Some(Down { head: ch(9, 0), tail: ch(9, 3), len: 0, count: 0 }));
    // a last character inside a word leads to the word's container
    let chars = vec![CharLink { context_id: -1, count: 2 }, CharLink { context_id: 0, count: 0 }];
    let down = get_down(node(9), Some(&chars), None).unwrap();
    assert_eq!(down.tail, ch(9, 0));
}

#[test]
fn down_of_other_keys() {
    let empty: Vec<CharLink> = Vec::new();
    assert_eq!(
        get_down(node(2), Some(&empty), Some((5, 7, 2, 6))),
        Some(Down { head: node(5), tail: node(7), len: 2, count: 6 })
    );
    assert_eq!(get_down(node(2), None, None), None);
    assert_eq!(get_down(ch(2, 0), Some(&word_chars()), Some((5, 7, 2, 6))), None);
}

#[test]
fn layer_only_for_ordinary_nodes() {
    assert_eq!(get_layer(node(1), Some(3)), Some(3));
    assert_eq!(get_layer(ch(1, 0), Some(3)), None);
}

fn no_change() -> LayoutChanges {
    LayoutChanges {
        size: false,
        position: false,
        margin: false,
        layer: false,
        min_max: false,
        text_content: false,
        text_style: false,
        flex_container: false,
        flex_normal: false,
        padding: false,
        border: false,
        show: false,
    }
}

#[test]
fn layout_dirty_classification() {
    let mut c = no_change();
    c.layer = true;
    let d = layout_dirty(&c);
    assert!(d.rect && d.children && !d.normal_style && !d.self_style && !d.display);
    let mut c = no_change();
    c.border = true;
    c.show = true;
    let d = layout_dirty(&c);
    assert!(!d.rect && !d.children && !d.normal_style && d.self_style && d.display);
    let mut c = no_change();
    c.flex_normal = true;
    assert!(layout_dirty(&c).normal_style);
    let mut c = no_change();
    c.text_style = true;
    assert!(layout_dirty(&c).children);
}

fn event(entity: usize, in_tree: bool, changes: LayoutChanges, parent_lost: bool) -> LayoutEvent {
    LayoutEvent { entity, in_tree, changes, parent_lost }
}

#[test]
fn plan_layout_steps_and_stops() {
    let mut size = no_change();
    size.size = true;
    let events = vec![
        event(1, true, size, false),
        event(2, false, size, false),
        event(3, true, no_change(), true),
        event(4, true, size, true),
        event(5, true, size, false),
    ];
    let plan = plan_layout(false, &events);
    assert_eq!(plan.steps.len(), 1);
    assert_eq!(plan.steps[0].0, 1);
    assert!(plan.steps[0].1.rect);
    assert!(plan.broken);
    assert!(!plan.compute);
    let plan = plan_layout(false, &vec![event(1, true, size, false)]);
    assert!(!plan.broken && plan.compute);
    let plan = plan_layout(true, &events);
    assert!(plan.steps.is_empty() && !plan.broken && !plan.compute);
    let plan = plan_layout(false, &Vec::new());
    assert!(!plan.compute);
}
