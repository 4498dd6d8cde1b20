use pi_ui_render::draw_list::{
    calc_render_lists, depth_runs, draw_order, gather_node, sort_and_split, Draw2DList, DrawEntry, DrawIndex,
    DrawInfo, NodeDraws,
};

fn entry(index: DrawIndex, z: usize, order: u32, opaque: bool) -> DrawEntry {
    DrawEntry { index, z_start: z, info: DrawInfo::new(order, opaque) }
}

fn empty_list() -> Draw2DList {
    Draw2DList { all_list: Vec::new(), opaque: Vec::new(), transparent: Vec::new() }
}

#[test]
fn draw_info_new_keeps_fields() {
    let info = DrawInfo::new(7, true);
    assert_eq!(info.order, 7);
    assert!(info.is_opacity);
}

#[test]
fn draw_order_is_stable_by_depth_then_order() {
    let s = vec![
        entry(DrawIndex::DrawObj(0), 5, 2, false),
        entry(DrawIndex::DrawObj(1), 3, 1, false),
        entry(DrawIndex::DrawObj(2), 5, 1, false),
        entry(DrawIndex::DrawObj(3), 3, 1, false),
        entry(DrawIndex::DrawObj(4), 5, 2, false),
    ];
    assert_eq!(draw_order(&s), vec![1, 3, 2, 0, 4]);
}

#[test]
fn draw_order_of_empty_list() {
    let s: Vec<DrawEntry> = Vec::new();
    assert_eq!(draw_order(&s), Vec::<usize>::new());
}

#[test]
fn draws_before_compares_depth_first() {
    let a = entry(DrawIndex::DrawObj(0), 1, 9, false);
    let b = entry(DrawIndex::DrawObj(1), 2, 0, false);
    assert!(a.draws_before(&b));
    assert!(!b.draws_before(&a));
    let c = entry(DrawIndex::DrawObj(2), 1, 9, true);
    assert!(!a.draws_before(&c));
    assert!(!c.draws_before(&a));
}

#[test]
fn sort_and_split_orders_and_splits_by_opacity() {
    let mut list = empty_list();
    list.all_list = vec![
        entry(DrawIndex::DrawObj(10), 2, 0, true),
        entry(DrawIndex::Pass2D(11), 1, 10, false),
        entry(DrawIndex::DrawObj(12), 1, 3, true),
        entry(DrawIndex::DrawObj(13), 2, 0, false),
    ];
    list.opaque = vec![DrawIndex::DrawObj(99)];
    sort_and_split(&mut list);
    let order: Vec<DrawIndex> = list.all_list.iter().map(|e| e.index).collect();
    assert_eq!(
        order,
        vec![DrawIndex::DrawObj(12), DrawIndex::Pass2D(11), DrawIndex::DrawObj(10), DrawIndex::DrawObj(13)]
    );
    assert_eq!(list.opaque, vec![DrawIndex::DrawObj(12), DrawIndex::DrawObj(10)]);
    assert_eq!(list.transparent, vec![DrawIndex::Pass2D(11), DrawIndex::DrawObj(13)]);
}

#[test]
fn sorting_a_sorted_list_again_changes_nothing() {
    let mut list = empty_list();
    list.all_list = vec![
        entry(DrawIndex::DrawObj(0), 4, 1, true),
        entry(DrawIndex::DrawObj(1), 2, 5, false),
        entry(DrawIndex::DrawObj(2), 4, 1, false),
        entry(DrawIndex::DrawObj(3), 2, 5, true),
    ];
    sort_and_split(&mut list);
    let first: Vec<DrawIndex> = list.all_list.iter().map(|e| e.index).collect();
    assert_eq!(
        first,
        vec![DrawIndex::DrawObj(1), DrawIndex::DrawObj(3), DrawIndex::DrawObj(0), DrawIndex::DrawObj(2)]
    );
    sort_and_split(&mut list);
    let second: Vec<DrawIndex> = list.all_list.iter().map(|e| e.index).collect();
    assert_eq!(first, second);
    assert_eq!(draw_order(&list.all_list), vec![0, 1, 2, 3]);
}

#[test]
fn sort_and_split_clears_lists_of_empty_pass() {
    let mut list = empty_list();
    list.opaque = vec![DrawIndex::DrawObj(1)];
    list.transparent = vec![DrawIndex::DrawObj(2)];
    sort_and_split(&mut list);
    assert!(list.all_list.is_empty());
    assert!(list.opaque.is_empty());
    assert!(list.transparent.is_empty());
}

fn three_lists() -> Vec<Draw2DList> {
    vec![empty_list(), empty_list(), empty_list()]
}

#[test]
fn gather_node_puts_draws_into_pass_and_node_into_parent() {
    let mut lists = three_lists();
    let is_pass = vec![true, true, false];
    let parents = vec![None, Some(0), None];
    let node = NodeDraws {
        entity: 2,
        in_pass: 1,
        draws: vec![(7, DrawInfo::new(3, true)), (8, DrawInfo::new(4, false))],
        z_start: 4,
        visible: true,
        in_dirty_rect: true,
    };
    gather_node(&mut lists, &is_pass, &parents, &node);
    assert_eq!(
        lists[1].all_list,
        vec![entry(DrawIndex::DrawObj(7), 4, 3, true), entry(DrawIndex::DrawObj(8), 4, 4, false)]
    );
    assert_eq!(lists[0].all_list, vec![entry(DrawIndex::Pass2D(2), 4, 10, false)]);
    assert!(lists[2].all_list.is_empty());
}

#[test]
fn gather_node_skips_hidden_draws_but_links_parent() {
    let mut lists = three_lists();
    let is_pass = vec![true, true, false];
    let parents = vec![None, Some(0), None];
    let node = NodeDraws {
        entity: 1,
        in_pass: 1,
        draws: vec![(7, DrawInfo::new(3, true))],
        z_start: 2,
        visible: false,
        in_dirty_rect: true,
    };
    gather_node(&mut lists, &is_pass, &parents, &node);
    assert!(lists[1].all_list.is_empty());
    assert_eq!(lists[0].all_list, vec![entry(DrawIndex::Pass2D(1), 2, 10, false)]);
}

#[test]
fn gather_node_outside_dirty_rect_draws_nothing() {
    let mut lists = three_lists();
    let is_pass = vec![true, true, false];
    let parents = vec![None, None, None];
    let node = NodeDraws {
        entity: 2,
        in_pass: 1,
        draws: vec![(7, DrawInfo::new(3, true))],
        z_start: 2,
        visible: true,
        in_dirty_rect: false,
    };
    gather_node(&mut lists, &is_pass, &parents, &node);
    assert!(lists.iter().all(|l| l.all_list.is_empty()));
}

#[test]
fn gather_node_in_missing_pass_does_nothing() {
    let mut lists = three_lists();
    let is_pass = vec![true, true, false];
    let parents = vec![None, Some(0), Some(0)];
    let node = NodeDraws {
        entity: 2,
        in_pass: 2,
        draws: vec![(7, DrawInfo::new(3, true))],
        z_start: 2,
        visible: true,
        in_dirty_rect: true,
    };
    gather_node(&mut lists, &is_pass, &parents, &node);
    assert!(lists.iter().all(|l| l.all_list.is_empty()));
}

fn nested_lists() -> Vec<Draw2DList> {
    let mut lists = vec![empty_list(), empty_list()];
    lists[0].all_list = vec![entry(DrawIndex::DrawObj(5), 0, 1, false), entry(DrawIndex::Pass2D(1), 1, 10, false)];
    lists[1].all_list = vec![entry(DrawIndex::DrawObj(6), 1, 1, false), entry(DrawIndex::DrawObj(7), 2, 1, false)];
    lists
}

#[test]
fn depth_runs_descend_into_passes_without_effect() {
    let lists = nested_lists();
    let is_pass = vec![true, true];
    let parents = vec![None, Some(0)];
    let has_effect = vec![false, false];
    let mut has_state = vec![false; 8];
    has_state[5] = true;
    has_state[6] = true;
    let runs = depth_runs(&lists, &is_pass, &parents, &has_effect, &has_state);
    assert_eq!(runs[0], vec![DrawIndex::DrawObj(5), DrawIndex::DrawObj(6)]);
    assert_eq!(runs[1], vec![DrawIndex::DrawObj(6)]);
}

#[test]
fn depth_runs_give_an_effect_pass_one_slot() {
    let lists = nested_lists();
    let is_pass = vec![true, true];
    let parents = vec![None, Some(0)];
    let has_effect = vec![false, true];
    let has_state = vec![true; 8];
    let runs = depth_runs(&lists, &is_pass, &parents, &has_effect, &has_state);
    assert_eq!(runs[0], vec![DrawIndex::DrawObj(5), DrawIndex::Pass2D(1)]);
    assert!(runs[1].is_empty());
}

#[test]
fn depth_runs_of_a_root_with_effect() {
    let lists = nested_lists();
    let is_pass = vec![true, true];
    let parents = vec![None, Some(0)];
    let has_effect = vec![true, false];
    let has_state = vec![true; 8];
    let runs = depth_runs(&lists, &is_pass, &parents, &has_effect, &has_state);
    assert_eq!(runs[0], vec![DrawIndex::DrawObj(5), DrawIndex::DrawObj(6), DrawIndex::DrawObj(7)]);
    assert_eq!(runs[1], vec![DrawIndex::DrawObj(6), DrawIndex::DrawObj(7)]);
}

#[test]
fn calc_render_lists_builds_sorted_lists_and_depths() {
    let mut lists = vec![empty_list(), empty_list(), empty_list()];
    let is_pass = vec![true, true, false];
    let parents = vec![None, Some(0), None];
    let has_effect = vec![false, false, false];
    let mut has_state = vec![false; 10];
    for k in [3, 4, 5] {
        has_state[k] = true;
    }
    let nodes = vec![
        NodeDraws { entity: 0, in_pass: 0, draws: vec![(3, DrawInfo::new(2, false))], z_start: 0, visible: true, in_dirty_rect: true },
        NodeDraws { entity: 1, in_pass: 1, draws: vec![(4, DrawInfo::new(1, true))], z_start: 2, visible: true, in_dirty_rect: true },
        NodeDraws { entity: 2, in_pass: 1, draws: vec![(5, DrawInfo::new(1, false))], z_start: 1, visible: true, in_dirty_rect: true },
    ];
    let runs = calc_render_lists(&mut lists, &nodes, &is_pass, &parents, &has_effect, &has_state);
    // pass 0 holds its own draw object and the entries of the two nodes of pass 1
    assert_eq!(lists[0].transparent, vec![DrawIndex::DrawObj(3), DrawIndex::Pass2D(2), DrawIndex::Pass2D(1)]);
    assert!(lists[0].opaque.is_empty());
    assert_eq!(lists[1].opaque, vec![DrawIndex::DrawObj(4)]);
    assert_eq!(lists[1].transparent, vec![DrawIndex::DrawObj(5)]);
    assert!(lists.iter().all(|l| l.all_list.is_empty()));
    assert_eq!(runs[0], vec![DrawIndex::DrawObj(3), DrawIndex::DrawObj(5), DrawIndex::DrawObj(4)]);
    assert_eq!(runs[1], vec![DrawIndex::DrawObj(5), DrawIndex::DrawObj(4)]);
    assert!(runs[2].is_empty());
}
