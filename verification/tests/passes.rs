use pi_ui_render::mark::RenderContextMark;
use pi_ui_render::pass_life::{cal_context, cal_context_mark_dirty, cal_context_node, pass_instance_flags, PassLife};
use pi_ui_render::pass_mark::CalcMark;
use pi_ui_render::pass_tree::{
    calc_pass_children_and_clear, calc_pass_toop_sort, chain_ends, find_flagged_ancestor, get_to, mark_dirty_up,
};

fn tree() -> Vec<Option<usize>> {
    vec![None, Some(0), Some(0), Some(1)]
}

#[test]
fn children_and_leaves() {
    let (children, leaves) = calc_pass_children_and_clear(&tree());
    assert_eq!(children, vec![vec![1, 2], vec![3], vec![], vec![]]);
    assert_eq!(leaves, vec![2, 3]);
}

#[test]
fn children_ignore_parents_outside_the_passes() {
    let parents = vec![Some(7), Some(0)];
    let (children, leaves) = calc_pass_children_and_clear(&parents);
    assert_eq!(children, vec![vec![1], vec![]]);
    assert_eq!(leaves, vec![1]);
}

#[test]
fn toop_sort_children_first_with_effect_boundaries() {
    let parents = tree();
    let has_effect = vec![false, true, false, false];
    let (children, leaves) = calc_pass_children_and_clear(&parents);
    let (list, next) = calc_pass_toop_sort(&parents, &has_effect, &children, leaves);
    assert_eq!(list, vec![2, 3, 1, 0]);
    assert_eq!(next, vec![3, 4]);
}

#[test]
fn toop_sort_without_effects() {
    let parents = tree();
    let has_effect = vec![false; 4];
    let (children, leaves) = calc_pass_children_and_clear(&parents);
    let (list, next) = calc_pass_toop_sort(&parents, &has_effect, &children, leaves);
    assert_eq!(list, vec![2, 3, 1, 0]);
    assert_eq!(next, vec![4]);
}

#[test]
fn flagged_ancestor() {
    let parents = tree();
    assert_eq!(find_flagged_ancestor(&parents, &vec![true, false, false, false], 3), Some(0));
    assert_eq!(find_flagged_ancestor(&parents, &vec![false, true, false, true], 3), Some(3));
    assert_eq!(find_flagged_ancestor(&parents, &vec![false; 4], 3), None);
    assert_eq!(find_flagged_ancestor(&parents, &vec![true; 4], 9), None);
}

#[test]
fn get_to_finds_the_nearest_graph_node() {
    let parents = tree();
    let graph_ids = vec![Some(40), None, Some(42), None];
    assert_eq!(get_to(3, &parents, &graph_ids), Some(40));
    assert_eq!(get_to(2, &parents, &graph_ids), Some(42));
    assert_eq!(get_to(3, &parents, &vec![None; 4]), None);
}

#[test]
fn dirty_marks_go_up_to_a_marked_pass() {
    let parents = tree();
    let mut marks = vec![false, false, false, false];
    mark_dirty_up(&parents, &mut marks, Some(3));
    assert_eq!(marks, vec![true, true, false, true]);
    let mut marks = vec![false, true, false, false];
    mark_dirty_up(&parents, &mut marks, Some(3));
    assert_eq!(marks, vec![false, true, false, true]);
    mark_dirty_up(&parents, &mut marks, None);
    assert_eq!(marks, vec![false, true, false, true]);
}

fn mark_of(bits: &[usize]) -> RenderContextMark {
    let mut m = RenderContextMark::new();
    for &b in bits {
        m.set(b, true);
    }
    m
}

#[test]
fn mark_dirty_for_changed_marks() {
    assert!(cal_context_mark_dirty(&mark_of(&[]), true));
    assert!(!cal_context_mark_dirty(&mark_of(&[1]), true));
    assert!(cal_context_mark_dirty(&mark_of(&[1]), false));
    assert!(!cal_context_mark_dirty(&mark_of(&[]), false));
}

#[test]
fn context_node_creates_keeps_and_removes_passes() {
    let effects = mark_of(&[1, 2]);
    // a node that becomes a render context gets a pass under its parent's context
    let r = cal_context_node(5, &mark_of(&[2, 4]), None, None, Some(3), &effects);
    assert_eq!(r.in_pass_id, Some(5));
    match r.life {
        PassLife::Create { parent_pass_id, effect_mark } => {
            assert_eq!(parent_pass_id, Some(3));
            assert!(effect_mark.get(2) && !effect_mark.get(4) && !effect_mark.get(1));
        }
        _ => panic!("expected a created pass"),
    }
    // a node that keeps its pass, moved under another parent
    let info = mark_of(&[4, 7]);
    let r = cal_context_node(5, &mark_of(&[1, 4]), Some(Some(2)), Some(&info), Some(3), &effects);
    match r.life {
        PassLife::Keep { parent_pass_id, parent_changed, post_effect_mark } => {
            assert_eq!(parent_pass_id, Some(3));
            assert!(parent_changed);
            let m = post_effect_mark.unwrap();
            assert!(m.get(1) && m.get(4) && !m.get(7) && !m.get(2));
        }
        _ => panic!("expected a kept pass"),
    }
    // a node whose mark emptied loses its pass
    let r = cal_context_node(5, &mark_of(&[]), Some(Some(2)), None, Some(3), &effects);
    assert_eq!(r.in_pass_id, Some(3));
    assert!(matches!(r.life, PassLife::Remove));
    // a plain node draws into its parent's context
    let r = cal_context_node(5, &mark_of(&[]), None, None, None, &effects);
    assert_eq!(r.in_pass_id, None);
    assert!(matches!(r.life, PassLife::NotPass));
}

#[test]
fn calc_mark_sets_list_dirty() {
    let mut dirty = vec![false; 3];
    CalcMark::drawobj_create(&mut dirty, 1);
    assert_eq!(dirty, vec![false, true, false]);
    CalcMark::pass2d_create(&mut dirty, 1);
    assert_eq!(dirty, vec![false, false, false]);
    CalcMark::pass2d_create(&mut dirty, 9);
    assert_eq!(dirty, vec![false, false, false]);
    let parents = vec![None, Some(0), Some(1)];
    let in_pass = vec![Some(0), Some(2), None];
    CalcMark::pass2d_create_or_delete(&mut dirty, Some(2), &parents, &in_pass);
    assert_eq!(dirty, vec![false, false, true]);
    CalcMark::pass2d_create_or_delete(&mut dirty, Some(1), &parents, &in_pass);
    assert_eq!(dirty, vec![true, false, true]);
    let mut dirty = vec![false; 3];
    CalcMark::pass2d_create_or_delete(&mut dirty, Some(0), &parents, &in_pass);
    CalcMark::pass2d_create_or_delete(&mut dirty, None, &parents, &in_pass);
    CalcMark::pass2d_create_or_delete(&mut dirty, Some(3), &parents, &in_pass);
    assert_eq!(dirty, vec![false; 3]);
}

#[test]
fn cal_context_propagates_passes_down_the_tree() {
    let parents = vec![None, Some(0), Some(1), Some(1)];
    let marks = vec![mark_of(&[]), mark_of(&[2]), mark_of(&[]), mark_of(&[])];
    let pass_parents = vec![None, None, None, None];
    let post_marks: Vec<Option<RenderContextMark>> = vec![None, None, None, None];
    let mut in_pass = vec![Some(9), None, None, None];
    let changes = cal_context(&vec![0, 1, 2, 3, 7], &parents, &mut in_pass, &marks, &pass_parents, &post_marks, &mark_of(&[2]));
    assert_eq!(in_pass, vec![None, Some(1), Some(1), Some(1)]);
    assert_eq!(changes.iter().map(|c| c.0).collect::<Vec<_>>(), vec![0, 1, 2, 3]);
    match &changes[1].1.life {
        PassLife::Create { parent_pass_id, effect_mark } => {
            assert_eq!(*parent_pass_id, None);
            assert!(effect_mark.get(2));
        }
        _ => panic!("expected a created pass"),
    }
    assert!(matches!(changes[2].1.life, PassLife::NotPass));
}

#[test]
fn pass_instance_flags_mark_fbo_below_roots() {
    assert_eq!(pass_instance_flags(1, true, 1, 2, 3), 0b0111);
    assert_eq!(pass_instance_flags(1, false, 1, 2, 3), 0b1111);
    assert_eq!(pass_instance_flags(0, false, 4, 4, 4), 0b10000);
}

#[test]
fn chain_ends_detects_cycles() {
    let parents = vec![None, Some(0), Some(3), Some(2)];
    assert!(chain_ends(&parents, 1));
    assert!(!chain_ends(&parents, 2));
    assert!(chain_ends(&parents, 7));
}

#[test]
fn get_to_needs_only_its_own_chain_to_end() {
    // passes 2 and 3 form a cycle, but the chain from 1 ends at the root
    let parents = vec![None, Some(0), Some(3), Some(2)];
    let graph_ids = vec![Some(10), None, None, None];
    assert_eq!(get_to(1, &parents, &graph_ids), Some(10));
}
