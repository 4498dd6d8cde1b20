use pi_ui_render::context::{recursive_set_node_context, ContextState, ContextTree};

fn tree() -> ContextTree {
    ContextTree {
        children: vec![vec![1, 2], vec![3], vec![], vec![]],
        has_mark: vec![false, true, true, false],
        pass_of: vec![None, Some(0), None, None],
    }
}

fn fresh_state() -> ContextState {
    ContextState { in_context: vec![None; 4], pass_parent: vec![None], dirty: vec![true; 4] }
}

#[test]
fn contexts_follow_passes_down_the_tree() {
    let t = tree();
    let mut st = fresh_state();
    recursive_set_node_context(&t, &mut st, 0, Some(9));
    assert_eq!(st.in_context, vec![Some(9), Some(0), None, Some(0)]);
    assert_eq!(st.pass_parent, vec![Some(9)]);
    // node 2 has a mark but no pass yet: it is left for later
    assert_eq!(st.dirty, vec![false, false, true, false]);
}

#[test]
fn a_pass_already_in_place_stops_the_descent() {
    let t = tree();
    let mut st = fresh_state();
    st.in_context = vec![None, Some(0), None, Some(5)];
    recursive_set_node_context(&t, &mut st, 1, Some(4));
    assert_eq!(st.pass_parent, vec![Some(4)]);
    assert_eq!(st.in_context, vec![None, Some(0), None, Some(5)]);
    assert_eq!(st.dirty, vec![true; 4]);
}

#[test]
fn a_node_outside_the_tree_changes_nothing() {
    let t = tree();
    let mut st = fresh_state();
    recursive_set_node_context(&t, &mut st, 7, None);
    assert_eq!(st.in_context, vec![None; 4]);
    assert_eq!(st.dirty, vec![true; 4]);
}
