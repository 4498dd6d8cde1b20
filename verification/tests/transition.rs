use pi_ui_render::style_mark::{StyleMarkType, STYLE_BITS};
use pi_ui_render::transition::{
    mark_listed, realign_data, rebuild_all_data, transition_1,
    transition_1_node, transition_2, transition_2_node, StyleMark, Transition, TransitionAction, TransitionData,
    TransitionNode, NULL_PROPERTY,
};

const N: usize = STYLE_BITS;

fn data(start: Option<u32>, end: Option<u32>, property: usize) -> TransitionData<u32> {
    TransitionData { start, end, property }
}

fn bits(set: &[usize]) -> StyleMarkType {
    StyleMarkType::from_props(&set.to_vec())
}

fn marks(dirty: &[usize], class: &[usize], local: &[usize]) -> StyleMark {
    StyleMark { dirty_style: bits(dirty), class_style: bits(class), local_style: bits(local) }
}

fn values(set: &[(usize, u32)]) -> Vec<Option<u32>> {
    let mut v = vec![None; N];
    for &(p, x) in set {
        v[p] = Some(x);
    }
    v
}

fn fields(d: &[TransitionData<u32>]) -> Vec<(Option<u32>, Option<u32>, usize)> {
    d.iter().map(|x| (x.start, x.end, x.property)).collect()
}

fn bind(property: usize, slot: usize, start: u32, end: u32) -> (u8, usize, usize, u32, u32) {
    (2, property, slot, start, end)
}

fn acts(a: &[TransitionAction<u32>]) -> Vec<(u8, usize, usize, u32, u32)> {
    a.iter()
        .map(|x| match x {
            TransitionAction::UnbindAll => (0, 0, 0, 0, 0),
            TransitionAction::UnbindSingle(p) => (1, *p, 0, 0, 0),
            TransitionAction::Bind { property, slot, start, end } => (2, *property, *slot, *start, *end),
        })
        .collect()
}

#[test]
fn mark_helpers() {
    let a = bits(&[1, 3]);
    let b = bits(&[3, 4]);
    assert_eq!(a.and(&b).ones(), vec![3]);
    assert_eq!(a.or(&b).ones(), vec![1, 3, 4]);
    assert!(a.any());
    assert!(!bits(&[]).any());
    assert!(a.same(&bits(&[1, 3])));
    assert!(!a.same(&b));
    assert_eq!(b.ones(), vec![3, 4]);
    assert!(bits(&[127]).get(127));
}

#[test]
fn listed_mark_stops_at_null() {
    let (mark, is_all) = mark_listed(&vec![2, 5, NULL_PROPERTY, 6]);
    assert_eq!(mark.ones(), vec![2, 5]);
    assert_eq!(is_all, 2);
    let (mark, is_all) = mark_listed(&vec![2, 5]);
    assert_eq!(mark.ones(), vec![2, 5]);
    assert_eq!(is_all, NULL_PROPERTY);
}

#[test]
fn realign_takes_over_records_by_property() {
    let old = vec![data(Some(1), None, 5), data(Some(2), Some(3), 2)];
    let r = realign_data(old, &vec![2, 7, 5]);
    assert_eq!(fields(&r), vec![(Some(2), Some(3), 2), (None, None, 7), (Some(1), None, 5)]);
}

#[test]
fn realign_gives_a_duplicate_property_to_its_last_position() {
    let old = vec![data(Some(1), None, 4)];
    let r = realign_data(old, &vec![4, 4]);
    assert_eq!(fields(&r), vec![(None, None, 4), (Some(1), None, 4)]);
}

#[test]
fn rebuild_all_adds_a_fresh_record_after_the_last_one_left() {
    let old = vec![data(Some(9), None, 2)];
    let r = rebuild_all_data(old, &vec![2]);
    assert_eq!(fields(&r), vec![(Some(9), None, 2), (None, None, 2)]);
    let old = vec![data(Some(9), None, 2), data(Some(8), None, 3)];
    let r = rebuild_all_data(old, &vec![2, 5]);
    assert_eq!(fields(&r), vec![(Some(9), None, 2), (None, None, 5)]);
}

fn explicit(props: Vec<usize>) -> Transition<u32> {
    Transition { property: props, mark: bits(&[]), is_all: NULL_PROPERTY, data: Vec::new() }
}

#[test]
fn phase_one_records_start_then_end_and_binds() {
    let mut t = explicit(vec![3, 5]);
    // the transition was just set: curves are unbound, records are made
    let a = transition_1_node(&mut t, true, &marks(&[3], &[], &[]), &bits(&[]), &values(&[(3, 10)]));
    assert_eq!(acts(&a), vec![(0, 0, 0, 0, 0)]);
    assert_eq!(t.mark.ones(), vec![3, 5]);
    assert_eq!(t.is_all, NULL_PROPERTY);
    assert_eq!(fields(&t.data), vec![(Some(10), None, 3), (None, None, 5)]);
    // the next change of property 3 becomes the end: the curve is bound
    let a = transition_1_node(&mut t, false, &marks(&[3], &[], &[]), &bits(&[]), &values(&[(3, 20)]));
    assert_eq!(acts(&a), vec![bind(3, 0, 10, 20)]);
    assert_eq!(fields(&t.data), vec![(Some(10), Some(20), 3), (None, None, 5)]);
}

#[test]
fn phase_one_unbinds_a_removed_value() {
    let mut t = explicit(vec![3, 5]);
    t.mark = bits(&[3, 5]);
    t.data = vec![data(Some(1), Some(2), 3), data(Some(4), None, 5)];
    let a = transition_1_node(&mut t, false, &marks(&[5], &[], &[]), &bits(&[]), &values(&[]));
    assert_eq!(acts(&a), vec![(1, 5, 0, 0, 0)]);
    assert_eq!(fields(&t.data), vec![(Some(1), Some(2), 3), (None, None, 5)]);
}

#[test]
fn phase_one_ignores_changes_of_other_properties() {
    let mut t = explicit(vec![3]);
    t.mark = bits(&[3]);
    t.data = vec![data(Some(1), None, 3)];
    let a = transition_1_node(&mut t, false, &marks(&[4], &[], &[]), &bits(&[]), &values(&[(4, 9)]));
    assert!(a.is_empty());
    assert_eq!(fields(&t.data), vec![(Some(1), None, 3)]);
}

#[test]
fn phase_one_over_all_interpolable_set_properties() {
    let mut t = Transition { property: vec![NULL_PROPERTY], mark: bits(&[]), is_all: NULL_PROPERTY, data: Vec::new() };
    let a = transition_1_node(
        &mut t,
        true,
        &marks(&[2], &[1], &[2, 6]),
        &bits(&[1, 2, 3]),
        &values(&[(2, 5)]),
    );
    assert_eq!(t.is_all, 0);
    assert_eq!(t.mark.ones(), vec![1, 2]);
    assert_eq!(fields(&t.data), vec![(None, None, 1), (Some(5), None, 2)]);
    assert_eq!(acts(&a), vec![(0, 0, 0, 0, 0)]);
}

#[test]
fn phase_two_takes_changed_values_as_start() {
    let mut t = explicit(vec![3, 5]);
    t.mark = bits(&[3, 5]);
    t.data = vec![data(Some(1), Some(2), 3), data(Some(4), None, 5)];
    transition_2_node(&mut t, &bits(&[5]), &values(&[(5, 7)]));
    assert_eq!(fields(&t.data), vec![(Some(1), Some(2), 3), (Some(7), None, 5)]);
    // a removed value leaves the record
    transition_2_node(&mut t, &bits(&[3]), &values(&[]));
    assert_eq!(fields(&t.data), vec![(Some(1), Some(2), 3), (Some(7), None, 5)]);
}

#[test]
fn phase_two_for_all_counts_only_changed_properties() {
    let mut t = Transition {
        property: vec![NULL_PROPERTY],
        mark: bits(&[1, 2]),
        is_all: 0,
        data: vec![data(None, None, 1), data(None, None, 2)],
    };
    transition_2_node(&mut t, &bits(&[2]), &values(&[(2, 3)]));
    assert_eq!(fields(&t.data), vec![(Some(3), None, 1), (None, None, 2)]);
}

fn node(t: Transition<u32>, changed: bool, m: StyleMark, cur: Vec<Option<u32>>) -> TransitionNode<u32> {
    TransitionNode { transition: t, changed, marks: m, current: cur }
}

#[test]
fn transition_systems_do_nothing_while_held_or_unchanged() {
    let mut nodes = vec![node(explicit(vec![3]), true, marks(&[3], &[], &[]), values(&[(3, 1)]))];
    let a = transition_1(true, 1, &mut nodes, &bits(&[]));
    assert!(a.is_empty());
    assert!(nodes[0].transition.data.is_empty());
    let a = transition_1(false, 0, &mut nodes, &bits(&[]));
    assert!(a.is_empty());
    assert!(nodes[0].transition.data.is_empty());
    let a = transition_1(false, 1, &mut nodes, &bits(&[]));
    assert_eq!(a.len(), 1);
    assert_eq!(fields(&nodes[0].transition.data), vec![(Some(1), None, 3)]);
    transition_2(false, 0, &mut nodes);
    assert_eq!(fields(&nodes[0].transition.data), vec![(Some(1), None, 3)]);
    nodes[0].current = values(&[(3, 4)]);
    transition_2(false, 2, &mut nodes);
    assert_eq!(fields(&nodes[0].transition.data), vec![(Some(4), None, 3)]);
}

#[test]
fn phase_one_for_all_leaves_a_removed_record_to_the_next_property() {
    let mut t = Transition {
        property: vec![NULL_PROPERTY],
        mark: bits(&[1, 2]),
        is_all: 0,
        data: vec![data(Some(4), None, 1), data(Some(6), None, 2)],
    };
    let a = transition_1_node(&mut t, false, &marks(&[1, 2], &[1, 2], &[]), &bits(&[1, 2]), &values(&[(2, 9)]));
    // property 1 has no value: its record is reset; property 2 then takes the
    // same record, which is empty, so its value becomes the start
    assert_eq!(acts(&a), vec![(1, 1, 0, 0, 0)]);
    assert_eq!(fields(&t.data), vec![(Some(9), None, 1), (Some(6), None, 2)]);
}

#[test]
fn readiness_checks_match_the_state() {
    let good = node(explicit(vec![3]), true, marks(&[3], &[], &[]), values(&[(3, 1)]));
    assert!(pi_ui_render::transition::transition_node_ready(&good, &bits(&[])));
    let short = node(explicit(vec![3]), true, marks(&[3], &[], &[]), vec![None; 2]);
    assert!(!pi_ui_render::transition::transition_node_ready(&short, &bits(&[])));
    let out_of_range = node(explicit(vec![N + 1]), true, marks(&[3], &[], &[]), values(&[]));
    assert!(!pi_ui_render::transition::transition_node_ready(&out_of_range, &bits(&[])));
    let mut unfit = explicit(vec![3]);
    unfit.mark = bits(&[3]);
    let stale = node(unfit, false, marks(&[3], &[], &[]), values(&[]));
    assert!(!pi_ui_render::transition::transition_node_ready(&stale, &bits(&[])));
    let mut wf = explicit(vec![3]);
    wf.mark = bits(&[3]);
    wf.data = vec![data(None, None, 3)];
    assert!(pi_ui_render::transition::transition_state_wf(&wf));
    wf.data.clear();
    assert!(!pi_ui_render::transition::transition_state_wf(&wf));
}
