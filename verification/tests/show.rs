use pi_ui_render::show::{calc_show, set_show_data, Enable, IsShow, Show, ShowNode, NULL_INSTANCE};

fn state(v: bool, d: bool, e: bool) -> IsShow {
    IsShow { visibility: v, display: d, enable: e }
}

fn fields(s: &[IsShow]) -> Vec<(bool, bool, bool)> {
    s.iter().map(|x| (x.visibility, x.display, x.enable)).collect()
}

#[test]
fn calc_show_inherits_from_parents() {
    let parents = vec![None, Some(0), Some(1)];
    let show = vec![
        Show { display: true, visibility: true, enable: Enable::Visible },
        Show { display: false, visibility: true, enable: Enable::Auto },
        Show { display: true, visibility: true, enable: Enable::Auto },
    ];
    let mut is_show = vec![state(true, true, true); 3];
    let (display_change, visibility_change) = calc_show(&vec![0, 1, 2], &parents, &show, &mut is_show);
    assert_eq!(fields(&is_show), vec![(true, true, true), (true, false, true), (true, false, true)]);
    assert!(display_change);
    assert!(!visibility_change);
}

#[test]
fn calc_show_invisible_disables_enable() {
    let parents = vec![None, Some(0)];
    let show = vec![
        Show { display: true, visibility: false, enable: Enable::Visible },
        Show { display: true, visibility: true, enable: Enable::Visible },
    ];
    let mut is_show = vec![state(true, true, true); 2];
    let (display_change, visibility_change) = calc_show(&vec![0, 1], &parents, &show, &mut is_show);
    assert_eq!(fields(&is_show), vec![(false, true, false), (false, true, false)]);
    assert!(!display_change);
    assert!(visibility_change);
}

#[test]
fn calc_show_disable_and_auto() {
    let parents = vec![None, Some(0)];
    let show = vec![
        Show { display: true, visibility: true, enable: Enable::Disable },
        Show { display: true, visibility: true, enable: Enable::Auto },
    ];
    let mut is_show = vec![state(true, true, true); 2];
    calc_show(&vec![0, 1], &parents, &show, &mut is_show);
    assert_eq!(fields(&is_show), vec![(true, true, false), (true, true, false)]);
}

const FLAG: u32 = 3;

#[test]
fn set_show_data_clears_flag_of_visible_instances() {
    let hidden = 1u32 << FLAG;
    let mut tys = vec![hidden | 1; 12];
    let nodes = vec![ShowNode {
        is_show: state(true, false, true),
        draw_ranges: vec![(0, 6)],
        own_instance: Some(9),
    }];
    set_show_data(false, 1, &nodes, &mut tys, 2, FLAG);
    for o in 0..12 {
        let expect = if o == 0 || o == 2 || o == 4 || o == 9 { 1 } else { hidden | 1 };
        assert_eq!(tys[o], expect, "offset {}", o);
    }
}

#[test]
fn set_show_data_sets_flag_of_hidden_instances() {
    let mut tys = vec![1u32; 6];
    let nodes = vec![ShowNode { is_show: state(false, false, false), draw_ranges: vec![(0, 4)], own_instance: Some(5) }];
    set_show_data(false, 1, &nodes, &mut tys, 1, 2);
    assert_eq!(tys, vec![5, 5, 5, 5, 1, 5]);
}

#[test]
fn set_show_data_last_node_decides_shared_instance() {
    let hidden = 1u32 << FLAG;
    let mut tys = vec![0u32, hidden, 0];
    let nodes = vec![
        ShowNode { is_show: state(true, false, true), draw_ranges: vec![(0, 3)], own_instance: None },
        ShowNode { is_show: state(false, false, false), draw_ranges: vec![(1, 1)], own_instance: None },
    ];
    set_show_data(false, 1, &nodes, &mut tys, 1, FLAG);
    assert_eq!(tys, vec![0, hidden, 0]);
}

#[test]
fn set_show_data_stops_at_null_instance_start() {
    let hidden = 1u32 << FLAG;
    let mut tys = vec![hidden; 6];
    let nodes = vec![
        ShowNode { is_show: state(false, true, false), draw_ranges: vec![(0, 2)], own_instance: Some(NULL_INSTANCE) },
        ShowNode { is_show: state(true, true, true), draw_ranges: vec![(4, 2)], own_instance: None },
    ];
    set_show_data(false, 1, &nodes, &mut tys, 1, FLAG);
    assert_eq!(tys, vec![0, 0, hidden, hidden, hidden, hidden]);
}

#[test]
fn set_show_data_needs_events_and_a_running_frame() {
    let hidden = 1u32 << FLAG;
    let nodes = vec![ShowNode { is_show: state(true, true, true), draw_ranges: vec![(0, 1)], own_instance: None }];
    let mut tys = vec![hidden];
    set_show_data(true, 3, &nodes, &mut tys, 1, FLAG);
    assert_eq!(tys, vec![hidden]);
    set_show_data(false, 0, &nodes, &mut tys, 1, FLAG);
    assert_eq!(tys, vec![hidden]);
}
