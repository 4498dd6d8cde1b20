use pi_ui_render::geometry::push_quad;
use pi_ui_render::graph::{graph_node_change, parent_link, post_process_target, GraphNodeChange, ParentLink};
use pi_ui_render::render_target::{check_render_target, AsImageLevel, CacheKind, RenderTarget, TargetCache, TargetPlan};
use pi_ui_render::setting::SingleId;

#[test]
fn push_quad_appends_two_triangles() {
    let mut ib = vec![9u16];
    push_quad(&mut ib, 0, 1, 2, 3);
    assert_eq!(ib, vec![9, 0, 1, 2, 0, 2, 3]);
}

#[test]
fn graph_nodes_for_effects_and_roots() {
    assert_eq!(graph_node_change(true, false, false), GraphNodeChange::Add);
    assert_eq!(graph_node_change(false, true, true), GraphNodeChange::Keep);
    assert_eq!(graph_node_change(false, false, true), GraphNodeChange::Remove);
    assert_eq!(graph_node_change(false, false, false), GraphNodeChange::Keep);
    assert_eq!(parent_link(false, true), ParentLink::Skip);
    assert_eq!(parent_link(true, true), ParentLink::Finish);
    assert_eq!(parent_link(true, false), ParentLink::Depend);
    assert_eq!(post_process_target(1, Some(8), true), 8);
    assert_eq!(post_process_target(1, Some(8), false), 1);
    assert_eq!(post_process_target(1, None, true), 1);
}

fn rt(target: Option<usize>, cache: TargetCache) -> RenderTarget {
    RenderTarget { target, cache }
}

#[test]
fn render_target_cache_follows_as_image() {
    let mut r = rt(None, TargetCache::Strong(4));
    check_render_target(&mut r, Some(AsImageLevel::Advise), true);
    assert_eq!(r, rt(Some(4), TargetCache::Weak(4)));
    check_render_target(&mut r, Some(AsImageLevel::Force), true);
    assert_eq!(r, rt(Some(4), TargetCache::Strong(4)));
    let mut r = rt(Some(1), TargetCache::Weak(4));
    check_render_target(&mut r, Some(AsImageLevel::Advise), false);
    assert_eq!(r, rt(Some(1), TargetCache::Empty));
    let mut r = rt(Some(1), TargetCache::Weak(4));
    check_render_target(&mut r, Some(AsImageLevel::Force), false);
    assert_eq!(r, rt(Some(1), TargetCache::Empty));
    let mut r = rt(Some(1), TargetCache::Strong(4));
    check_render_target(&mut r, None, true);
    assert_eq!(r, rt(Some(1), TargetCache::Empty));
    let mut r = rt(Some(1), TargetCache::Strong(4));
    check_render_target(&mut r, Some(AsImageLevel::Off), true);
    assert_eq!(r, rt(Some(1), TargetCache::Empty));
    let mut r = rt(None, TargetCache::Empty);
    check_render_target(&mut r, Some(AsImageLevel::Force), true);
    assert_eq!(r, rt(None, TargetCache::Empty));
}

#[test]
fn single_id_holds_indices() {
    let s = SingleId { user_commands: 1, class_sheet: 2, fragments: 3 };
    assert_eq!((s.user_commands, s.class_sheet, s.fragments), (1, 2, 3));
}

#[test]
fn target_plans() {
    let none = rt(None, TargetCache::Empty);
    let held = rt(Some(5), TargetCache::Strong(5));
    assert_eq!(none.get_or_create(false, false, 10, 10, None, false, 0, 1000), TargetPlan::NoTarget);
    assert_eq!(held.get_or_create(true, false, 10, 10, None, false, 0, 1000), TargetPlan::Existing);
    assert_eq!(none.get_or_create(false, true, 0, 10, None, false, 0, 1000), TargetPlan::NoTarget);
    assert_eq!(none.get_or_create(true, false, 10, 10, None, false, 0, 1000), TargetPlan::Allocate(CacheKind::Uncached));
    assert_eq!(
        none.get_or_create(false, true, 10, 10, Some(AsImageLevel::Advise), true, 700, 1000),
        TargetPlan::NoTarget
    );
    assert_eq!(
        none.get_or_create(false, true, 10, 10, Some(AsImageLevel::Advise), false, 700, 1000),
        TargetPlan::Allocate(CacheKind::Weak)
    );
    assert_eq!(
        none.get_or_create(false, true, 10, 10, Some(AsImageLevel::Advise), true, 600, 1000),
        TargetPlan::Allocate(CacheKind::Weak)
    );
    assert_eq!(
        none.get_or_create(false, true, 10, 10, Some(AsImageLevel::Force), true, 700, 1000),
        TargetPlan::Allocate(CacheKind::Strong)
    );
}
