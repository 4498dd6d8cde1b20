use pi_ui_render::camera::{calc_camera, render_choice, BoundBox, CameraStep, RenderChoice};
use pi_ui_render::render_target::{AsImageLevel, RenderTarget, TargetCache};

fn rt(target: Option<usize>, cache: TargetCache) -> RenderTarget {
    RenderTarget { target, cache }
}

fn step(is_active: bool, is_change: Option<bool>, clear_dirty: bool, bound: BoundBox) -> CameraStep {
    CameraStep { is_active, is_change, clear_dirty, bound }
}

#[test]
fn hidden_pass_gets_an_inactive_camera_and_keeps_its_dirt() {
    let mut t = rt(Some(3), TargetCache::Strong(3));
    let r = calc_camera(&mut t, Some(AsImageLevel::Off), true, false, true, false, false, true, false);
    assert_eq!(r, step(false, None, false, BoundBox::Unchanged));
    assert_eq!(t, rt(Some(3), TargetCache::Strong(3)));
}

#[test]
fn pass_without_root_or_with_empty_view_is_inactive() {
    let mut t = rt(None, TargetCache::Strong(4));
    let r = calc_camera(&mut t, Some(AsImageLevel::Force), true, true, false, false, false, true, false);
    assert_eq!(r, step(false, None, true, BoundBox::Unchanged));
    assert_eq!(t, rt(None, TargetCache::Strong(4)));
    let r = calc_camera(&mut t, Some(AsImageLevel::Force), true, true, true, true, false, true, false);
    assert_eq!(r, step(false, None, true, BoundBox::Unchanged));
    assert_eq!(t, rt(Some(4), TargetCache::Strong(4)));
}

#[test]
fn pass_without_target_renders_into_a_fresh_one() {
    let mut t = rt(None, TargetCache::Empty);
    let r = calc_camera(&mut t, None, true, true, true, false, false, false, false);
    assert_eq!(r, step(true, Some(true), true, BoundBox::ViewPort));
    let r = calc_camera(&mut t, None, true, true, true, false, true, false, false);
    assert_eq!(r, step(true, Some(true), true, BoundBox::WholeView));
}

#[test]
fn kept_target_is_dropped_when_its_size_changes() {
    let mut t = rt(None, TargetCache::Strong(7));
    let r = calc_camera(&mut t, Some(AsImageLevel::Force), true, true, true, false, false, false, true);
    assert_eq!(r, step(true, Some(true), true, BoundBox::WholeView));
    assert_eq!(t, rt(None, TargetCache::Empty));
    let mut t = rt(None, TargetCache::Strong(7));
    let r = calc_camera(&mut t, Some(AsImageLevel::Force), true, true, true, false, false, false, false);
    assert_eq!(r, step(true, Some(false), true, BoundBox::WholeView));
    assert_eq!(t, rt(Some(7), TargetCache::Strong(7)));
}

#[test]
fn render_choices() {
    assert_eq!(render_choice(false, false, false, true, true), RenderChoice::Skip);
    assert_eq!(render_choice(false, true, false, true, true), RenderChoice::Screen);
    assert_eq!(render_choice(false, true, true, true, true), RenderChoice::Fbo);
    assert_eq!(render_choice(true, false, false, true, true), RenderChoice::Fbo);
    assert_eq!(render_choice(true, true, false, false, true), RenderChoice::Fbo);
    assert_eq!(render_choice(true, false, false, true, false), RenderChoice::Existing);
}
