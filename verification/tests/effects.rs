use pi_ui_render::effect::{
    context_attr_del, opacity_pass_mark, pass_mark, render_mark_false, render_mark_true, CalcBlur, CalcOpacity,
    OpacityRenderContextMarkType,
};
use pi_ui_render::mark::{RenderContextMark, MARK_BITS};
use pi_ui_render::post_effect::{
    as_image_change, as_image_post_process, AsImageNode, AsImageSetting, CalcOpacityPostProcess, OpacityPostAction,
    PostProcessState,
};

fn mark_of(bits: &[usize]) -> RenderContextMark {
    let mut m = RenderContextMark::new();
    for &b in bits {
        m.set(b, true);
    }
    m
}

fn set_bits(m: &RenderContextMark) -> Vec<usize> {
    (0..MARK_BITS).filter(|&i| m.get(i)).collect()
}

#[test]
fn mark_bits_set_get_replace() {
    let mut m = RenderContextMark::new();
    assert!(m.not_any());
    assert!(!m.any());
    assert!(!m.replace(5, true));
    assert!(m.get(5));
    assert!(m.any());
    assert!(m.replace(5, false));
    assert!(!m.get(5));
    m.set(31, true);
    assert_eq!(set_bits(&m), vec![31]);
    let d = m.duplicate();
    assert_eq!(set_bits(&d), vec![31]);
}

#[test]
fn mark_and_or() {
    let a = mark_of(&[1, 2, 30]);
    let b = mark_of(&[2, 3, 30]);
    assert_eq!(set_bits(&a.and(&b)), vec![2, 30]);
    assert_eq!(set_bits(&a.or(&b)), vec![1, 2, 3, 30]);
}

#[test]
fn render_mark_true_false_report_changes() {
    let mut m = RenderContextMark::new();
    assert!(render_mark_true(3, &mut m));
    assert!(!render_mark_true(3, &mut m));
    assert!(m.get(3));
    assert!(render_mark_false(3, &mut m));
    assert!(!render_mark_false(3, &mut m));
    assert!(m.not_any());
}

#[test]
fn attr_del_keeps_the_bit_of_a_present_value() {
    let mut m = mark_of(&[4]);
    assert!(!context_attr_del(4, &mut m, true));
    assert!(m.get(4));
    assert!(context_attr_del(4, &mut m, false));
    assert!(!m.get(4));
}

#[test]
fn pass_mark_follows_need() {
    let mut m = RenderContextMark::new();
    assert!(pass_mark(6, true, &mut m));
    assert!(m.get(6));
    assert!(pass_mark(6, false, &mut m));
    assert!(!m.get(6));
    assert!(!pass_mark(6, false, &mut m));
}

#[test]
fn opacity_marks_no_leaf() {
    let mut m = RenderContextMark::new();
    assert!(!opacity_pass_mark(2, true, true, &mut m));
    assert!(!m.get(2));
    assert!(opacity_pass_mark(2, true, false, &mut m));
    assert!(m.get(2));
}

#[test]
fn opacity_and_blur_marks_drop_empty_components() {
    let t = OpacityRenderContextMarkType(3);
    let m = CalcOpacity::opacity_change(&t, true, None).unwrap();
    assert_eq!(set_bits(&m), vec![3]);
    assert!(CalcOpacity::opacity_change(&t, false, Some(m)).is_none());
    let kept = CalcOpacity::opacity_change(&t, false, Some(mark_of(&[3, 9]))).unwrap();
    assert_eq!(set_bits(&kept), vec![9]);
    let m = CalcBlur::blur_change(7, true, Some(mark_of(&[1]))).unwrap();
    assert_eq!(set_bits(&m), vec![1, 7]);
    assert!(CalcBlur::blur_change(7, false, None).is_none());
}

const AS_IMAGE: usize = 4;
const OVERFLOW: usize = 5;

fn state(bits: &[usize], copy: bool) -> PostProcessState {
    PostProcessState { effect_mark: mark_of(bits), has_copy: copy }
}

#[test]
fn as_image_off_drops_the_copy_unless_overflow() {
    let off = AsImageSetting { level_off: true, post_process_null: true };
    let mut p = state(&[AS_IMAGE], true);
    assert!(!as_image_change(off, &mut p, AS_IMAGE, OVERFLOW));
    assert!(p.effect_mark.not_any());
    assert!(!p.has_copy);
    let mut p = state(&[AS_IMAGE, OVERFLOW], true);
    as_image_change(off, &mut p, AS_IMAGE, OVERFLOW);
    assert_eq!(set_bits(&p.effect_mark), vec![OVERFLOW]);
    assert!(p.has_copy);
}

#[test]
fn as_image_on_adds_a_copy() {
    let on = AsImageSetting { level_off: false, post_process_null: true };
    let mut p = state(&[], false);
    assert!(!as_image_change(on, &mut p, AS_IMAGE, OVERFLOW));
    assert_eq!(set_bits(&p.effect_mark), vec![AS_IMAGE]);
    assert!(p.has_copy);
}

#[test]
fn as_image_with_other_effects_drops_the_copy_and_stops() {
    let on = AsImageSetting { level_off: false, post_process_null: true };
    let mut p = state(&[AS_IMAGE, 1], true);
    assert!(as_image_change(on, &mut p, AS_IMAGE, OVERFLOW));
    assert!(!p.has_copy);
    assert_eq!(set_bits(&p.effect_mark), vec![1, AS_IMAGE]);
}

#[test]
fn as_image_post_process_applies_every_changed_node() {
    let on = AsImageSetting { level_off: false, post_process_null: true };
    let mut nodes = vec![
        AsImageNode { setting: on, post: Some(state(&[AS_IMAGE, 1], true)) },
        AsImageNode { setting: on, post: None },
        AsImageNode { setting: on, post: Some(state(&[], false)) },
    ];
    as_image_post_process(false, &mut nodes, AS_IMAGE, OVERFLOW);
    assert!(!nodes[0].post.as_ref().unwrap().has_copy);
    assert!(nodes[2].post.as_ref().unwrap().has_copy);
    assert!(nodes[2].post.as_ref().unwrap().effect_mark.get(AS_IMAGE));
    let mut nodes = vec![
        AsImageNode { setting: on, post: None },
        AsImageNode { setting: on, post: Some(state(&[], false)) },
    ];
    as_image_post_process(true, &mut nodes, AS_IMAGE, OVERFLOW);
    assert!(!nodes[1].post.as_ref().unwrap().has_copy);
    as_image_post_process(false, &mut nodes, AS_IMAGE, OVERFLOW);
    assert!(nodes[1].post.as_ref().unwrap().has_copy);
}

#[test]
fn opacity_post_process_actions() {
    assert_eq!(CalcOpacityPostProcess::opacity_change(false, true, Some(3)), OpacityPostAction::Nothing);
    assert_eq!(CalcOpacityPostProcess::opacity_change(true, true, Some(3)), OpacityPostAction::Modify(3));
    assert_eq!(CalcOpacityPostProcess::opacity_change(true, true, None), OpacityPostAction::Create);
    assert_eq!(CalcOpacityPostProcess::opacity_change(true, false, Some(3)), OpacityPostAction::Remove(3));
    assert_eq!(CalcOpacityPostProcess::opacity_change(true, false, None), OpacityPostAction::Nothing);
}
