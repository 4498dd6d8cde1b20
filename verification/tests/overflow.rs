use pi_ui_render::mark::RenderContextMark;
use pi_ui_render::overflow::{overflow_mark, overflow_post_process, recursive_cal_overflow, OverflowPass};
use pi_ui_render::post_effect::PostProcessState;

const OVERFLOW: usize = 3;
const AS_IMAGE: usize = 5;

fn state(bits: &[usize], has_copy: bool) -> PostProcessState {
    let mut effect_mark = RenderContextMark::new();
    for b in bits {
        effect_mark.set(*b, true);
    }
    PostProcessState { effect_mark, has_copy }
}

fn pass(changed: bool, clips: bool, children: Vec<usize>) -> Option<OverflowPass> {
    Some(OverflowPass { changed, clips, children })
}

fn bits_of(p: &Option<PostProcessState>) -> (bool, bool, bool) {
    let p = p.as_ref().unwrap();
    (p.effect_mark.get(OVERFLOW), p.effect_mark.get(AS_IMAGE), p.has_copy)
}

#[test]
fn clipping_pass_gets_bit_and_copy() {
    let mut post = state(&[], false);
    overflow_mark(true, &mut post, OVERFLOW, AS_IMAGE);
    assert!(post.effect_mark.get(OVERFLOW));
    assert!(post.has_copy);
}

#[test]
fn non_clipping_pass_drops_copy_without_as_image() {
    let mut post = state(&[OVERFLOW], true);
    overflow_mark(false, &mut post, OVERFLOW, AS_IMAGE);
    assert!(!post.effect_mark.get(OVERFLOW));
    assert!(!post.has_copy);
}

#[test]
fn non_clipping_pass_keeps_copy_for_as_image() {
    let mut post = state(&[OVERFLOW, AS_IMAGE], true);
    overflow_mark(false, &mut post, OVERFLOW, AS_IMAGE);
    assert!(!post.effect_mark.get(OVERFLOW));
    assert!(post.effect_mark.get(AS_IMAGE));
    assert!(post.has_copy);
}

#[test]
fn only_changed_subtrees_are_recomputed() {
    let passes = vec![pass(false, false, vec![1, 2]), pass(true, true, vec![3]), pass(false, true, vec![]), pass(false, true, vec![])];
    let mut posts = vec![Some(state(&[], false)), Some(state(&[], false)), Some(state(&[], false)), Some(state(&[], false))];
    let order = overflow_post_process(false, &vec![0], &passes, &mut posts, OVERFLOW, AS_IMAGE);
    assert_eq!(order, vec![1, 3]);
    assert_eq!(bits_of(&posts[0]), (false, false, false));
    assert_eq!(bits_of(&posts[1]), (true, false, true));
    assert_eq!(bits_of(&posts[2]), (false, false, false));
    assert_eq!(bits_of(&posts[3]), (true, false, true));
}

#[test]
fn changed_root_recomputes_everything_parents_first() {
    let passes = vec![pass(true, false, vec![2, 1]), pass(false, true, vec![]), pass(false, false, vec![3]), pass(false, true, vec![])];
    let mut posts = vec![
        Some(state(&[OVERFLOW], true)),
        Some(state(&[], false)),
        Some(state(&[OVERFLOW, AS_IMAGE], true)),
        Some(state(&[], false)),
    ];
    let order = overflow_post_process(false, &vec![0], &passes, &mut posts, OVERFLOW, AS_IMAGE);
    assert_eq!(order, vec![0, 2, 3, 1]);
    assert_eq!(bits_of(&posts[0]), (false, false, false));
    assert_eq!(bits_of(&posts[1]), (true, false, true));
    assert_eq!(bits_of(&posts[2]), (false, true, true));
    assert_eq!(bits_of(&posts[3]), (true, false, true));
}

#[test]
fn missing_state_ends_the_walk_there() {
    let passes = vec![pass(true, true, vec![1]), pass(false, true, vec![2]), pass(false, true, vec![])];
    let mut posts = vec![Some(state(&[], false)), None, Some(state(&[], false))];
    let order = overflow_post_process(false, &vec![0], &passes, &mut posts, OVERFLOW, AS_IMAGE);
    assert_eq!(order, vec![0]);
    assert!(posts[1].is_none());
    assert_eq!(bits_of(&posts[2]), (false, false, false));
}

#[test]
fn nothing_changed_recomputes_nothing() {
    let passes = vec![pass(false, true, vec![1]), pass(false, true, vec![])];
    let mut posts = vec![Some(state(&[], false)), Some(state(&[AS_IMAGE], true))];
    let order = overflow_post_process(false, &vec![0, 1], &passes, &mut posts, OVERFLOW, AS_IMAGE);
    assert!(order.is_empty());
    assert_eq!(bits_of(&posts[0]), (false, false, false));
    assert_eq!(bits_of(&posts[1]), (false, true, true));
}

#[test]
fn held_frame_changes_nothing() {
    let passes = vec![pass(true, true, vec![])];
    let mut posts = vec![Some(state(&[], false))];
    let order = overflow_post_process(true, &vec![0], &passes, &mut posts, OVERFLOW, AS_IMAGE);
    assert!(order.is_empty());
    assert_eq!(bits_of(&posts[0]), (false, false, false));
}

#[test]
fn recompute_from_a_changed_parent() {
    let passes = vec![pass(false, false, vec![]), pass(false, true, vec![0])];
    let mut posts = vec![Some(state(&[OVERFLOW], true)), Some(state(&[], false))];
    let mut order = vec![7];
    recursive_cal_overflow(true, 1, &passes, &mut posts, &mut order, OVERFLOW, AS_IMAGE);
    assert_eq!(order, vec![7, 1, 0]);
    assert_eq!(bits_of(&posts[0]), (false, false, false));
    assert_eq!(bits_of(&posts[1]), (true, false, true));
}

#[test]
fn recomputing_twice_gives_the_same_state() {
    let mut post = state(&[AS_IMAGE], true);
    overflow_mark(false, &mut post, OVERFLOW, AS_IMAGE);
    let first = (post.effect_mark.get(OVERFLOW), post.effect_mark.get(AS_IMAGE), post.has_copy);
    overflow_mark(false, &mut post, OVERFLOW, AS_IMAGE);
    let second = (post.effect_mark.get(OVERFLOW), post.effect_mark.get(AS_IMAGE), post.has_copy);
    assert_eq!(first, second);
}
