//! Verified core of the UI render pipeline: render-context marks, the pass
//! hierarchy, visibility inheritance, draw-list ordering and text-node layout
//! navigation.

pub mod geometry;
pub mod mark;
pub mod effect;
pub mod pass_tree;
pub mod pass_life;
pub mod show;
pub mod draw_list;
pub mod transition;
pub mod layout;
pub mod render_target;
pub mod post_effect;
pub mod graph;
pub mod system_set;
pub mod plugins;
pub mod render;
pub mod setting;
pub mod pass_mark;
pub mod text_split;
pub mod context;
pub mod overflow;
pub mod camera;
pub mod style_mark;
