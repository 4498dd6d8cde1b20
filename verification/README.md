# pi_ui_render

The decision logic of a GUI renderer built on an ECS, with its contracts
proved by Verus.

Nodes with effects (opacity, blur, hsi, clip paths, masks, overflow,
rendering as image) are drawn into passes of their own.  The library
decides:

- which nodes own passes and which pass every node renders into
  (`mark`, `effect`, `pass_life`, `context`, `pass_mark`);
- the pass hierarchy, its order for rendering and its render graph nodes
  (`pass_tree`, `graph`);
- the render lists of every pass: drawing order, opaque and transparent
  lists, depth slots (`draw_list`);
- visibility inheritance and its render flags (`show`);
- style marks, one bit per style property, and transitions between style
  values (`style_mark`, `transition`);
- the camera choices of a pass and where it renders (`camera`);
- the layout tree over nodes and text characters, the layout work of a
  frame, and the splitting of text into character nodes (`layout`,
  `text_split`);
- post-process bookkeeping, overflow clipping of passes and render-target
  caching (`post_effect`, `overflow`, `render_target`).

`src/` is the verified library.  `app/` is the engine side: ECS systems
that gather plain values for the library and apply its results, the
plugins, and the floating-point geometry.  `tests/` runs the library on
concrete values.
