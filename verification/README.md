# engine

The verified core of a small game engine and of its editor.

`src/` is the library, checked with Verus:

- `split_panel_tree`: the editor's dockable panels, an implicit binary tree
  stored in a vector (splits, tab insertion, removal of empty containers);
- `dynamic_panel`: what happens when a dragged tab is dropped;
- `tree_shape`, `tab_inventory`: the shape every operation keeps and the
  tabs a drop moves without losing any;
- `panels`: the editor's default layout;
- `primitives`, `mesh`, `material`: mesh identifiers and the index buffers
  of the generated primitives;
- `scene`: the models drawn in a scene and the plan of their instances
  (which entities, in which order, carrying whose transform);
- `hierarchy`: what a click in the hierarchy widget selects and expands;
- `log_pool`: the records shown by the log section;
- `events`: the work done for each host event;
- `widgets`, `window`, `plugins`: plain state of the widgets and plugins.

`app/` is the editor program around it: the application container and its
plugins, the immediate mode interface drawn with `egui`, the `log` facade's
logger, and the floating point vertex data of the primitives.

`tests/` runs the library on concrete values.
