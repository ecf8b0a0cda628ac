//! Core logic of a small game engine and its editor: the dockable panel
//! tree, primitive mesh index buffers, the log pool, and the frame
//! scheduling decisions.
pub mod split_panel_tree;
pub mod dynamic_panel;
pub mod primitives;
pub mod material;
pub mod mesh;
pub mod log_pool;
pub mod events;
pub mod scene;
pub mod widgets;
pub mod window;
pub mod plugins;
pub mod panels;
pub mod tree_shape;
pub mod tab_inventory;
pub mod hierarchy;
