use engine::material::{MaterialComponent, MaterialKind, MaterialTexture};
use engine::mesh::Mesh;
use engine::scene::ForwardModelID;
use engine::widgets::{MenuState, ShadowEdge, TabWidget, ThemeType};
use engine::window::{letter_key_code, Size, WinitWindowPlugin};

#[test]
fn material_names() {
    let material = MaterialComponent::new("debug_material".to_string());
    assert_eq!(*material, "debug_material");
    assert_eq!(material.0, "debug_material");
    assert_eq!(MaterialTexture::Diffuse.as_string(), "tex_diffuse");
    assert_eq!(MaterialKind::Untextured.pipeline_id(), "untextured_material_pipeline_id");
}

#[test]
fn mesh_keeps_its_buffers() {
    let mesh = Mesh::new(vec![1u8, 2, 3], vec![0u16, 1, 2]);
    assert_eq!(mesh.vertex_buffer(), &vec![1u8, 2, 3]);
    assert_eq!(mesh.index_buffer(), &vec![0u16, 1, 2]);
}

#[test]
fn forward_model_ids_compare_by_mesh_and_material() {
    let a = ForwardModelID { mesh_id: "cube".to_string(), material_id: None };
    let b = ForwardModelID { mesh_id: "cube".to_string(), material_id: None };
    let c = ForwardModelID { mesh_id: "cube".to_string(), material_id: Some("m".to_string()) };
    assert!(a == b);
    assert!(a != c);
    let mut set = std::collections::HashSet::new();
    set.insert(a.clone());
    assert!(set.contains(&b));
    assert!(!set.contains(&c));
}

#[test]
fn menu_state_toggles() {
    assert!(!MenuState::closed().is_open);
    assert!(MenuState::open().is_open);
    assert!(!MenuState::default().is_open);
    assert!(MenuState::closed().inverse().is_open);
    assert!(!MenuState::open().inverse().inverse().inverse().is_open);
}

#[test]
fn window_plugin_settings() {
    let plugin = WinitWindowPlugin::new("My game", 2048, 1200);
    assert_eq!(plugin.title, "My game");
    assert_eq!(plugin.size, Size::new(2048, 1200));
    assert_eq!(plugin.size.width, 2048);
    assert_eq!(plugin.size.height, 1200);
}

#[test]
fn toolbar_tab_title() {
    assert_eq!(TabWidget::new("Scene").title, "Scene");
    assert_ne!(ThemeType::Light, ThemeType::Dark);
}

#[test]
fn letter_keys_map_to_engine_codes() {
    assert_eq!(letter_key_code(19), Some(0));
    assert_eq!(letter_key_code(44), Some(25));
    assert_eq!(letter_key_code(45), None);
    assert_eq!(letter_key_code(17), None);
    assert_eq!(letter_key_code(0), None);
}

#[test]
fn shadow_offsets_only_on_chosen_edges() {
    let edge = ShadowEdge { left: true, right: true, top: true, bottom: false };
    assert_eq!(edge.offsets(0), (1, 1, 1, 0));
    assert_eq!(edge.offsets(2), (3, 3, 3, 0));
    let none = ShadowEdge { left: false, right: false, top: false, bottom: false };
    assert_eq!(none.offsets(4), (0, 0, 0, 0));
}

#[test]
fn menu_toggled_twice_is_unchanged() {
    let open = MenuState::open();
    assert_eq!(open.inverse().inverse().is_open, open.is_open);
    let closed = MenuState::default();
    assert_eq!(closed.inverse().inverse().is_open, closed.is_open);
}
