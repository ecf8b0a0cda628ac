use engine::scene::{plan_instances, ForwardModelID, InstanceRow};

fn row(
    entity: u64,
    hierarchy: Option<(u64, Option<u64>)>,
    mesh: &str,
    material: Option<&str>,
    target: Option<&str>,
) -> InstanceRow {
    InstanceRow {
        entity,
        hierarchy,
        mesh_id: mesh.to_string(),
        material_id: material.map(|m| m.to_string()),
        target: target.map(|t| t.to_string()),
    }
}

fn rows() -> Vec<InstanceRow> {
    vec![
        row(10, Some((1, Some(20))), "cube", None, None),
        row(20, Some((0, None)), "cube", None, None),
        row(30, None, "sphere", Some("m"), None),
        row(40, Some((2, Some(10))), "sphere", Some("m"), None),
        row(50, None, "cube", None, Some("Sub")),
        row(60, Some((1, Some(20))), "plane", None, None),
        row(70, Some((3, Some(40))), "sphere", Some("m"), None),
    ]
}

fn id(mesh: &str, material: Option<&str>) -> ForwardModelID {
    ForwardModelID { mesh_id: mesh.to_string(), material_id: material.map(|m| m.to_string()) }
}

#[test]
fn main_scene_instances_by_model_and_level() {
    let plan = plan_instances(&rows(), None);
    assert_eq!(plan.len(), 3);
    assert!(plan[0].0 == id("cube", None));
    assert_eq!(plan[0].1, vec![(20, None), (10, Some(1))]);
    assert!(plan[1].0 == id("sphere", Some("m")));
    assert_eq!(plan[1].1, vec![(40, Some(0)), (70, Some(3)), (30, None)]);
    // The first instance of a model carries its parent's transform too.
    assert!(plan[2].0 == id("plane", None));
    assert_eq!(plan[2].1, vec![(60, Some(1))]);
}

#[test]
fn sub_scene_gets_only_its_rows() {
    let sub = "Sub".to_string();
    let plan = plan_instances(&rows(), Some(&sub));
    assert_eq!(plan.len(), 1);
    assert!(plan[0].0 == id("cube", None));
    assert_eq!(plan[0].1, vec![(50, None)]);
    let other = "Other".to_string();
    assert!(plan_instances(&rows(), Some(&other)).is_empty());
}

#[test]
fn rows_without_hierarchy_keep_their_order() {
    let rows = vec![
        row(1, None, "cube", None, None),
        row(2, None, "cube", None, None),
        row(3, Some((5, None)), "cube", None, None),
    ];
    let plan = plan_instances(&rows, None);
    assert_eq!(plan[0].1, vec![(3, None), (1, None), (2, None)]);
}

#[test]
fn child_of_another_model_links_to_its_parent() {
    let rows = vec![
        row(2, Some((1, Some(1))), "sphere", None, None),
        row(1, Some((0, None)), "cube", None, None),
    ];
    let plan = plan_instances(&rows, None);
    assert!(plan[0].0 == id("sphere", None));
    assert_eq!(plan[0].1, vec![(2, Some(1))]);
    assert_eq!(plan[1].1, vec![(1, None)]);
}
