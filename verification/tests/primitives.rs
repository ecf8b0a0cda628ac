use engine::primitives::{
    cone_mesh_component, cone_mesh_indices, cone_mesh_resource, cube_mesh_component,
    cube_mesh_resource, face_indices, plane_mesh_component, plane_mesh_resource,
    sphere_mesh_component, sphere_mesh_indices, sphere_mesh_resource, CONE_RESOLUTION,
    SPHERE_RESOLUTION,
};

#[test]
fn primitive_resources() {
    assert_eq!(cube_mesh_resource().0, "CUBE_PRIMITIVE_MESH");
    assert_eq!(sphere_mesh_resource().0, "SPHERE_PRIMITIVE_MESH");
    assert_eq!(plane_mesh_resource().0, "PLANE_PRIMITIVE_MESH");
    assert_eq!(cone_mesh_resource().0, "CYLINDER_PRIMITIVE_MESH");
    assert_eq!(cube_mesh_component().0 .0, "CUBE_PRIMITIVE_MESH");
    assert_eq!(sphere_mesh_component().0 .0, "SPHERE_PRIMITIVE_MESH");
    assert_eq!(plane_mesh_component().0 .0, "PLANE_PRIMITIVE_MESH");
    let cone = cone_mesh_component();
    assert_eq!((*cone).0, "CYLINDER_PRIMITIVE_MESH");
}

#[test]
fn smallest_cone() {
    assert_eq!(cone_mesh_indices(2), vec![0, 2, 1, 0, 1, 2]);
}

#[test]
fn cone_of_four_sides() {
    assert_eq!(
        cone_mesh_indices(4),
        vec![0, 2, 1, 0, 3, 2, 0, 4, 3, 0, 1, 4, 2, 3, 1, 3, 4, 1]
    );
}

#[test]
fn cone_primitive_indices() {
    let indices = cone_mesh_indices(CONE_RESOLUTION);
    assert_eq!(indices.len(), 6 * 23 - 6);
    assert!(indices.iter().all(|i| (*i as usize) <= CONE_RESOLUTION));
    assert_eq!(&indices[66..69], &[0, 1, 23]);
    assert_eq!(&indices[129..132], &[22, 23, 1]);
}

#[test]
fn grid_of_one_vertex_has_no_triangle() {
    assert!(face_indices(1).is_empty());
}

#[test]
fn grid_of_three_by_three() {
    assert_eq!(
        face_indices(3),
        vec![
            0, 4, 3, 0, 1, 4, //
            1, 5, 4, 1, 2, 5, //
            3, 7, 6, 3, 4, 7, //
            4, 8, 7, 4, 5, 8,
        ]
    );
}

#[test]
fn largest_grid() {
    let indices = face_indices(256);
    assert_eq!(indices.len(), 6 * 255 * 255);
    assert_eq!(*indices.iter().max().unwrap(), 65535);
}

#[test]
fn sphere_indices() {
    let indices = sphere_mesh_indices();
    let per_face = 6 * (SPHERE_RESOLUTION - 1) * (SPHERE_RESOLUTION - 1);
    assert_eq!(indices.len(), 6 * per_face);
    let face = face_indices(SPHERE_RESOLUTION);
    for location in 0..6 {
        for k in 0..per_face {
            assert_eq!(indices[location * per_face + k], face[k] + (location * 100) as u16);
        }
    }
    assert_eq!(&indices[per_face..per_face + 6], &[100, 111, 110, 100, 101, 111]);
    assert_eq!(*indices.iter().max().unwrap(), 599);
}
