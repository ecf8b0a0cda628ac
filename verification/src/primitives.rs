//! The default primitive meshes: their resource identifiers and the index
//! buffers of the generated ones (cone, sphere).
use vstd::prelude::*;
use vstd::arithmetic::div_mod::lemma_fundamental_div_mod_converse;

verus! {

/// Identifies a mesh registered in the asset server.
pub struct MeshResourceID(pub String);

/// Attaches a mesh to an entity.
pub struct MeshComponent(pub MeshResourceID);

impl core::ops::Deref for MeshComponent {
    type Target = MeshResourceID;

    fn deref(&self) -> (r: &MeshResourceID)
        ensures
            *r == self.0,
    {
        &self.0
    }
}

/// Identifier of the pentagon primitive.
pub const PENTAGON_PRIMITIVE_ID: &'static str = "PENTAGON_PRIMITIVE_MESH";

/// Identifier of the cube primitive.
pub const CUBE_PRIMITIVE_ID: &'static str = "CUBE_PRIMITIVE_MESH";

/// Identifier of the sphere primitive.
pub const SPHERE_PRIMITIVE_ID: &'static str = "SPHERE_PRIMITIVE_MESH";

/// Identifier of the plane primitive.
pub const PLANE_PRIMITIVE_ID: &'static str = "PLANE_PRIMITIVE_MESH";

/// Identifier of the cone primitive.
pub const CONE_PRIMITIVE_ID: &'static str = "CYLINDER_PRIMITIVE_MESH";

/// Number of vertices along each side of a sphere face.
pub const SPHERE_RESOLUTION: usize = 10;

/// Number of vertices around the base of the cone primitive.
pub const CONE_RESOLUTION: usize = 23;

/// The mesh resource of the cube primitive.
pub fn cube_mesh_resource() -> (r: MeshResourceID)
    ensures
        r.0@ == CUBE_PRIMITIVE_ID@,
{
    MeshResourceID(CUBE_PRIMITIVE_ID.to_owned())
}

/// A mesh component showing the cube primitive.
pub fn cube_mesh_component() -> (r: MeshComponent)
    ensures
        r.0.0@ == CUBE_PRIMITIVE_ID@,
{
    MeshComponent(cube_mesh_resource())
}

/// The mesh resource of the sphere primitive.
pub fn sphere_mesh_resource() -> (r: MeshResourceID)
    ensures
        r.0@ == SPHERE_PRIMITIVE_ID@,
{
    MeshResourceID(SPHERE_PRIMITIVE_ID.to_owned())
}

/// A mesh component showing the sphere primitive.
pub fn sphere_mesh_component() -> (r: MeshComponent)
    ensures
        r.0.0@ == SPHERE_PRIMITIVE_ID@,
{
    MeshComponent(sphere_mesh_resource())
}

/// The mesh resource of the plane primitive.
pub fn plane_mesh_resource() -> (r: MeshResourceID)
    ensures
        r.0@ == PLANE_PRIMITIVE_ID@,
{
    MeshResourceID(PLANE_PRIMITIVE_ID.to_owned())
}

/// A mesh component showing the plane primitive.
pub fn plane_mesh_component() -> (r: MeshComponent)
    ensures
        r.0.0@ == PLANE_PRIMITIVE_ID@,
{
    MeshComponent(plane_mesh_resource())
}

/// The mesh resource of the cone primitive.
pub fn cone_mesh_resource() -> (r: MeshResourceID)
    ensures
        r.0@ == CONE_PRIMITIVE_ID@,
{
    MeshResourceID(CONE_PRIMITIVE_ID.to_owned())
}

/// A mesh component showing the cone primitive.
pub fn cone_mesh_component() -> (r: MeshComponent)
    ensures
        r.0.0@ == CONE_PRIMITIVE_ID@,
{
    MeshComponent(cone_mesh_resource())
}

/// Entry `j` of the index buffer of a cone with `res` base vertices.
///
/// Vertex 0 is the apex and vertices 1..=res go around the base. The first
/// `res` triangles join the apex with consecutive base vertices (the last
/// one wraps around to vertex 1); the following `res - 2` triangles fan the
/// base from vertex 1.
pub open spec fn cone_index(res: int, j: int) -> int {
    if j < 3 * res {
        let t = j / 3;
        let m = j % 3;
        if m == 0 {
            0
        } else if m == 1 {
            if t + 2 <= res {
                t + 2
            } else {
                1
            }
        } else {
            t + 1
        }
    } else {
        let t = (j - 3 * res) / 3;
        let m = (j - 3 * res) % 3;
        if m == 0 {
            t + 2
        } else if m == 1 {
            t + 3
        } else {
            1
        }
    }
}

/// The entries of a cone index buffer point at the cone's vertices.
pub proof fn law_cone_indices_in_range(res: int, j: int)
    requires
        2 <= res,
        0 <= j < 6 * res - 6,
    ensures
        0 <= cone_index(res, j) <= res,
{
}

/// The triangles of a cone: side triangle `t` (for `t < res`) is the apex,
/// the next base vertex (vertex 1 after the last one) and base vertex
/// `t + 1`, in that order; base triangle `t` (for `t < res - 2`) is base
/// vertices `t + 2`, `t + 3` and 1, in that order.
pub proof fn law_cone_triangles(res: int, t: int)
    requires
        2 <= res,
    ensures
        0 <= t < res ==> cone_index(res, 3 * t) == 0 && cone_index(res, 3 * t + 1) == (if t + 1
            < res {
            t + 2
        } else {
            1
        }) && cone_index(res, 3 * t + 2) == t + 1,
        0 <= t < res - 2 ==> cone_index(res, 3 * res + 3 * t) == t + 2 && cone_index(
            res,
            3 * res + 3 * t + 1,
        ) == t + 3 && cone_index(res, 3 * res + 3 * t + 2) == 1,
{
    if 0 <= t {
        lemma_fundamental_div_mod_converse(3 * t, 3, t, 0);
        lemma_fundamental_div_mod_converse(3 * t + 1, 3, t, 1);
        lemma_fundamental_div_mod_converse(3 * t + 2, 3, t, 2);
    }
}

/// Builds the index buffer of a cone with `resolution` base vertices.
#[verifier::spinoff_prover]
pub fn cone_mesh_indices(resolution: usize) -> (r: Vec<u16>)
    requires
        2 <= resolution <= 65535,
    ensures
        r@.len() == 6 * resolution - 6,
        forall|j: int| 0 <= j < r@.len() ==> #[trigger] r@[j] as int == cone_index(resolution as int, j),
{
    let mut indices: Vec<u16> = Vec::new();
    let mut i: usize = 1;
    while i < resolution + 1
        invariant
            2 <= resolution <= 65535,
            1 <= i <= resolution + 1,
            indices@.len() == 3 * (i - 1),
            forall|j: int|
                0 <= j < indices@.len() ==> #[trigger] indices@[j] as int == cone_index(
                    resolution as int,
                    j,
                ),
        decreases resolution + 1 - i,
    {
        let ghost start = indices@.len() as int;
        indices.push(0);
        if i + 1 < resolution + 1 {
            indices.push(i as u16 + 1);
        } else {
            indices.push(1);
        }
        indices.push(i as u16);
        proof {
            assert((start + 1) / 3 == i - 1 && (start + 1) % 3 == 1);
            assert((start + 2) / 3 == i - 1 && (start + 2) % 3 == 2);
            assert(start / 3 == i - 1 && start % 3 == 0);
        }
        i = i + 1;
    }
    let mut i: usize = 2;
    while i < resolution
        invariant
            2 <= resolution <= 65535,
            2 <= i <= resolution,
            indices@.len() == 3 * resolution + 3 * (i - 2),
            forall|j: int|
                0 <= j < indices@.len() ==> #[trigger] indices@[j] as int == cone_index(
                    resolution as int,
                    j,
                ),
        decreases resolution - i,
    {
        let ghost start = indices@.len() as int;
        indices.push(i as u16);
        if i + 1 < resolution + 1 {
            indices.push(i as u16 + 1);
        } else {
            indices.push(1);
        }
        indices.push(1);
        proof {
            let b = start - 3 * resolution;
            assert(b / 3 == i - 2 && b % 3 == 0);
            assert((b + 1) / 3 == i - 2 && (b + 1) % 3 == 1);
            assert((b + 2) / 3 == i - 2 && (b + 2) % 3 == 2);
        }
        i = i + 1;
    }
    indices
}

/// Entry `j` of the index buffer of a square grid of `res` by `res`
/// vertices, numbered row by row: cell (`cx`, `cy`) with top-left vertex
/// `i = cy * res + cx` gives the triangles (i, i + 1 + res, i + res) and
/// (i, i + 1, i + 1 + res), cells taken row by row.
pub open spec fn face_index(res: int, j: int) -> int {
    let c = j / 6;
    let m = j % 6;
    let cx = c % (res - 1);
    let cy = c / (res - 1);
    let i = cy * res + cx;
    if m == 0 {
        i
    } else if m == 1 {
        i + 1 + res
    } else if m == 2 {
        i + res
    } else if m == 3 {
        i
    } else if m == 4 {
        i + 1
    } else {
        i + 1 + res
    }
}

/// The entries of a grid index buffer point inside the grid.
pub proof fn law_face_indices_in_range(res: int, j: int)
    requires
        2 <= res,
        0 <= j < 6 * (res - 1) * (res - 1),
    ensures
        0 <= face_index(res, j) <= res * res - 1,
{
    let c = j / 6;
    let n = res - 1;
    assert(0 <= c < n * n) by (nonlinear_arith)
        requires
            0 <= j < 6 * n * n,
            c == j / 6,
            n >= 1,
    ;
    let cx = c % n;
    let cy = c / n;
    assert(0 <= cx < n && 0 <= cy < n) by (nonlinear_arith)
        requires
            0 <= c < n * n,
            n >= 1,
            cx == c % n,
            cy == c / n,
    ;
    assert(cy * res + cx + 1 + res <= res * res - 1) by (nonlinear_arith)
        requires
            0 <= cx <= res - 2,
            0 <= cy <= res - 2,
            res >= 2,
    ;
    assert(cy * res + cx >= 0) by (nonlinear_arith)
        requires
            0 <= cx,
            0 <= cy,
            res >= 2,
    ;
}

/// The triangles of a grid cell: cell (`cx`, `cy`), the `cy * (res - 1) +
/// cx`-th cell, with top-left vertex `i = cy * res + cx`, is the triangles
/// (i, i + 1 + res, i + res) and (i, i + 1, i + 1 + res), on every row.
pub proof fn law_face_cells(res: int, cx: int, cy: int)
    requires
        2 <= res,
        0 <= cx < res - 1,
        0 <= cy < res - 1,
    ensures
        ({
            let c = cy * (res - 1) + cx;
            let i = cy * res + cx;
            &&& face_index(res, 6 * c) == i
            &&& face_index(res, 6 * c + 1) == i + 1 + res
            &&& face_index(res, 6 * c + 2) == i + res
            &&& face_index(res, 6 * c + 3) == i
            &&& face_index(res, 6 * c + 4) == i + 1
            &&& face_index(res, 6 * c + 5) == i + 1 + res
        }),
{
    let c = cy * (res - 1) + cx;
    assert(c >= 0) by (nonlinear_arith)
        requires
            c == cy * (res - 1) + cx,
            cy >= 0,
            cx >= 0,
            res >= 2,
    ;
    lemma_fundamental_div_mod_converse(c, res - 1, cy, cx);
    lemma_fundamental_div_mod_converse(6 * c, 6, c, 0);
    lemma_fundamental_div_mod_converse(6 * c + 1, 6, c, 1);
    lemma_fundamental_div_mod_converse(6 * c + 2, 6, c, 2);
    lemma_fundamental_div_mod_converse(6 * c + 3, 6, c, 3);
    lemma_fundamental_div_mod_converse(6 * c + 4, 6, c, 4);
    lemma_fundamental_div_mod_converse(6 * c + 5, 6, c, 5);
}

/// Builds the index buffer of a square grid of `resolution` by
/// `resolution` vertices (a face of the sphere primitive).
#[verifier::spinoff_prover]
pub fn face_indices(resolution: usize) -> (r: Vec<u16>)
    requires
        1 <= resolution,
        resolution * resolution <= 65536,
    ensures
        r@.len() == 6 * (resolution - 1) * (resolution - 1),
        forall|j: int| 0 <= j < r@.len() ==> #[trigger] r@[j] as int == face_index(resolution as int, j),
{
    let mut indices: Vec<u16> = Vec::new();
    let n: usize = resolution - 1;
    let mut i: usize = 0;
    let mut y: usize = 0;
    proof {
        assert(resolution <= 256) by (nonlinear_arith)
            requires
                resolution * resolution <= 65536,
        ;
    }
    while y < resolution
        invariant
            1 <= resolution <= 256,
            n == resolution - 1,
            y <= resolution,
            i == y * resolution,
            y < resolution ==> indices@.len() == 6 * (y * n),
            y == resolution ==> indices@.len() == 6 * (n * n),
            forall|j: int|
                0 <= j < indices@.len() ==> #[trigger] indices@[j] as int == face_index(
                    resolution as int,
                    j,
                ),
        decreases resolution - y,
    {
        let mut x: usize = 0;
        while x < resolution
            invariant
                1 <= resolution <= 256,
                n == resolution - 1,
                y < resolution,
                x <= resolution,
                i == y * resolution + x,
                y < n ==> indices@.len() == 6 * (y * n + (if x < n {
                    x as int
                } else {
                    n as int
                })),
                y == n ==> indices@.len() == 6 * (y * n),
                forall|j: int|
                    0 <= j < indices@.len() ==> #[trigger] indices@[j] as int == face_index(
                        resolution as int,
                        j,
                    ),
            decreases resolution - x,
        {
            if x < resolution - 1 && y < resolution - 1 {
                let ghost start = indices@.len() as int;
                let ghost c = y * n + x;
                proof {
                    assert(i + 1 + resolution <= 65535) by (nonlinear_arith)
                        requires
                            i == y * resolution + x,
                            x + 1 < resolution,
                            y + 1 < resolution,
                            resolution <= 256,
                    ;
                    assert(start == 6 * c);
                    lemma_fundamental_div_mod_converse(c, n as int, y as int, x as int);
                    lemma_fundamental_div_mod_converse(start, 6, c, 0);
                    lemma_fundamental_div_mod_converse(start + 1, 6, c, 1);
                    lemma_fundamental_div_mod_converse(start + 2, 6, c, 2);
                    lemma_fundamental_div_mod_converse(start + 3, 6, c, 3);
                    lemma_fundamental_div_mod_converse(start + 4, 6, c, 4);
                    lemma_fundamental_div_mod_converse(start + 5, 6, c, 5);
                }
                let iu = i as u16;
                let ru = resolution as u16;
                // Triangles.
                indices.push(iu);
                indices.push(iu + 1 + ru);
                indices.push(iu + ru);
                indices.push(iu);
                indices.push(iu + 1);
                indices.push(iu + 1 + ru);
            }
            proof {
                assert(i + 1 <= 65536) by (nonlinear_arith)
                    requires
                        i == y * resolution + x,
                        x < resolution,
                        y < resolution,
                        resolution <= 256,
                ;
            }
            i = i + 1;
            x = x + 1;
        }
        proof {
            if y + 1 < resolution {
                assert((y + 1) * n == y * n + n) by (nonlinear_arith);
            } else {
                assert(y == n);
            }
            assert((y + 1) * resolution == y * resolution + resolution) by (nonlinear_arith);
        }
        y = y + 1;
    }
    proof {
        assert(6 * (n * n) == 6 * (resolution - 1) * (resolution - 1)) by (nonlinear_arith)
            requires
                n == resolution - 1,
        ;
    }
    indices
}

/// Entry `j` of the index buffer of the sphere primitive: six grid faces of
/// `SPHERE_RESOLUTION` by `SPHERE_RESOLUTION` vertices one after the other,
/// the indices of face `f` shifted by the vertices of the faces before it.
pub open spec fn sphere_index(j: int) -> int {
    let per_face = 6 * (SPHERE_RESOLUTION - 1) * (SPHERE_RESOLUTION - 1);
    face_index(SPHERE_RESOLUTION as int, j % per_face) + (j / per_face) * (SPHERE_RESOLUTION
        * SPHERE_RESOLUTION)
}

/// The sphere's index buffer is the six faces' grids one after the other:
/// entry `k` of face `f` is entry `k` of a grid, moved past the vertices of
/// the `f` faces before it.
pub proof fn law_sphere_faces(f: int, k: int)
    requires
        0 <= f < 6,
        0 <= k < 486,
    ensures
        sphere_index(486 * f + k) == face_index(SPHERE_RESOLUTION as int, k) + 100 * f,
{
    let n = SPHERE_RESOLUTION as int;
    assert(n == 10);
    assert(6 * (n - 1) * (n - 1) == 486 && n * n == 100) by (nonlinear_arith)
        requires
            n == 10,
    ;
    lemma_fundamental_div_mod_converse(486 * f + k, 486, f, k);
    assert((486 * f + k) / 486 == f);
    assert((486 * f + k) % 486 == k);
}

/// The entries of the sphere index buffer point at the sphere's vertices.
pub proof fn law_sphere_indices_in_range(j: int)
    requires
        0 <= j < 6 * (6 * (SPHERE_RESOLUTION - 1) * (SPHERE_RESOLUTION - 1)),
    ensures
        0 <= sphere_index(j) < 6 * (SPHERE_RESOLUTION * SPHERE_RESOLUTION),
{
    assert(SPHERE_RESOLUTION == 10);
    assert(SPHERE_RESOLUTION * SPHERE_RESOLUTION == 100);
    assert(6 * (SPHERE_RESOLUTION - 1) * (SPHERE_RESOLUTION - 1) == 486) by (nonlinear_arith)
        requires
            SPHERE_RESOLUTION == 10,
    ;
    law_face_indices_in_range(SPHERE_RESOLUTION as int, j % 486);
}

/// Builds the index buffer of the sphere primitive.
#[verifier::spinoff_prover]
pub fn sphere_mesh_indices() -> (r: Vec<u16>)
    ensures
        r@.len() == 6 * (6 * (SPHERE_RESOLUTION - 1) * (SPHERE_RESOLUTION - 1)),
        forall|j: int| 0 <= j < r@.len() ==> #[trigger] r@[j] as int == sphere_index(j),
{
    proof {
        assert(SPHERE_RESOLUTION * SPHERE_RESOLUTION == 100);
        assert(6 * (SPHERE_RESOLUTION - 1) * (SPHERE_RESOLUTION - 1) == 486);
    }
    let face = face_indices(SPHERE_RESOLUTION);
    let per_face = face.len();
    let vertices_per_face: u16 = (SPHERE_RESOLUTION * SPHERE_RESOLUTION) as u16;
    let mut indices: Vec<u16> = Vec::new();
    let mut location: usize = 0;
    while location < 6
        invariant
            per_face == face@.len(),
            per_face == 486,
            vertices_per_face == 100,
            forall|j: int| 0 <= j < face@.len() ==> #[trigger] face@[j] as int == face_index(
                SPHERE_RESOLUTION as int,
                j,
            ),
            location <= 6,
            indices@.len() == location * per_face,
            forall|j: int| 0 <= j < indices@.len() ==> #[trigger] indices@[j] as int == sphere_index(j),
        decreases 6 - location,
    {
        let mut k: usize = 0;
        while k < per_face
            invariant
                per_face == face@.len(),
                per_face == 486,
                vertices_per_face == 100,
                forall|j: int| 0 <= j < face@.len() ==> #[trigger] face@[j] as int == face_index(
                    SPHERE_RESOLUTION as int,
                    j,
                ),
                location < 6,
                k <= per_face,
                indices@.len() == location * per_face + k,
                forall|j: int|
                    0 <= j < indices@.len() ==> #[trigger] indices@[j] as int == sphere_index(j),
            decreases per_face - k,
        {
            proof {
                law_face_indices_in_range(SPHERE_RESOLUTION as int, k as int);
                let j = location * per_face + k;
                lemma_fundamental_div_mod_converse(j, per_face as int, location as int, k as int);
            }
            indices.push(face[k] + location as u16 * vertices_per_face);
            k = k + 1;
        }
        proof {
            assert(location * per_face + per_face == (location + 1) * per_face) by (nonlinear_arith);
        }
        location = location + 1;
    }
    indices
}

} // verus!
