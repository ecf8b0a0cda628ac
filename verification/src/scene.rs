//! Identification of the models drawn by the forward renderer, and the plan
//! of the instances each model draws in a scene: which entities, in which
//! order, and whose accumulated transform each one carries.
use vstd::prelude::*;
use vstd::set_lib::{lemma_int_range, lemma_len_subset, set_int_range};

use crate::material::AssetResourceID;

verus! {

/// Represents a combination of a mesh with a material, used to
/// identify the buffer information to be rendered.
#[derive(PartialEq, Eq, Clone, Hash)]
pub struct ForwardModelID {
    pub mesh_id: AssetResourceID,
    pub material_id: Option<AssetResourceID>,
}

/// What the renderer reads of an entity that has a mesh and a transform:
/// its id, its hierarchy (level and parent) if it has one, its mesh and
/// material, and the sub scene it is assigned to (`None` for the main
/// scene).
pub struct InstanceRow {
    pub entity: u64,
    pub hierarchy: Option<(u64, Option<u64>)>,
    pub mesh_id: String,
    pub material_id: Option<String>,
    pub target: Option<String>,
}

/// The characters of an optional string.
pub open spec fn opt_view(o: Option<String>) -> Option<Seq<char>> {
    match o {
        Some(s) => Some(s@),
        None => None,
    }
}

/// The scene being planned: `None` for the main scene.
pub open spec fn scene_view(scene: Option<&String>) -> Option<Seq<char>> {
    match scene {
        Some(s) => Some(s@),
        None => None,
    }
}

/// Whether a row belongs to the scene.
pub open spec fn in_scene(r: InstanceRow, scene: Option<Seq<char>>) -> bool {
    opt_view(r.target) == scene
}

/// The model (mesh and material) of a row.
pub open spec fn model_of(r: InstanceRow) -> (Seq<char>, Option<Seq<char>>) {
    (r.mesh_id@, opt_view(r.material_id))
}

/// The model a model id names.
pub open spec fn model_view(m: ForwardModelID) -> (Seq<char>, Option<Seq<char>>) {
    (m.mesh_id@, opt_view(m.material_id))
}

/// Whether row `i` is handled before row `j`: rows with a hierarchy come
/// first, by increasing level, then the rows without one; rows that tie
/// keep their order.
pub open spec fn before(rs: Seq<InstanceRow>, i: int, j: int) -> bool {
    match (rs[i].hierarchy, rs[j].hierarchy) {
        (Some(a), Some(b)) => a.0 < b.0 || (a.0 == b.0 && i < j),
        (Some(_), None) => true,
        (None, Some(_)) => false,
        (None, None) => i < j,
    }
}

/// Whether row `k` of the scene is the first of its model.
pub open spec fn bucket_first(rs: Seq<InstanceRow>, sc: Option<Seq<char>>, k: int) -> bool {
    forall|j: int|
        0 <= j < rs.len() && in_scene(#[trigger] rs[j], sc) && model_of(rs[j]) == model_of(rs[k])
            ==> !before(rs, j, k)
}

/// Whether the accumulated transform of row `k` is kept for its children:
/// the row is in the scene and is the first of its model or has a
/// hierarchy.
pub open spec fn accumulates(rs: Seq<InstanceRow>, sc: Option<Seq<char>>, k: int) -> bool {
    in_scene(rs[k], sc) && (bucket_first(rs, sc, k) || rs[k].hierarchy is Some)
}

/// Whether row `k` can give its accumulated transform to row `i`: it was
/// handled before, keeps its transform, and is the parent of `i`.
pub open spec fn parent_candidate(rs: Seq<InstanceRow>, sc: Option<Seq<char>>, i: int, k: int) -> bool {
    &&& 0 <= k < rs.len()
    &&& accumulates(rs, sc, k)
    &&& before(rs, k, i)
    &&& rs[i].hierarchy matches Some((_, Some(pid))) && rs[k].entity == pid
}

/// Whether `link` is the row whose accumulated transform row `i` carries,
/// so that a child is drawn with its parent's transform applied: none for a
/// row without a parent; otherwise the last row handled before it that
/// holds the parent's transform, if any.
pub open spec fn link_ok(rs: Seq<InstanceRow>, sc: Option<Seq<char>>, i: int, link: Option<usize>) -> bool {
    if !(rs[i].hierarchy matches Some((_, Some(_)))) {
        link is None
    } else {
        match link {
            Some(k) => parent_candidate(rs, sc, i, k as int) && forall|k2: int|
                #[trigger] parent_candidate(rs, sc, i, k2) ==> k2 == k || before(rs, k2, k as int),
            None => forall|k2: int| !#[trigger] parent_candidate(rs, sc, i, k2),
        }
    }
}

/// Whether `inst` lists the rows `ks` of the scene with model `m`, all of
/// them, each once, in the order they are handled, each with its entity and
/// the row whose accumulated transform it carries.
pub open spec fn bucket_lists(
    rs: Seq<InstanceRow>,
    sc: Option<Seq<char>>,
    m: (Seq<char>, Option<Seq<char>>),
    ks: Seq<int>,
    inst: Seq<(u64, Option<usize>)>,
) -> bool {
    &&& ks.len() == inst.len()
    &&& ks.len() > 0
    &&& forall|j: int|
        0 <= j < ks.len() ==> {
            &&& 0 <= #[trigger] ks[j] < rs.len()
            &&& in_scene(rs[ks[j]], sc)
            &&& model_of(rs[ks[j]]) == m
            &&& inst[j].0 == rs[ks[j]].entity
            &&& link_ok(rs, sc, ks[j], inst[j].1)
        }
    &&& forall|j1: int, j2: int| 0 <= j1 < j2 < ks.len() ==> before(rs, #[trigger] ks[j1], #[trigger] ks[j2])
    &&& forall|i: int|
        0 <= i < rs.len() && in_scene(#[trigger] rs[i], sc) && model_of(rs[i]) == m ==> ks.contains(i)
}

/// Whether an entry of the plan lists, under its model, the rows of the
/// scene with that model as `bucket_lists` says.
pub open spec fn bucket_ok(
    rs: Seq<InstanceRow>,
    sc: Option<Seq<char>>,
    entry: (ForwardModelID, Vec<(u64, Option<usize>)>),
) -> bool {
    exists|ks: Seq<int>| bucket_lists(rs, sc, model_view(entry.0), ks, entry.1@)
}

/// Indices in `0..n` that differ are at most `n`.
proof fn lemma_distinct_bound(ks: Seq<int>, n: int)
    requires
        n >= 0,
        forall|j: int| 0 <= j < ks.len() ==> 0 <= #[trigger] ks[j] < n,
        forall|j1: int, j2: int| 0 <= j1 < j2 < ks.len() ==> #[trigger] ks[j1] != #[trigger] ks[j2],
    ensures
        ks.len() <= n,
{
    assert(ks.no_duplicates());
    ks.unique_seq_to_set();
    lemma_int_range(0, n);
    assert(ks.to_set().subset_of(set_int_range(0, n)));
    lemma_len_subset(ks.to_set(), set_int_range(0, n));
}

/// Whether two optional strings hold the same characters.
fn same_text(a: &Option<String>, b: &Option<String>) -> (r: bool)
    ensures
        r == (opt_view(*a) == opt_view(*b)),
{
    match (a, b) {
        (Some(x), Some(y)) => x.eq(y),
        (None, None) => true,
        _ => false,
    }
}

/// Whether a row belongs to the scene.
fn row_in_scene(row: &InstanceRow, scene: Option<&String>) -> (r: bool)
    ensures
        r == in_scene(*row, scene_view(scene)),
{
    match (&row.target, scene) {
        (Some(t), Some(s)) => t.eq(s),
        (None, None) => true,
        _ => false,
    }
}

/// Whether two rows have the same model.
fn same_model(a: &InstanceRow, b: &InstanceRow) -> (r: bool)
    ensures
        r == (model_of(*a) == model_of(*b)),
{
    a.mesh_id.eq(&b.mesh_id) && same_text(&a.material_id, &b.material_id)
}

/// Whether row `i` is handled before row `j`.
fn handled_before(rows: &Vec<InstanceRow>, i: usize, j: usize) -> (r: bool)
    requires
        i < rows@.len(),
        j < rows@.len(),
    ensures
        r == before(rows@, i as int, j as int),
{
    match (rows[i].hierarchy, rows[j].hierarchy) {
        (Some(a), Some(b)) => a.0 < b.0 || (a.0 == b.0 && i < j),
        (Some(_), None) => true,
        (None, Some(_)) => false,
        (None, None) => i < j,
    }
}

/// Whether row `k` is the first of its model in the scene.
fn is_bucket_first(rows: &Vec<InstanceRow>, scene: Option<&String>, k: usize) -> (r: bool)
    requires
        k < rows@.len(),
    ensures
        r == bucket_first(rows@, scene_view(scene), k as int),
{
    let mut j: usize = 0;
    while j < rows.len()
        invariant
            k < rows@.len(),
            j <= rows@.len(),
            forall|j2: int|
                0 <= j2 < j && in_scene(#[trigger] rows@[j2], scene_view(scene)) && model_of(rows@[j2])
                    == model_of(rows@[k as int]) ==> !before(rows@, j2, k as int),
        decreases rows@.len() - j,
    {
        if row_in_scene(&rows[j], scene) && same_model(&rows[j], &rows[k]) && handled_before(rows, j, k) {
            return false;
        }
        j = j + 1;
    }
    true
}

/// The row whose accumulated transform row `k` carries, if any.
fn parent_link(rows: &Vec<InstanceRow>, scene: Option<&String>, k: usize) -> (r: Option<usize>)
    requires
        k < rows@.len(),
    ensures
        link_ok(rows@, scene_view(scene), k as int, r),
{
    let ghost rs = rows@;
    let ghost sc = scene_view(scene);
    let pid = match rows[k].hierarchy {
        Some((_, Some(p))) => p,
        _ => {
            return None;
        },
    };
    let mut best: Option<usize> = None;
    let mut j: usize = 0;
    while j < rows.len()
        invariant
            rs == rows@,
            sc == scene_view(scene),
            k < rs.len(),
            j <= rs.len(),
            rs[k as int].hierarchy matches Some((_, Some(p))) && p == pid,
            match best {
                Some(b) => b < j && parent_candidate(rs, sc, k as int, b as int) && forall|k2: int|
                    0 <= k2 < j && #[trigger] parent_candidate(rs, sc, k as int, k2) ==> k2 == b
                        || before(rs, k2, b as int),
                None => forall|k2: int| 0 <= k2 < j ==> !#[trigger] parent_candidate(rs, sc, k as int, k2),
            },
        decreases rs.len() - j,
    {
        let holds = row_in_scene(&rows[j], scene) && (is_bucket_first(rows, scene, j)
            || rows[j].hierarchy.is_some());
        if holds && rows[j].entity == pid && handled_before(rows, j, k) {
            proof {
                assert(parent_candidate(rs, sc, k as int, j as int));
            }
            match best {
                Some(b) => {
                    if handled_before(rows, b, j) {
                        best = Some(j);
                    }
                },
                None => {
                    best = Some(j);
                },
            }
        } else {
            proof {
                assert(!parent_candidate(rs, sc, k as int, j as int));
            }
        }
        j = j + 1;
    }
    best
}

/// Whether row `x` is a row of the scene with the model of row `m`.
pub open spec fn bucket_member(rs: Seq<InstanceRow>, sc: Option<Seq<char>>, m: int, x: int) -> bool {
    0 <= x < rs.len() && in_scene(rs[x], sc) && model_of(rs[x]) == model_of(rs[m])
}

/// Whether row `x` comes after row `cur` (any row does, when `cur` is
/// `None`).
pub open spec fn after_cur(rs: Seq<InstanceRow>, cur: Option<usize>, x: int) -> bool {
    cur matches Some(c) ==> before(rs, c as int, x)
}

/// The first row of the scene with the model of row `m`, in the order the
/// rows are handled, that comes after row `cur` (any, when `cur` is
/// `None`).
fn next_in_bucket(rows: &Vec<InstanceRow>, scene: Option<&String>, m: usize, cur: Option<usize>) -> (r:
    Option<usize>)
    requires
        m < rows@.len(),
        cur matches Some(c) ==> c < rows@.len(),
    ensures
        r matches Some(x) ==> x < rows@.len() && bucket_member(rows@, scene_view(scene), m as int, x as int)
            && after_cur(rows@, cur, x as int),
        r matches Some(x) ==> forall|y: int|
            #[trigger] bucket_member(rows@, scene_view(scene), m as int, y) && after_cur(rows@, cur, y)
                ==> y == x || before(rows@, x as int, y),
        r is None ==> forall|y: int|
            #[trigger] bucket_member(rows@, scene_view(scene), m as int, y) ==> !after_cur(rows@, cur, y),
{
    let ghost rs = rows@;
    let ghost sc = scene_view(scene);
    let mut best: Option<usize> = None;
    let mut j: usize = 0;
    while j < rows.len()
        invariant
            rs == rows@,
            sc == scene_view(scene),
            m < rs.len(),
            cur matches Some(c) ==> c < rs.len(),
            j <= rs.len(),
            best matches Some(b) ==> b < j && bucket_member(rs, sc, m as int, b as int) && after_cur(
                rs,
                cur,
                b as int,
            ),
            best matches Some(b) ==> forall|y: int|
                0 <= y < j && #[trigger] bucket_member(rs, sc, m as int, y) && after_cur(rs, cur, y)
                    ==> y == b || before(rs, b as int, y),
            best is None ==> forall|y: int|
                0 <= y < j && #[trigger] bucket_member(rs, sc, m as int, y) ==> !after_cur(rs, cur, y),
        decreases rs.len() - j,
    {
        let later = match cur {
            Some(c) => handled_before(rows, c, j),
            None => true,
        };
        if row_in_scene(&rows[j], scene) && same_model(&rows[j], &rows[m]) && later {
            assert(bucket_member(rs, sc, m as int, j as int));
            match best {
                Some(b) => {
                    if handled_before(rows, j, b) {
                        best = Some(j);
                    }
                },
                None => {
                    best = Some(j);
                },
            }
        } else {
            assert(!(bucket_member(rs, sc, m as int, j as int) && after_cur(rs, cur, j as int)));
        }
        j = j + 1;
    }
    best
}

/// The instances of the model of row `m` in the scene, in the order they
/// are handled.
fn build_bucket(rows: &Vec<InstanceRow>, scene: Option<&String>, m: usize) -> (r: Vec<(u64, Option<usize>)>)
    requires
        m < rows@.len(),
        in_scene(rows@[m as int], scene_view(scene)),
    ensures
        exists|ks: Seq<int>| bucket_lists(rows@, scene_view(scene), model_of(rows@[m as int]), ks, r@),
{
    let ghost rs = rows@;
    let ghost sc = scene_view(scene);
    let ghost mm = model_of(rs[m as int]);
    let mut inst: Vec<(u64, Option<usize>)> = Vec::new();
    let mut cur: Option<usize> = None;
    let ghost mut ks: Seq<int> = Seq::empty();
    let mut done = false;
    while !done
        invariant
            rs == rows@,
            sc == scene_view(scene),
            m < rs.len(),
            mm == model_of(rs[m as int]),
            in_scene(rs[m as int], sc),
            ks.len() == inst@.len(),
            ks.len() <= rs.len(),
            forall|j: int|
                0 <= j < ks.len() ==> {
                    &&& 0 <= #[trigger] ks[j] < rs.len()
                    &&& in_scene(rs[ks[j]], sc)
                    &&& model_of(rs[ks[j]]) == mm
                    &&& inst@[j].0 == rs[ks[j]].entity
                    &&& link_ok(rs, sc, ks[j], inst@[j].1)
                },
            forall|j1: int, j2: int|
                0 <= j1 < j2 < ks.len() ==> before(rs, #[trigger] ks[j1], #[trigger] ks[j2]),
            cur is None <==> ks.len() == 0,
            cur matches Some(c) ==> c < rs.len() && c == ks.last(),
            forall|i: int|
                #[trigger] bucket_member(rs, sc, m as int, i) ==> ks.contains(i) || cur is None
                    || before(rs, cur->0 as int, i),
            done ==> ks.len() > 0,
            done ==> forall|i: int|
                #[trigger] bucket_member(rs, sc, m as int, i) ==> ks.contains(i),
        decreases rs.len() - ks.len() + if done {
            0int
        } else {
            1int
        },
    {
        match next_in_bucket(rows, scene, m, cur) {
            None => {
                proof {
                    if cur is None {
                        assert(bucket_member(rs, sc, m as int, m as int));
                        assert(after_cur(rs, cur, m as int));
                    }
                    assert forall|i: int| #[trigger] bucket_member(rs, sc, m as int, i) implies ks.contains(
                        i,
                    ) by {
                        if !ks.contains(i) {
                            assert(after_cur(rs, cur, i));
                        }
                    }
                }
                done = true;
            },
            Some(k) => {
                let link = parent_link(rows, scene, k);
                inst.push((rows[k].entity, link));
                let ghost old_ks = ks;
                proof {
                    ks = ks.push(k as int);
                    assert forall|j1: int, j2: int| 0 <= j1 < j2 < ks.len() implies ks[j1] != ks[j2] by {
                        assert(before(rs, ks[j1], ks[j2]));
                    }
                    lemma_distinct_bound(ks, rs.len() as int);
                    assert forall|i: int| #[trigger] bucket_member(rs, sc, m as int, i) implies ks.contains(i)
                        || before(rs, k as int, i) by {
                        if !old_ks.contains(i) {
                            assert(after_cur(rs, cur, i));
                            assert(ks[ks.len() - 1] == k);
                            if i == k as int {
                                assert(ks.contains(i));
                            }
                        } else {
                            let j = choose|j: int| 0 <= j < old_ks.len() && old_ks[j] == i;
                            assert(ks[j] == i);
                        }
                    }
                }
                cur = Some(k);
            },
        }
    }
    proof {
        assert forall|i: int|
            0 <= i < rs.len() && in_scene(#[trigger] rs[i], sc) && model_of(rs[i]) == mm implies ks.contains(
            i,
        ) by {
            assert(bucket_member(rs, sc, m as int, i));
        }
        assert(bucket_lists(rs, sc, mm, ks, inst@));
    }
    inst
}

/// Plans the instances of every model in the scene (`None` for the main
/// scene): one entry per model with a row in the scene, listing the rows
/// of that model in the order they are handled, each with the row whose
/// accumulated transform it carries: an instance is drawn with that row's
/// accumulated transform applied before its own, and its own accumulated
/// transform is the product of the two. The number of instances of a model
/// is the length of its list; a model with no entry draws none.
pub fn plan_instances(rows: &Vec<InstanceRow>, scene: Option<&String>) -> (r: Vec<
    (ForwardModelID, Vec<(u64, Option<usize>)>),
>)
    ensures
        forall|b: int| 0 <= b < r@.len() ==> bucket_ok(rows@, scene_view(scene), #[trigger] r@[b]),
        forall|b1: int, b2: int|
            0 <= b1 < b2 < r@.len() ==> model_view(#[trigger] r@[b1].0) != model_view(#[trigger] r@[b2].0),
        forall|i: int|
            0 <= i < rows@.len() && in_scene(#[trigger] rows@[i], scene_view(scene)) ==> exists|b: int|
                0 <= b < r@.len() && model_view(r@[b].0) == model_of(rows@[i]),
{
    let ghost rs = rows@;
    let ghost sc = scene_view(scene);
    let mut out: Vec<(ForwardModelID, Vec<(u64, Option<usize>)>)> = Vec::new();
    let mut i: usize = 0;
    while i < rows.len()
        invariant
            rs == rows@,
            sc == scene_view(scene),
            i <= rs.len(),
            forall|b: int| 0 <= b < out@.len() ==> bucket_ok(rs, sc, #[trigger] out@[b]),
            forall|b1: int, b2: int|
                0 <= b1 < b2 < out@.len() ==> model_view(#[trigger] out@[b1].0) != model_view(
                    #[trigger] out@[b2].0,
                ),
            forall|i2: int|
                0 <= i2 < i && in_scene(#[trigger] rs[i2], sc) ==> exists|b: int|
                    0 <= b < out@.len() && model_view(out@[b].0) == model_of(rs[i2]),
        decreases rs.len() - i,
    {
        if row_in_scene(&rows[i], scene) {
            let mut found = false;
            let mut b: usize = 0;
            while b < out.len()
                invariant
                    rs == rows@,
                    sc == scene_view(scene),
                    i < rs.len(),
                    b <= out@.len(),
                    forall|b1: int| 0 <= b1 < out@.len() ==> bucket_ok(rs, sc, #[trigger] out@[b1]),
                    forall|b1: int, b2: int|
                        0 <= b1 < b2 < out@.len() ==> model_view(#[trigger] out@[b1].0) != model_view(
                            #[trigger] out@[b2].0,
                        ),
                    forall|i2: int|
                        0 <= i2 < i && in_scene(#[trigger] rs[i2], sc) ==> exists|b1: int|
                            0 <= b1 < out@.len() && model_view(out@[b1].0) == model_of(rs[i2]),
                    found ==> exists|b2: int|
                        0 <= b2 < out@.len() && model_view(out@[b2].0) == model_of(rs[i as int]),
                    !found ==> forall|b2: int|
                        0 <= b2 < b ==> model_view(#[trigger] out@[b2].0) != model_of(rs[i as int]),
                decreases out@.len() - b,
            {
                if out[b].0.mesh_id.eq(&rows[i].mesh_id) && same_text(
                    &out[b].0.material_id,
                    &rows[i].material_id,
                ) {
                    found = true;
                }
                b = b + 1;
            }
            if !found {
                let inst = build_bucket(rows, scene, i);
                let ghost ks0 = choose|ks: Seq<int>| bucket_lists(rs, sc, model_of(rs[i as int]), ks, inst@);
                let material_id = match &rows[i].material_id {
                    Some(t) => Some(t.clone()),
                    None => None,
                };
                let id = ForwardModelID { mesh_id: rows[i].mesh_id.clone(), material_id };
                let ghost before_out = out@;
                out.push((id, inst));
                proof {
                    assert(model_view(out@[out@.len() - 1].0) == model_of(rs[i as int]));
                    assert(bucket_lists(
                        rs,
                        sc,
                        model_view(out@[out@.len() - 1].0),
                        ks0,
                        out@[out@.len() - 1].1@,
                    ));
                    assert forall|b1: int| 0 <= b1 < out@.len() implies bucket_ok(
                        rs,
                        sc,
                        #[trigger] out@[b1],
                    ) by {
                        if b1 < before_out.len() {
                            assert(out@[b1] == before_out[b1]);
                        } else {
                            assert(bucket_lists(rs, sc, model_view(out@[b1].0), ks0, out@[b1].1@));
                        }
                    }
                    assert forall|i2: int|
                        0 <= i2 <= i && in_scene(#[trigger] rs[i2], sc) implies exists|b2: int|
                        0 <= b2 < out@.len() && model_view(out@[b2].0) == model_of(rs[i2]) by {
                        if i2 < i {
                            let b2 = choose|b2: int|
                                0 <= b2 < before_out.len() && model_view(before_out[b2].0) == model_of(
                                    rs[i2],
                                );
                            assert(out@[b2] == before_out[b2]);
                        } else {
                            assert(model_view(out@[out@.len() - 1].0) == model_of(rs[i2]));
                        }
                    }
                }
            }
        }
        i = i + 1;
    }
    out
}

/// The rows of the scene with model `m`.
pub open spec fn rows_of_model(
    rs: Seq<InstanceRow>,
    sc: Option<Seq<char>>,
    m: (Seq<char>, Option<Seq<char>>),
) -> Set<int> {
    Set::new(|i: int| 0 <= i < rs.len() && in_scene(rs[i], sc) && model_of(rs[i]) == m)
}

/// A model draws as many instances as the scene has rows of that model,
/// each row once.
pub proof fn law_instance_count(
    rs: Seq<InstanceRow>,
    sc: Option<Seq<char>>,
    m: (Seq<char>, Option<Seq<char>>),
    ks: Seq<int>,
    inst: Seq<(u64, Option<usize>)>,
)
    requires
        bucket_lists(rs, sc, m, ks, inst),
    ensures
        inst.len() == rows_of_model(rs, sc, m).len(),
        ks.no_duplicates(),
{
    assert forall|j1: int, j2: int| 0 <= j1 < ks.len() && 0 <= j2 < ks.len() && j1 != j2 implies ks[j1]
        != ks[j2] by {
        if j1 < j2 {
            assert(before(rs, ks[j1], ks[j2]));
        } else {
            assert(before(rs, ks[j2], ks[j1]));
        }
    }
    assert(ks.no_duplicates());
    ks.unique_seq_to_set();
    assert forall|i: int| ks.to_set().contains(i) <==> rows_of_model(rs, sc, m).contains(i) by {
        if rows_of_model(rs, sc, m).contains(i) {
            assert(in_scene(rs[i], sc));
        }
        if ks.to_set().contains(i) {
            let j = choose|j: int| 0 <= j < ks.len() && ks[j] == i;
        }
    }
    assert(ks.to_set() =~= rows_of_model(rs, sc, m));
}

} // verus!
