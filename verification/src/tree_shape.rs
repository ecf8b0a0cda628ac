//! The shape every panel tree keeps: only layouts have anything below them.
use vstd::prelude::*;
use vstd::arithmetic::power2::{pow2, lemma_pow2_pos, lemma_pow2_unfold};

use crate::dynamic_panel::{
    drop_happens, drop_layout, drop_side, drop_steps, tab_extracted, tab_inserted_at, tab_placed,
    SplitDir,
};
use crate::split_panel_tree::{
    cleaned_all, first_empty, empty_container, is_container_node, no_empty_container, tabs_of, Tab, cleaned_position, cleaned_tree, depth_below, inserted_tab, is_first_empty_container,
    lemma_cleaned_node, lifted_node, occupied, sibling_of, split_tree, subtree_pos, PanelNode,
    lemma_child_subtree, lemma_depth_of_pos, lemma_depth_offset, lemma_split_keeps_nodes,
};

verus! {

/// Whether a node is a layout.
pub open spec fn is_layout<R, F>(n: PanelNode<R, F>) -> bool {
    n is HLayout || n is VLayout
}

/// Whether the nodes form a tree of panels: the parent of every occupied
/// node other than the root is a layout.
pub open spec fn well_formed<R, F>(s: Seq<PanelNode<R, F>>) -> bool {
    forall|x: int| 0 < x < s.len() && occupied(#[trigger] s[x]) ==> is_layout(s[(x - 1) / 2])
}

/// Whether node `t` may become occupied without breaking the tree: it is
/// the root or its parent is a layout.
pub open spec fn may_hold<R, F>(s: Seq<PanelNode<R, F>>, t: int) -> bool {
    t == 0 || is_layout(s[(t - 1) / 2])
}

/// In a well-formed tree nothing lies below a node that is not a layout.
#[verifier::spinoff_prover]
pub proof fn lemma_nothing_below_leaf<R, F>(s: Seq<PanelNode<R, F>>, r: int, x: int)
    requires
        well_formed(s),
        0 <= r < s.len(),
        0 <= x < s.len(),
        !is_layout(s[r]),
        x != r,
        depth_below(x, r) is Some,
    ensures
        !occupied(s[x]),
    decreases x,
{
    let q = (x - 1) / 2;
    assert(x > r);
    assert(depth_below(q, r) is Some);
    if occupied(s[x]) {
        assert(is_layout(s[q]));
        if q != r {
            lemma_nothing_below_leaf(s, r, q);
        }
    }
}

/// The parent of a node `d >= 1` levels below `r` lies `d - 1` levels
/// below `r`, at half the offset.
#[verifier::spinoff_prover]
pub proof fn lemma_parent_pos(r: int, d: nat, k: int)
    requires
        r >= 0,
        d >= 1,
        0 <= k < pow2(d),
    ensures
        (subtree_pos(r, d, k) - 1) / 2 == subtree_pos(r, (d - 1) as nat, k / 2),
{
    let e = (d - 1) as nat;
    lemma_pow2_unfold(d);
    lemma_pow2_pos(e);
    assert((r + 1) * pow2(d) == 2 * ((r + 1) * pow2(e))) by (nonlinear_arith)
        requires
            pow2(d) == 2 * pow2(e),
    ;
    let m = (r + 1) * pow2(e);
    assert(m >= 1) by (nonlinear_arith)
        requires
            r >= 0,
            pow2(e) >= 1,
            m == (r + 1) * pow2(e),
    ;
    assert((2 * m - 1 + k - 1) / 2 == m - 1 + k / 2);
}

/// Splitting a node that is not a layout, where it may hold something,
/// keeps the tree well formed.
#[verifier::spinoff_prover]
pub proof fn law_split_keeps_well_formed<R, F>(
    s: Seq<PanelNode<R, F>>,
    target: int,
    layout: PanelNode<R, F>,
    keep_left: bool,
)
    requires
        well_formed(s),
        0 <= target < s.len() <= usize::MAX / 4,
        is_layout(layout),
        !is_layout(s[target]),
        may_hold(s, target),
    ensures
        well_formed(split_tree(s, target, layout, keep_left)),
{
    let r = split_tree(s, target, layout, keep_left);
    lemma_split_keeps_nodes(s, target, layout, keep_left);
    assert forall|x: int| 0 < x < r.len() && occupied(#[trigger] r[x]) implies is_layout(
        r[(x - 1) / 2],
    ) by {
        let q = (x - 1) / 2;
        if x == target {
            assert(is_layout(s[q]));
            assert(r[q] == s[q]);
        } else if x == 2 * target + 1 || x == 2 * target + 2 {
            assert(q == target);
        } else if x < s.len() {
            assert(r[x] == s[x]);
            assert(is_layout(s[q]));
            if q == 2 * target + 1 || q == 2 * target + 2 {
                assert(depth_below(q, target) == Some(1nat)) by {
                    assert(depth_below(target, target) == Some(0nat));
                }
                lemma_nothing_below_leaf(s, target, q);
            }
            assert(q != target);
            assert(r[q] == s[q]);
        } else {
            assert(r[x] is Empty);
        }
    }
}

/// Inserting a tab in a node that may hold something keeps the tree well
/// formed.
#[verifier::spinoff_prover]
pub proof fn law_insert_keeps_well_formed<R, F>(
    s: Seq<PanelNode<R, F>>,
    target: int,
    title: Seq<char>,
    identification: Seq<char>,
    after: Seq<PanelNode<R, F>>,
)
    requires
        well_formed(s),
        0 <= target < s.len(),
        may_hold(s, target),
        after.len() == s.len(),
        forall|j: int| 0 <= j < s.len() && j != target ==> after[j] == s[j],
        inserted_tab(s[target], after[target], title, identification),
    ensures
        well_formed(after),
{
    assert forall|x: int| 0 < x < after.len() && occupied(#[trigger] after[x]) implies is_layout(
        after[(x - 1) / 2],
    ) by {
        let q = (x - 1) / 2;
        if x == target {
            assert(after[q] == s[q]);
        } else {
            assert(after[x] == s[x]);
            if q != target {
                assert(after[q] == s[q]);
            }
        }
    }
}

/// The parent of an occupied node of the cleaned tree is a layout.
#[verifier::spinoff_prover]
#[verifier::rlimit(80)]
proof fn lemma_cleaned_parent<R, F>(s: Seq<PanelNode<R, F>>, c: int, x: int)
    requires
        well_formed(s),
        is_first_empty_container(s, c),
        c > 0,
        forall|z: int|
            0 <= z < s.len() && z != c && depth_below(z, c) is Some ==> !occupied(#[trigger] s[z]),
        0 < x < s.len(),
        occupied(cleaned_tree(s, c)[x]),
    ensures
        is_layout(cleaned_tree(s, c)[(x - 1) / 2]),
{
    let p = (c - 1) / 2;
    let right = c % 2 != 0;
    let sib = sibling_of(p, right);
    let t0 = s.update(p, PanelNode::Empty).update(c, PanelNode::Empty);
    let after = cleaned_tree(s, c);
    assert(is_layout(s[p]));
    assert(c == 2 * p + 1 || c == 2 * p + 2);
    assert(sib == 2 * p + 1 || sib == 2 * p + 2);
    assert(sib != c);
    lemma_cleaned_node(s, c, x);
    let q = (x - 1) / 2;
    let z = choose|z: int|
        0 <= z < s.len() && z != c && z != p && occupied(s[z]) && cleaned_position(c, z) == x;
    let qz = (z - 1) / 2;
    assert(after[q] == lifted_node(t0, p, right, q));
    match depth_below(z, sib) {
        Some(d) => {
            lemma_depth_offset(z, sib);
            let k = z - subtree_pos(sib, d, 0);
            lemma_pow2_pos(d);
            assert(x == subtree_pos(p, d, k));
            assert(z > 0) by {
                assert(z >= sib);
            }
            assert(is_layout(s[qz]));
            if d == 0 {
                vstd::arithmetic::power2::lemma2_to64();
                assert(k == 0);
                assert(x == p);
                assert(depth_below(q, p) is None);
                assert(t0[q] == s[q]);
                assert(is_layout(s[q])) by {
                    assert(occupied(s[p]));
                }
            } else {
                let e = (d - 1) as nat;
                lemma_pow2_unfold(d);
                lemma_parent_pos(p, d, k);
                lemma_parent_pos(sib, d, k);
                assert(q == subtree_pos(p, e, k / 2));
                assert(qz == subtree_pos(sib, e, k / 2));
                lemma_depth_of_pos(p, e, k / 2);
                lemma_depth_of_pos(sib, e, k / 2);
                assert(q - subtree_pos(p, e, 0) == k / 2);
                assert(qz < s.len());
                assert(lifted_node(t0, p, right, q) == t0[qz]);
                lemma_child_subtree(p, qz);
                assert(qz != p);
                assert(qz != c);
                assert(t0[qz] == s[qz]);
            }
        },
        None => {
            assert(x == z);
            lemma_child_subtree(p, z);
            if depth_below(z, p) is Some {
                assert(depth_below(z, c) is Some);
                assert(false);
            }
            assert(depth_below(q, p) is None) by {
                if q >= p && depth_below(q, p) is Some {
                    assert(depth_below(z, p) is Some);
                }
            }
            assert(is_layout(s[q]));
            assert(q != p);
            assert(q != c);
            assert(t0[q] == s[q]);
        },
    }
}

/// Removing the first empty container, when it is not the root, keeps the
/// tree well formed.
#[verifier::spinoff_prover]
pub proof fn law_clean_keeps_well_formed<R, F>(s: Seq<PanelNode<R, F>>, c: int)
    requires
        well_formed(s),
        is_first_empty_container(s, c),
        c > 0,
    ensures
        well_formed(cleaned_tree(s, c)),
{
    assert forall|z: int|
        0 <= z < s.len() && z != c && depth_below(z, c) is Some implies !occupied(
        #[trigger] s[z],
    ) by {
        lemma_nothing_below_leaf(s, c, z);
    }
    assert forall|x: int|
        0 < x < cleaned_tree(s, c).len() && occupied(#[trigger] cleaned_tree(s, c)[x]) implies is_layout(
        cleaned_tree(s, c)[(x - 1) / 2],
    ) by {
        lemma_cleaned_parent(s, c, x);
    }
}

/// Whether `after` is `before` with node `j` changed into a node of the same
/// kind.
spec fn same_kind_update<R, F>(before: Seq<PanelNode<R, F>>, j: int, after: Seq<PanelNode<R, F>>) -> bool {
    &&& after.len() == before.len()
    &&& forall|i: int| 0 <= i < before.len() && i != j ==> after[i] == before[i]
    &&& is_container_node(before[j]) && is_container_node(after[j])
}

/// Changing a container into another container keeps the tree well formed.
#[verifier::spinoff_prover]
proof fn lemma_container_update<R, F>(
    before: Seq<PanelNode<R, F>>,
    j: int,
    after: Seq<PanelNode<R, F>>,
)
    requires
        well_formed(before),
        0 <= j < before.len(),
        same_kind_update(before, j, after),
    ensures
        well_formed(after),
{
    assert forall|x: int| 0 < x < after.len() && occupied(#[trigger] after[x]) implies is_layout(
        after[(x - 1) / 2],
    ) by {
        let q = (x - 1) / 2;
        if x != j {
            assert(after[x] == before[x]);
        }
        assert(is_layout(before[q]));
        if q != j {
            assert(after[q] == before[q]);
        }
    }
}

/// A tree with a container without tabs has a first one.
#[verifier::spinoff_prover]
pub(crate) proof fn lemma_first_empty_container<R, F>(s: Seq<PanelNode<R, F>>, c: int)
    requires
        0 <= c < s.len(),
        empty_container(s[c]),
    ensures
        exists|f: int| is_first_empty_container(s, f),
    decreases c,
{
    if forall|j: int| 0 <= j < c ==> !empty_container(#[trigger] s[j]) {
        assert(is_first_empty_container(s, c));
    } else {
        let j = choose|j: int| 0 <= j < c && empty_container(#[trigger] s[j]);
        lemma_first_empty_container(s, j);
    }
}

/// The tree once the dragged tab has been placed, before any empty
/// container is cleaned, is well formed and its root is not a container
/// without tabs.
#[verifier::spinoff_prover]
pub(crate) proof fn lemma_drop_placed_shape<R, F>(
    before: Seq<PanelNode<R, F>>,
    src: int,
    index: int,
    dst: int,
    target: Option<SplitDir>,
    half: F,
    extracted: Seq<PanelNode<R, F>>,
    tab: Tab,
    placed: Seq<PanelNode<R, F>>,
)
    requires
        well_formed(before),
        0 <= src < before.len() <= usize::MAX / 16,
        0 <= dst < before.len(),
        drop_happens(before, src, index, dst),
        dst != 0 && is_container_node(before[0]) ==> tabs_of(before[0]).len() > (if src == 0 {
            1int
        } else {
            0int
        }),
        tab_extracted(before, src, index, extracted, tab),
        tab_placed(extracted, dst, target, half, tab, placed),
    ensures
        well_formed(extracted),
        is_container_node(extracted[dst]),
        well_formed(placed),
        !empty_container(placed[0]),
{
    assert(same_kind_update(before, src, extracted));
    lemma_container_update(before, src, extracted);
    assert(is_container_node(extracted[dst]));
    assert(may_hold(extracted, dst)) by {
        if dst != 0 {
            assert(occupied(extracted[dst]));
        }
    }
    match target {
        None => {
            assert(same_kind_update(extracted, dst, placed));
            lemma_container_update(extracted, dst, placed);
        },
        Some(dir) => {
            let layout = drop_layout::<R, F>(dir, half);
            let keep_left = dir is Right || dir is Bottom;
            let r = split_tree(extracted, dst, layout, keep_left);
            lemma_split_keeps_nodes(extracted, dst, layout, keep_left);
            law_split_keeps_well_formed(extracted, dst, layout, keep_left);
            let side = drop_side(dst, dir);
            assert(tab_inserted_at(r, side, placed, tab));
            assert(may_hold(r, side));
            law_insert_keeps_well_formed(r, side, tab.title@, tab.identification@, placed);
        },
    }
    assert(!empty_container(placed[0])) by {
        if dst != 0 {
            if target is Some {
                let dir = target->0;
                let layout = drop_layout::<R, F>(dir, half);
                let keep_left = dir is Right || dir is Bottom;
                lemma_split_keeps_nodes(extracted, dst, layout, keep_left);
            }
            assert(placed[0] == extracted[0]);
            if src != 0 {
                assert(extracted[0] == before[0]);
            }
        } else if target is Some {
            let dir = target->0;
            let layout = drop_layout::<R, F>(dir, half);
            let keep_left = dir is Right || dir is Bottom;
            lemma_split_keeps_nodes(extracted, dst, layout, keep_left);
        }
    }
}

/// Dropping a tab keeps the tree well formed, when the root is not left
/// without tabs.
#[verifier::spinoff_prover]
pub proof fn law_drop_keeps_well_formed<R, F>(
    before: Seq<PanelNode<R, F>>,
    src: int,
    index: int,
    dst: int,
    target: Option<SplitDir>,
    half: F,
    after: Seq<PanelNode<R, F>>,
)
    requires
        well_formed(before),
        0 <= src < before.len() <= usize::MAX / 16,
        0 <= dst < before.len(),
        drop_happens(before, src, index, dst),
        dst != 0 && is_container_node(before[0]) ==> tabs_of(before[0]).len() > (if src == 0 {
            1int
        } else {
            0int
        }),
        exists|extracted: Seq<PanelNode<R, F>>, tab: Tab, placed: Seq<PanelNode<R, F>>|
            #[trigger] drop_steps(before, src, index, dst, target, half, extracted, tab, placed, after),
    ensures
        well_formed(after),
{
    let (extracted, tab, placed) = choose|
        extracted: Seq<PanelNode<R, F>>,
        tab: Tab,
        placed: Seq<PanelNode<R, F>>,
    | #[trigger] drop_steps(before, src, index, dst, target, half, extracted, tab, placed, after);
    lemma_drop_placed_shape(before, src, index, dst, target, half, extracted, tab, placed);
    crate::tab_inventory::lemma_cleaned_all_keeps(placed, placed.len());
}

/// Number of occupied nodes.
pub open spec fn occupied_count<R, F>(s: Seq<PanelNode<R, F>>) -> nat
    decreases s.len(),
{
    if s.len() == 0 {
        0
    } else {
        occupied_count(s.drop_last()) + if occupied(s.last()) {
            1nat
        } else {
            0nat
        }
    }
}

/// There are no more occupied nodes than nodes.
pub proof fn lemma_occupied_count_bound<R, F>(s: Seq<PanelNode<R, F>>)
    ensures
        occupied_count(s) <= s.len(),
    decreases s.len(),
{
    if s.len() > 0 {
        lemma_occupied_count_bound(s.drop_last());
    }
}

/// Emptying an occupied node leaves one occupied node less.
proof fn lemma_occupied_count_clear<R, F>(s: Seq<PanelNode<R, F>>, j: int)
    requires
        0 <= j < s.len(),
        occupied(s[j]),
    ensures
        occupied_count(s.update(j, PanelNode::Empty)) + 1 == occupied_count(s),
    decreases s.len(),
{
    let u = s.update(j, PanelNode::Empty);
    if j == s.len() - 1 {
        assert(u.drop_last() =~= s.drop_last());
    } else {
        assert(u.drop_last() =~= s.drop_last().update(j, PanelNode::Empty));
        lemma_occupied_count_clear(s.drop_last(), j);
    }
}

/// A tree without occupied nodes counts none.
proof fn lemma_occupied_count_vacant<R, F>(s: Seq<PanelNode<R, F>>)
    requires
        forall|x: int| 0 <= x < s.len() ==> !occupied(#[trigger] s[x]),
    ensures
        occupied_count(s) == 0,
    decreases s.len(),
{
    if s.len() > 0 {
        assert(!occupied(s[s.len() - 1]));
        lemma_occupied_count_vacant(s.drop_last());
    }
}

/// Two trees count as many occupied nodes when the occupied nodes of the
/// first move one for one onto those of the second.
proof fn lemma_occupied_count_moved<R, F>(
    s: Seq<PanelNode<R, F>>,
    t: Seq<PanelNode<R, F>>,
    f: spec_fn(int) -> int,
)
    requires
        forall|x: int|
            0 <= x < s.len() && occupied(#[trigger] s[x]) ==> 0 <= f(x) < t.len() && occupied(
                t[f(x)],
            ),
        forall|x: int, y: int|
            0 <= x < s.len() && 0 <= y < s.len() && x != y && occupied(#[trigger] s[x]) && occupied(
                #[trigger] s[y],
            ) ==> f(x) != f(y),
        forall|y: int|
            0 <= y < t.len() && occupied(#[trigger] t[y]) ==> exists|x: int|
                0 <= x < s.len() && occupied(s[x]) && #[trigger] f(x) == y,
    ensures
        occupied_count(s) == occupied_count(t),
    decreases s.len(),
{
    if s.len() == 0 {
        assert forall|y: int| 0 <= y < t.len() implies !occupied(#[trigger] t[y]) by {
            if occupied(t[y]) {
                let x = choose|x: int| 0 <= x < s.len() && occupied(s[x]) && f(x) == y;
            }
        }
        lemma_occupied_count_vacant(t);
    } else {
        let x = s.len() - 1;
        let s1 = s.drop_last();
        if !occupied(s[x]) {
            assert forall|y: int|
                0 <= y < t.len() && occupied(#[trigger] t[y]) implies exists|x1: int|
                0 <= x1 < s1.len() && occupied(s1[x1]) && #[trigger] f(x1) == y by {
                let x0 = choose|x0: int| 0 <= x0 < s.len() && occupied(s[x0]) && f(x0) == y;
                assert(x0 != x);
                assert(s1[x0] == s[x0]);
            }
            lemma_occupied_count_moved(s1, t, f);
        } else {
            let y = f(x);
            let t1 = t.update(y, PanelNode::Empty);
            lemma_occupied_count_clear(t, y);
            assert forall|x1: int|
                0 <= x1 < s1.len() && occupied(#[trigger] s1[x1]) implies 0 <= f(x1) < t1.len()
                && occupied(t1[f(x1)]) by {
                assert(s1[x1] == s[x1]);
                assert(f(x1) != y);
            }
            assert forall|x1: int, x2: int|
                0 <= x1 < s1.len() && 0 <= x2 < s1.len() && x1 != x2 && occupied(#[trigger] s1[x1])
                    && occupied(#[trigger] s1[x2]) implies f(x1) != f(x2) by {
                assert(s1[x1] == s[x1]);
                assert(s1[x2] == s[x2]);
            }
            assert forall|y1: int|
                0 <= y1 < t1.len() && occupied(#[trigger] t1[y1]) implies exists|x1: int|
                0 <= x1 < s1.len() && occupied(s1[x1]) && #[trigger] f(x1) == y1 by {
                assert(y1 != y);
                assert(t1[y1] == t[y1]);
                let x0 = choose|x0: int| 0 <= x0 < s.len() && occupied(s[x0]) && f(x0) == y1;
                assert(x0 != x);
                assert(s1[x0] == s[x0]);
            }
            lemma_occupied_count_moved(s1, t1, f);
        }
    }
}

/// Removing the first empty container of a well-formed tree, when it is not
/// the root, leaves two occupied nodes less: the container and its parent.
pub proof fn lemma_clean_count<R, F>(s: Seq<PanelNode<R, F>>, c: int)
    requires
        well_formed(s),
        is_first_empty_container(s, c),
        c > 0,
    ensures
        occupied_count(cleaned_tree(s, c)) + 2 == occupied_count(s),
{
    let p = (c - 1) / 2;
    let t = cleaned_tree(s, c);
    assert(is_layout(s[p]));
    assert forall|z: int|
        0 <= z < s.len() && z != c && depth_below(z, c) is Some implies !occupied(
        #[trigger] s[z],
    ) by {
        lemma_nothing_below_leaf(s, c, z);
    }
    crate::split_panel_tree::law_clean_keeps_nodes(s, c);
    let t0 = s.update(p, PanelNode::Empty).update(c, PanelNode::Empty);
    lemma_occupied_count_clear(s, p);
    lemma_occupied_count_clear(s.update(p, PanelNode::Empty), c);
    let f = |x: int| cleaned_position(c, x);
    assert forall|x: int| 0 <= x < t0.len() && occupied(#[trigger] t0[x]) implies 0 <= f(x) < t.len()
        && occupied(t[f(x)]) by {
        assert(x != c && x != p);
        assert(t0[x] == s[x]);
    }
    assert forall|x: int, y: int|
        0 <= x < t0.len() && 0 <= y < t0.len() && x != y && occupied(#[trigger] t0[x]) && occupied(
            #[trigger] t0[y],
        ) implies f(x) != f(y) by {
        assert(t0[x] == s[x]);
        assert(t0[y] == s[y]);
    }
    assert forall|y: int| 0 <= y < t.len() && occupied(#[trigger] t[y]) implies exists|x: int|
        0 <= x < t0.len() && occupied(t0[x]) && #[trigger] f(x) == y by {
        let z = choose|z: int|
            0 <= z < s.len() && z != c && z != p && occupied(s[z]) && cleaned_position(c, z) == y;
        assert(t0[z] == s[z]);
        assert(f(z) == y);
    }
    lemma_occupied_count_moved(t0, t, f);
}

/// In a well-formed tree whose root is not a layout, only the root can be
/// occupied.
pub proof fn lemma_leaf_root<R, F>(s: Seq<PanelNode<R, F>>)
    requires
        well_formed(s),
        s.len() > 0,
        !is_layout(s[0]),
    ensures
        forall|x: int| 0 < x < s.len() ==> !occupied(#[trigger] s[x]),
{
    assert forall|x: int| 0 < x < s.len() implies !occupied(#[trigger] s[x]) by {
        lemma_depth_zero_ancestor(x);
        lemma_nothing_below_leaf(s, 0, x);
    }
}

/// Every node lies below the root.
proof fn lemma_depth_zero_ancestor(x: int)
    requires
        x >= 0,
    ensures
        depth_below(x, 0) is Some,
    decreases x,
{
    if x > 0 {
        lemma_depth_zero_ancestor((x - 1) / 2);
    }
}

/// An occupied node counts.
proof fn lemma_occupied_count_pos<R, F>(s: Seq<PanelNode<R, F>>, j: int)
    requires
        0 <= j < s.len(),
        occupied(s[j]),
    ensures
        occupied_count(s) > 0,
{
    lemma_occupied_count_clear(s, j);
}

/// Removing empty containers from a well-formed tree, as many times as it
/// has occupied nodes at least, leaves none but possibly the root.
pub proof fn lemma_cleaned_all_done<R, F>(s: Seq<PanelNode<R, F>>, n: nat)
    requires
        well_formed(s),
        occupied_count(s) <= n,
    ensures
        no_empty_container(cleaned_all(s, n)) || is_first_empty_container(cleaned_all(s, n), 0),
    decreases n,
{
    if no_empty_container(s) || is_first_empty_container(s, 0) {
    } else {
        let e = choose|e: int| 0 <= e < s.len() && empty_container(#[trigger] s[e]);
        if n == 0 {
            lemma_occupied_count_pos(s, e);
        } else {
            lemma_first_empty_container(s, e);
            let c = first_empty(s);
            assert(is_first_empty_container(s, c));
            assert(c != 0);
            lemma_clean_count(s, c);
            law_clean_keeps_well_formed(s, c);
            lemma_cleaned_all_done(cleaned_tree(s, c), (n - 1) as nat);
        }
    }
}


} // verus!
