//! The default distribution of the editor's panels.
use vstd::prelude::*;

use crate::split_panel_tree::{
    grown_len, lemma_grown_len, lemma_last_occupied, occupied, tab_is, tabs_of, inserted_tab, lemma_split_keeps_nodes, split_tree, HFraction, HSplitDir, PanelNode,
    SplitPanelTree, VFraction, VSplitDir, ROOT_NODE,
};
use crate::tree_shape::{is_layout, law_insert_keeps_well_formed, law_split_keeps_well_formed, well_formed};

verus! {

/// Whether `after` is `before` with a tab of the given title and
/// identification inserted at node `j` (see `SplitPanelTree::insert_tab`).
pub open spec fn tab_inserted<R, F>(
    before: Seq<PanelNode<R, F>>,
    j: int,
    title: Seq<char>,
    identification: Seq<char>,
    after: Seq<PanelNode<R, F>>,
) -> bool {
    &&& after.len() == before.len()
    &&& forall|i: int| 0 <= i < before.len() && i != j ==> after[i] == before[i]
    &&& inserted_tab(before[j], after[j], title, identification)
}

/// The nodes once the root is split into the workbench (left) and the right
/// zone, the workbench into the left zone and the central zone, the central
/// zone into the viewport (top) and the bottom viewport, and the left zone
/// into the hierarchy (top) and the entities.
pub open spec fn panels_split<R, F>(
    s: Seq<PanelNode<R, F>>,
    workbench: F,
    central: F,
    viewport: F,
    hierarchy: F,
) -> Seq<PanelNode<R, F>> {
    let s1 = split_tree(s, 0, PanelNode::HLayout { rect: None, fraction: HFraction::Left(workbench) }, true);
    let s2 = split_tree(s1, 1, PanelNode::HLayout { rect: None, fraction: HFraction::Right(central) }, false);
    let s3 = split_tree(s2, 4, PanelNode::VLayout { rect: None, fraction: VFraction::Top(viewport) }, true);
    split_tree(s3, 3, PanelNode::VLayout { rect: None, fraction: VFraction::Bottom(hierarchy) }, true)
}

/// The steps of `configure_panels`: the splits, then the tabs inserted one
/// after the other through the states `t1` to `t6`, ending in `after`.
pub open spec fn panels_configured<R, F>(
    s: Seq<PanelNode<R, F>>,
    workbench: F,
    central: F,
    viewport: F,
    hierarchy: F,
    t1: Seq<PanelNode<R, F>>,
    t2: Seq<PanelNode<R, F>>,
    t3: Seq<PanelNode<R, F>>,
    t4: Seq<PanelNode<R, F>>,
    t5: Seq<PanelNode<R, F>>,
    t6: Seq<PanelNode<R, F>>,
    after: Seq<PanelNode<R, F>>,
) -> bool {
    &&& tab_inserted(panels_split(s, workbench, central, viewport, hierarchy), 9, "Viewport"@, "Viewport"@, t1)
    &&& tab_inserted(t1, 10, "Asset server"@, "AssetServer"@, t2)
    &&& tab_inserted(t2, 10, "General logs"@, "GeneralLogs"@, t3)
    &&& tab_inserted(t3, 2, "Properties"@, "Properties"@, t4)
    &&& tab_inserted(t4, 2, "Scenes"@, "ScenesConfig"@, t5)
    &&& tab_inserted(t5, 7, "Hierarchy"@, "EntityHierarchy"@, t6)
    &&& tab_inserted(t6, 8, "Entities"@, "Entities"@, after)
}

/// Whether `n` is a container whose tabs have the given titles and
/// identifications, in order.
pub open spec fn container_with_tabs<R, F>(n: PanelNode<R, F>, tabs: Seq<(Seq<char>, Seq<char>)>) -> bool {
    &&& n is Container
    &&& tabs_of(n).len() == tabs.len()
    &&& forall|j: int| 0 <= j < tabs.len() ==> tab_is(#[trigger] tabs_of(n)[j], tabs[j].0, tabs[j].1)
}

/// Splitting a node keeps the length within four times the length, plus
/// one, and the facts of `lemma_split_keeps_nodes`.
proof fn lemma_split_step<R, F>(s: Seq<PanelNode<R, F>>, target: int, layout: PanelNode<R, F>, keep_left: bool)
    requires
        0 <= target < s.len() <= usize::MAX / 4,
        occupied(layout),
    ensures
        split_tree(s, target, layout, keep_left).len() <= 4 * s.len() + 1,
{
    let s0 = s.update(target, layout);
    lemma_grown_len(s0);
    lemma_last_occupied(s0);
    assert(occupied(s0[target]));
    lemma_split_keeps_nodes(s, target, layout, keep_left);
    assert(split_tree(s, target, layout, keep_left).len() == grown_len(s0));
}

/// The editor's default layout, configured on a tree with nothing but an
/// empty root: the viewport (node 9) holds the "Viewport" tab; the bottom
/// of the central zone (node 10) holds "Asset server" (AssetServer) and
/// "General logs" (GeneralLogs); the right zone (node 2) holds "Properties"
/// (Properties) and "Scenes" (ScenesConfig); the hierarchy (node 7) holds
/// "Hierarchy" (EntityHierarchy) and the entities (node 8) "Entities"
/// (Entities). The identification is what the editor dispatches on to
/// draw each section.
pub proof fn law_default_layout<R, F>(
    workbench: F,
    central: F,
    viewport: F,
    hierarchy: F,
    t1: Seq<PanelNode<R, F>>,
    t2: Seq<PanelNode<R, F>>,
    t3: Seq<PanelNode<R, F>>,
    t4: Seq<PanelNode<R, F>>,
    t5: Seq<PanelNode<R, F>>,
    t6: Seq<PanelNode<R, F>>,
    after: Seq<PanelNode<R, F>>,
)
    requires
        panels_configured(
            seq![PanelNode::<R, F>::Empty],
            workbench,
            central,
            viewport,
            hierarchy,
            t1,
            t2,
            t3,
            t4,
            t5,
            t6,
            after,
        ),
    ensures
        after.len() > 10,
        container_with_tabs(after[9], seq![("Viewport"@, "Viewport"@)]),
        container_with_tabs(
            after[10],
            seq![("Asset server"@, "AssetServer"@), ("General logs"@, "GeneralLogs"@)],
        ),
        container_with_tabs(after[2], seq![("Properties"@, "Properties"@), ("Scenes"@, "ScenesConfig"@)]),
        container_with_tabs(after[7], seq![("Hierarchy"@, "EntityHierarchy"@)]),
        container_with_tabs(after[8], seq![("Entities"@, "Entities"@)]),
{
    let s0 = seq![PanelNode::<R, F>::Empty];
    let l0 = PanelNode::<R, F>::HLayout { rect: None, fraction: HFraction::Left(workbench) };
    let l1 = PanelNode::<R, F>::HLayout { rect: None, fraction: HFraction::Right(central) };
    let l2 = PanelNode::<R, F>::VLayout { rect: None, fraction: VFraction::Top(viewport) };
    let l3 = PanelNode::<R, F>::VLayout { rect: None, fraction: VFraction::Bottom(hierarchy) };
    let s1 = split_tree(s0, 0, l0, true);
    lemma_split_step(s0, 0, l0, true);
    lemma_split_keeps_nodes(s0, 0, l0, true);
    let s2 = split_tree(s1, 1, l1, false);
    lemma_split_step(s1, 1, l1, false);
    lemma_split_keeps_nodes(s1, 1, l1, false);
    assert(s2[2] == s1[2]);
    let s3 = split_tree(s2, 4, l2, true);
    lemma_split_step(s2, 4, l2, true);
    lemma_split_keeps_nodes(s2, 4, l2, true);
    assert(s3[2] == s2[2]);
    assert(s3[3] == s2[3]);
    let s4 = split_tree(s3, 3, l3, true);
    lemma_split_step(s3, 3, l3, true);
    lemma_split_keeps_nodes(s3, 3, l3, true);
    assert(occupied(s3[4]));
    assert(s4[2] == s3[2]);
    assert(s4[9] == s3[9]);
    assert(s4[10] == s3[10]);
    assert(s4 == panels_split(s0, workbench, central, viewport, hierarchy));
    assert(s4[2] is Empty && s4[7] is Empty && s4[8] is Empty && s4[9] is Empty && s4[10] is Empty);
    // Each insertion leaves the other nodes as they were.
    assert(after[9] == t1[9]);
    assert(after[10] == t3[10]);
    assert(t3[2] == s4[2]);
    assert(after[2] == t5[2]);
    assert(t5[7] == s4[7]);
    assert(after[7] == t6[7]);
    assert(t6[8] == s4[8]);
    assert(t2[10] == t2[10]);
    assert(tabs_of(t3[10]).drop_last() == tabs_of(t2[10]));
    assert(tabs_of(t3[10])[0] == tabs_of(t2[10])[0]);
    assert(tabs_of(t5[2]).drop_last() == tabs_of(t4[2]));
    assert(tabs_of(t5[2])[0] == tabs_of(t4[2])[0]);
}

/// Configures the default layout and distribution of panels within the
/// editor; the four fractions are those of the workbench, of the central
/// zone, of the viewport and of the hierarchy.
#[verifier::spinoff_prover]
pub fn configure_panels<R, F>(
    tree: &mut SplitPanelTree<R, F>,
    workbench_fraction: F,
    central_fraction: F,
    viewport_fraction: F,
    hierarchy_fraction: F,
)
    requires
        0 < old(tree).tree@.len() <= usize::MAX / 1024,
    ensures
        exists|
            t1: Seq<PanelNode<R, F>>,
            t2: Seq<PanelNode<R, F>>,
            t3: Seq<PanelNode<R, F>>,
            t4: Seq<PanelNode<R, F>>,
            t5: Seq<PanelNode<R, F>>,
            t6: Seq<PanelNode<R, F>>,
        |
            #[trigger] panels_configured(
                old(tree).tree@,
                workbench_fraction,
                central_fraction,
                viewport_fraction,
                hierarchy_fraction,
                t1,
                t2,
                t3,
                t4,
                t5,
                t6,
                final(tree).tree@,
            ),
        well_formed(old(tree).tree@) && !is_layout(old(tree).tree@[0]) ==> well_formed(
            final(tree).tree@,
        ),
        old(tree).tree@ == seq![PanelNode::<R, F>::Empty] ==> {
            &&& final(tree).tree@.len() > 10
            &&& container_with_tabs(final(tree).tree@[9], seq![("Viewport"@, "Viewport"@)])
            &&& container_with_tabs(
                final(tree).tree@[10],
                seq![("Asset server"@, "AssetServer"@), ("General logs"@, "GeneralLogs"@)],
            )
            &&& container_with_tabs(
                final(tree).tree@[2],
                seq![("Properties"@, "Properties"@), ("Scenes"@, "ScenesConfig"@)],
            )
            &&& container_with_tabs(final(tree).tree@[7], seq![("Hierarchy"@, "EntityHierarchy"@)])
            &&& container_with_tabs(final(tree).tree@[8], seq![("Entities"@, "Entities"@)])
        },
{
    let ghost s0 = tree.tree@;
    let ghost l0: PanelNode<R, F> = PanelNode::HLayout { rect: None, fraction: HFraction::Left(workbench_fraction) };
    let ghost l1: PanelNode<R, F> = PanelNode::HLayout { rect: None, fraction: HFraction::Right(central_fraction) };
    let ghost l2: PanelNode<R, F> = PanelNode::VLayout { rect: None, fraction: VFraction::Top(viewport_fraction) };
    let ghost l3: PanelNode<R, F> = PanelNode::VLayout { rect: None, fraction: VFraction::Bottom(hierarchy_fraction) };
    let (workbench, right_zone) = tree.horizontal_split(
        ROOT_NODE,
        HSplitDir::Left,
        HFraction::Left(workbench_fraction),
    );
    let ghost s1 = tree.tree@;
    let (left_zone, central) = tree.horizontal_split(
        workbench,
        HSplitDir::Right,
        HFraction::Right(central_fraction),
    );
    let ghost s2 = tree.tree@;
    let (viewport, bottom_viewport) = tree.vertical_split(
        central,
        VSplitDir::Top,
        VFraction::Top(viewport_fraction),
    );
    let ghost s3 = tree.tree@;
    proof {
        lemma_split_keeps_nodes(s0, 0, l0, true);
        lemma_split_keeps_nodes(s1, 1, l1, false);
        lemma_split_keeps_nodes(s2, 4, l2, true);
        assert(s3[4] == l2);
    }
    let (hierarchy, entities) = tree.vertical_split(
        left_zone,
        VSplitDir::Top,
        VFraction::Bottom(hierarchy_fraction),
    );
    let ghost s4 = tree.tree@;
    proof {
        lemma_split_keeps_nodes(s3, 3, l3, true);
        assert(tree.tree@ == panels_split(
            s0,
            workbench_fraction,
            central_fraction,
            viewport_fraction,
            hierarchy_fraction,
        ));
        if well_formed(s0) && !is_layout(s0[0]) {
            law_split_keeps_well_formed(s0, 0, l0, true);
            law_split_keeps_well_formed(s1, 1, l1, false);
            law_split_keeps_well_formed(s2, 4, l2, true);
            law_split_keeps_well_formed(s3, 3, l3, true);
        }
        assert(is_layout(s4[0]) && is_layout(s4[1]) && is_layout(s4[3]) && is_layout(s4[4]));
    }
    tree.insert_tab(viewport, "Viewport", "Viewport");
    let ghost t1 = tree.tree@;
    tree.insert_tab(bottom_viewport, "Asset server", "AssetServer");
    let ghost t2 = tree.tree@;
    tree.insert_tab(bottom_viewport, "General logs", "GeneralLogs");
    let ghost t3 = tree.tree@;
    tree.insert_tab(right_zone, "Properties", "Properties");
    let ghost t4 = tree.tree@;
    tree.insert_tab(right_zone, "Scenes", "ScenesConfig");
    let ghost t5 = tree.tree@;
    tree.insert_tab(hierarchy, "Hierarchy", "EntityHierarchy");
    let ghost t6 = tree.tree@;
    tree.insert_tab(entities, "Entities", "Entities");
    proof {
        assert(panels_configured(
            s0,
            workbench_fraction,
            central_fraction,
            viewport_fraction,
            hierarchy_fraction,
            t1,
            t2,
            t3,
            t4,
            t5,
            t6,
            tree.tree@,
        ));
        if s0 == seq![PanelNode::<R, F>::Empty] {
            law_default_layout(
                workbench_fraction,
                central_fraction,
                viewport_fraction,
                hierarchy_fraction,
                t1,
                t2,
                t3,
                t4,
                t5,
                t6,
                tree.tree@,
            );
        }
        if well_formed(s0) && !is_layout(s0[0]) {
            law_insert_keeps_well_formed(s4, 9, "Viewport"@, "Viewport"@, t1);
            law_insert_keeps_well_formed(t1, 10, "Asset server"@, "AssetServer"@, t2);
            law_insert_keeps_well_formed(t2, 10, "General logs"@, "GeneralLogs"@, t3);
            law_insert_keeps_well_formed(t3, 2, "Properties"@, "Properties"@, t4);
            law_insert_keeps_well_formed(t4, 2, "Scenes"@, "ScenesConfig"@, t5);
            law_insert_keeps_well_formed(t5, 7, "Hierarchy"@, "EntityHierarchy"@, t6);
            law_insert_keeps_well_formed(t6, 8, "Entities"@, "Entities"@, tree.tree@);
        }
    }
}

} // verus!
