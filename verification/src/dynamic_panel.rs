//! Decisions of the dynamic panel widget: where a dragged tab lands and how
//! the panel tree changes when it is dropped.
use vstd::prelude::*;

use crate::split_panel_tree::{
    cleaned_all, lemma_cleaned_all_facts, cleaned_tree, empty_container, tab_is, lemma_split_keeps_nodes, inserted_tab, is_container_node, is_first_empty_container,
    lemma_grown_len, no_empty_container, same_frame, split_tree, tabs_of, HFraction, HSplitDir,
    Index, PanelNode, SplitPanelTree, Tab, VFraction, VSplitDir,
};

use crate::tab_inventory::{all_tabs, law_drop_keeps_tabs, law_drop_leaves_no_empty_container};
use crate::tree_shape::{law_drop_keeps_well_formed, well_formed};

verus! {

/// Side of a panel on which a dragged tab is dropped.
pub enum SplitDir {
    Left,
    Right,
    Top,
    Bottom,
}

/// The panel under the pointer while a tab is dragged: the panel's
/// rectangle (`R`), the rectangle of its tab bar when the pointer is over
/// it, the panel's index and the pointer position (`P`).
pub struct HoverData<R, P> {
    pub rect: R,
    pub tabs: Option<R>,
    pub dst: Index,
    pub pointer: P,
}

/// What the panel widget found while rendering: the tab being dragged
/// (panel index and tab index) and the panel under the pointer.
pub struct SharedData<R, P> {
    pub drag: Option<(Index, usize)>,
    pub hover: Option<HoverData<R, P>>,
}

impl<R, P> Default for SharedData<R, P> {
    /// Nothing dragged, nothing hovered.
    fn default() -> (r: Self)
        ensures
            r.drag is None,
            r.hover is None,
    {
        SharedData { drag: None, hover: None }
    }
}

/// The split proposed for the hover section with the given number: the
/// center (0) proposes none, then left (1), right (2), top (3) and
/// bottom (4).
pub fn split_dir_of_section(section: usize) -> (r: Option<SplitDir>)
    requires
        section < 5,
    ensures
        section == 0 <==> r is None,
        section == 1 <==> r matches Some(SplitDir::Left),
        section == 2 <==> r matches Some(SplitDir::Right),
        section == 3 <==> r matches Some(SplitDir::Top),
        section == 4 <==> r matches Some(SplitDir::Bottom),
{
    match section {
        0 => None,
        1 => Some(SplitDir::Left),
        2 => Some(SplitDir::Right),
        3 => Some(SplitDir::Top),
        _ => Some(SplitDir::Bottom),
    }
}

/// Whether `after` is `before` with the tab at `index` of node `src` removed
/// and handed out as `tab`.
pub open spec fn tab_extracted<R, F>(
    before: Seq<PanelNode<R, F>>,
    src: int,
    index: int,
    after: Seq<PanelNode<R, F>>,
    tab: Tab,
) -> bool {
    &&& is_container_node(before[src])
    &&& 0 <= index < tabs_of(before[src]).len()
    &&& tab == tabs_of(before[src])[index]
    &&& after.len() == before.len()
    &&& forall|j: int| 0 <= j < before.len() && j != src ==> after[j] == before[j]
    &&& is_container_node(after[src])
    &&& same_frame(before[src], after[src])
    &&& tabs_of(after[src]) == tabs_of(before[src]).remove(index)
}

/// Whether `after` is `before` with node `j` changed as `inserted_tab` says
/// and every other node kept.
pub open spec fn tab_inserted_at<R, F>(
    before: Seq<PanelNode<R, F>>,
    j: int,
    after: Seq<PanelNode<R, F>>,
    tab: Tab,
) -> bool {
    &&& after.len() == before.len()
    &&& forall|i: int| 0 <= i < before.len() && i != j ==> after[i] == before[i]
    &&& inserted_tab(before[j], after[j], tab.title@, tab.identification@)
}

/// Whether `after` is `before` once `tab` has been placed on the `target`
/// side of node `dst`: on no side it joins the tabs of `dst`; on a side,
/// `dst` is split in halves and the tab gets its own container on that side.
pub open spec fn tab_placed<R, F>(
    before: Seq<PanelNode<R, F>>,
    dst: int,
    target: Option<SplitDir>,
    half: F,
    tab: Tab,
    after: Seq<PanelNode<R, F>>,
) -> bool {
    match target {
        None => {
            &&& after.len() == before.len()
            &&& forall|i: int| 0 <= i < before.len() && i != dst ==> after[i] == before[i]
            &&& is_container_node(after[dst])
            &&& same_frame(before[dst], after[dst])
            &&& tabs_of(after[dst]) == tabs_of(before[dst]).push(tab)
        },
        Some(SplitDir::Left) => tab_inserted_at(
            split_tree(before, dst, PanelNode::HLayout { rect: None, fraction: HFraction::Right(half) }, false),
            2 * dst + 1,
            after,
            tab,
        ),
        Some(SplitDir::Right) => tab_inserted_at(
            split_tree(before, dst, PanelNode::HLayout { rect: None, fraction: HFraction::Left(half) }, true),
            2 * dst + 2,
            after,
            tab,
        ),
        Some(SplitDir::Top) => tab_inserted_at(
            split_tree(before, dst, PanelNode::VLayout { rect: None, fraction: VFraction::Bottom(half) }, false),
            2 * dst + 1,
            after,
            tab,
        ),
        Some(SplitDir::Bottom) => tab_inserted_at(
            split_tree(before, dst, PanelNode::VLayout { rect: None, fraction: VFraction::Top(half) }, true),
            2 * dst + 2,
            after,
            tab,
        ),
    }
}

/// Whether `after` is `before` once the containers without tabs have been
/// removed (see `SplitPanelTree::clean_containers`).
pub open spec fn containers_cleaned<R, F>(
    before: Seq<PanelNode<R, F>>,
    after: Seq<PanelNode<R, F>>,
) -> bool {
    after == cleaned_all(before, before.len())
}

/// The steps of a successful drop: the tab leaves `src`, is placed at
/// `dst`, and the empty container left behind, if any, is cleaned.
pub open spec fn drop_steps<R, F>(
    before: Seq<PanelNode<R, F>>,
    src: int,
    index: int,
    dst: int,
    target: Option<SplitDir>,
    half: F,
    extracted: Seq<PanelNode<R, F>>,
    tab: Tab,
    placed: Seq<PanelNode<R, F>>,
    after: Seq<PanelNode<R, F>>,
) -> bool {
    &&& tab_extracted(before, src, index, extracted, tab)
    &&& tab_placed(extracted, dst, target, half, tab, placed)
    &&& containers_cleaned(placed, after)
}

/// Whether dropping tab `index` of node `src` takes place: the drop target
/// is a container and the tab exists.
pub open spec fn drop_happens<R, F>(s: Seq<PanelNode<R, F>>, src: int, index: int, dst: int) -> bool {
    &&& is_container_node(s[dst])
    &&& is_container_node(s[src])
    &&& index < tabs_of(s[src]).len()
}

impl<R, F> SplitPanelTree<R, F> {
    /// Moves tab `tab_index` of container `src` to container `dst`: into its
    /// tab bar when `target` is `None`, otherwise into a new container on
    /// the `target` side of `dst`, which is split in two with `half` as the
    /// fraction. The container left without tabs, if any, is then removed.
    /// Nothing happens when `dst` is not a container or the tab does not
    /// exist.
    #[verifier::spinoff_prover]
    #[verifier::rlimit(40)]
    pub fn drop_tab(
        &mut self,
        src: Index,
        tab_index: usize,
        dst: Index,
        target: Option<SplitDir>,
        half: F,
    )
        requires
            src < old(self).tree@.len(),
            dst < old(self).tree@.len(),
            old(self).tree@.len() <= usize::MAX / 16,
            is_container_node(old(self).tree@[dst as int]) && is_container_node(
                old(self).tree@[src as int],
            ) && tabs_of(old(self).tree@[src as int]).len() > 0 ==> tab_index != tabs_of(
                old(self).tree@[src as int],
            ).len(),
            drop_happens(old(self).tree@, src as int, tab_index as int, dst as int) && dst != 0
                && is_container_node(old(self).tree@[0]) ==> tabs_of(old(self).tree@[0]).len() > (
            if src == 0 {
                1int
            } else {
                0int
            }),
        ensures
            !drop_happens(old(self).tree@, src as int, tab_index as int, dst as int) ==> final(self).tree@ == old(self).tree@,
            drop_happens(old(self).tree@, src as int, tab_index as int, dst as int) ==> exists|
                extracted: Seq<PanelNode<R, F>>,
                tab: Tab,
                placed: Seq<PanelNode<R, F>>,
            |
                #[trigger] drop_steps(
                    old(self).tree@,
                    src as int,
                    tab_index as int,
                    dst as int,
                    target,
                    half,
                    extracted,
                    tab,
                    placed,
                    final(self).tree@,
                ),
            well_formed(old(self).tree@) ==> well_formed(final(self).tree@),
            well_formed(old(self).tree@) ==> all_tabs(final(self).tree@) =~= all_tabs(
                old(self).tree@,
            ),
            well_formed(old(self).tree@) && drop_happens(
                old(self).tree@,
                src as int,
                tab_index as int,
                dst as int,
            ) ==> no_empty_container(final(self).tree@),
            well_formed(old(self).tree@) && no_empty_container(old(self).tree@) ==> no_empty_container(
                final(self).tree@,
            ),
    {
        let ghost s0 = self.tree@;
        // Only trigger the drop if we are inside a content.
        if !self.tree[dst].is_container() {
            return;
        }
        // Remove the tab from the old place.
        let mut node = PanelNode::Empty;
        self.tree.set_and_swap(src, &mut node);
        let extracted_tab = node.extract_tab(tab_index);
        self.tree.set(src, node);
        let tab = match extracted_tab {
            Some(tab) => tab,
            None => {
                proof {
                    assert(self.tree@ =~= s0);
                }
                return;
            },
        };
        let ghost s1 = self.tree@;
        proof {
            lemma_grown_len(s1);
        }
        // If we do not have direction it means that the tab was dropped inside
        // the tab section and therefore should be moved.
        match target {
            Some(SplitDir::Left) => {
                let (left, _) = self.horizontal_split(dst, HSplitDir::Right, HFraction::Right(half));
                self.insert_tab(left, tab.title.as_str(), tab.identification.as_str());
            },
            Some(SplitDir::Right) => {
                let (_, right) = self.horizontal_split(dst, HSplitDir::Left, HFraction::Left(half));
                self.insert_tab(right, tab.title.as_str(), tab.identification.as_str());
            },
            Some(SplitDir::Top) => {
                let (top, _) = self.vertical_split(dst, VSplitDir::Bottom, VFraction::Bottom(half));
                self.insert_tab(top, tab.title.as_str(), tab.identification.as_str());
            },
            Some(SplitDir::Bottom) => {
                let (_, bottom) = self.vertical_split(dst, VSplitDir::Top, VFraction::Top(half));
                self.insert_tab(bottom, tab.title.as_str(), tab.identification.as_str());
            },
            None => {
                let mut node = PanelNode::Empty;
                self.tree.set_and_swap(dst, &mut node);
                node.append_tab(tab);
                self.tree.set(dst, node);
            },
        }
        let ghost s2 = self.tree@;
        proof {
            assert(tab_extracted(s0, src as int, tab_index as int, s1, tab));
            assert(tab_placed(s1, dst as int, target, half, tab, s2));
            assert(s2.len() <= usize::MAX / 4);
            let d = dst as int;
            assert(s1.len() == s0.len());
            assert(0 <= d < s1.len());
            match target {
                None => {},
                Some(SplitDir::Left) => {
                    let layout = PanelNode::HLayout { rect: None, fraction: HFraction::Right(half) };
                    lemma_split_keeps_nodes(s1, d, layout, false);
                    assert(s2[0] == split_tree(s1, d, layout, false)[0]);
                },
                Some(SplitDir::Right) => {
                    let layout = PanelNode::HLayout { rect: None, fraction: HFraction::Left(half) };
                    lemma_split_keeps_nodes(s1, d, layout, true);
                    assert(s2[0] == split_tree(s1, d, layout, true)[0]);
                },
                Some(SplitDir::Top) => {
                    let layout = PanelNode::VLayout { rect: None, fraction: VFraction::Bottom(half) };
                    lemma_split_keeps_nodes(s1, d, layout, false);
                    assert(s2[0] == split_tree(s1, d, layout, false)[0]);
                },
                Some(SplitDir::Bottom) => {
                    let layout = PanelNode::VLayout { rect: None, fraction: VFraction::Top(half) };
                    lemma_split_keeps_nodes(s1, d, layout, true);
                    assert(s2[0] == split_tree(s1, d, layout, true)[0]);
                },
            }
            if dst != 0 {
                assert(s2[0] == s1[0]);
                if src != 0 {
                    assert(s1[0] == s0[0]);
                }
            }
            assert(!empty_container(s2[0]));
            assert forall|c: int| is_first_empty_container(s2, c) implies c != 0 by {}
        }
        // Clear all the empty containers.
        self.clean_containers();
        proof {
            assert(drop_steps(
                s0,
                src as int,
                tab_index as int,
                dst as int,
                target,
                half,
                s1,
                tab,
                s2,
                self.tree@,
            ));
            if well_formed(s0) {
                law_drop_leaves_no_empty_container(
                    s0,
                    src as int,
                    tab_index as int,
                    dst as int,
                    target,
                    half,
                    self.tree@,
                );
                law_drop_keeps_tabs(
                    s0,
                    src as int,
                    tab_index as int,
                    dst as int,
                    target,
                    half,
                    self.tree@,
                );
                law_drop_keeps_well_formed(
                    s0,
                    src as int,
                    tab_index as int,
                    dst as int,
                    target,
                    half,
                    self.tree@,
                );
            }
        }
    }
}

/// A tab dropped on the tab bar of a panel moves there: it leaves its
/// panel and comes last in the tab bar of the target, and no other panel
/// changes, when no panel was without tabs and the tab's panel keeps a tab
/// or is the target itself.
pub proof fn law_drop_into_tab_bar<R, F>(
    before: Seq<PanelNode<R, F>>,
    src: int,
    index: int,
    dst: int,
    half: F,
    after: Seq<PanelNode<R, F>>,
)
    requires
        0 <= src < before.len(),
        0 <= dst < before.len(),
        drop_happens(before, src, index, dst),
        no_empty_container(before),
        src == dst || tabs_of(before[src]).len() > 1,
        exists|extracted: Seq<PanelNode<R, F>>, tab: Tab, placed: Seq<PanelNode<R, F>>|
            #[trigger] drop_steps(before, src, index, dst, None, half, extracted, tab, placed, after),
    ensures
        after.len() == before.len(),
        forall|j: int| 0 <= j < before.len() && j != src && j != dst ==> after[j] == before[j],
        is_container_node(after[dst]),
        src != dst ==> tabs_of(after[src]) == tabs_of(before[src]).remove(index),
        src != dst ==> tabs_of(after[dst]) == tabs_of(before[dst]).push(tabs_of(before[src])[index]),
        src == dst ==> tabs_of(after[dst]) == tabs_of(before[src]).remove(index).push(
            tabs_of(before[src])[index],
        ),
{
    let (extracted, tab, placed) = choose|
        extracted: Seq<PanelNode<R, F>>,
        tab: Tab,
        placed: Seq<PanelNode<R, F>>,
    | #[trigger] drop_steps(before, src, index, dst, None, half, extracted, tab, placed, after);
    assert(no_empty_container(placed)) by {
        assert forall|j: int| 0 <= j < placed.len() implies !empty_container(
            #[trigger] placed[j],
        ) by {
            if j != dst {
                assert(placed[j] == extracted[j]);
                if j != src {
                    assert(extracted[j] == before[j]);
                }
            }
        }
    }
    lemma_cleaned_all_facts(placed, placed.len());
    assert(after == placed);
}

/// The child of `dst` that receives a tab dropped on side `dir` of it.
pub open spec fn drop_side(dst: int, dir: SplitDir) -> int {
    match dir {
        SplitDir::Left | SplitDir::Top => 2 * dst + 1,
        SplitDir::Right | SplitDir::Bottom => 2 * dst + 2,
    }
}

/// The child of `dst` that keeps its previous content when a tab is dropped
/// on side `dir` of it.
pub open spec fn kept_side(dst: int, dir: SplitDir) -> int {
    match dir {
        SplitDir::Left | SplitDir::Top => 2 * dst + 2,
        SplitDir::Right | SplitDir::Bottom => 2 * dst + 1,
    }
}

/// The layout that replaces a panel when a tab is dropped on side `dir`
/// of it.
pub open spec fn drop_layout<R, F>(dir: SplitDir, half: F) -> PanelNode<R, F> {
    match dir {
        SplitDir::Left => PanelNode::HLayout { rect: None, fraction: HFraction::Right(half) },
        SplitDir::Right => PanelNode::HLayout { rect: None, fraction: HFraction::Left(half) },
        SplitDir::Top => PanelNode::VLayout { rect: None, fraction: VFraction::Bottom(half) },
        SplitDir::Bottom => PanelNode::VLayout { rect: None, fraction: VFraction::Top(half) },
    }
}

/// A tab dropped on a side of another panel gets a panel of its own on
/// that side: the target is split in halves, keeps its tabs on the other
/// half, and no panel goes away, when no panel was without tabs and the
/// tab's panel keeps a tab and is neither the target nor one of its
/// halves.
pub proof fn law_drop_beside<R, F>(
    before: Seq<PanelNode<R, F>>,
    src: int,
    index: int,
    dst: int,
    dir: SplitDir,
    half: F,
    after: Seq<PanelNode<R, F>>,
)
    requires
        0 <= src < before.len() <= usize::MAX / 4,
        0 <= dst < before.len(),
        drop_happens(before, src, index, dst),
        no_empty_container(before),
        tabs_of(before[src]).len() > 1,
        src != dst && src != 2 * dst + 1 && src != 2 * dst + 2,
        exists|extracted: Seq<PanelNode<R, F>>, tab: Tab, placed: Seq<PanelNode<R, F>>|
            #[trigger] drop_steps(before, src, index, dst, Some(dir), half, extracted, tab, placed, after),
    ensures
        2 * dst + 2 < after.len(),
        after[dst] == drop_layout::<R, F>(dir, half),
        after[kept_side(dst, dir)] == before[dst],
        is_container_node(after[drop_side(dst, dir)]),
        tabs_of(after[drop_side(dst, dir)]).len() == 1,
        tab_is(
            tabs_of(after[drop_side(dst, dir)])[0],
            tabs_of(before[src])[index].title@,
            tabs_of(before[src])[index].identification@,
        ),
        is_container_node(after[src]),
        tabs_of(after[src]) == tabs_of(before[src]).remove(index),
        forall|j: int|
            0 <= j < before.len() && j < after.len() && j != src && j != dst && j != 2 * dst + 1
                && j != 2 * dst + 2 ==> after[j] == before[j],
{
    let (extracted, tab, placed) = choose|
        extracted: Seq<PanelNode<R, F>>,
        tab: Tab,
        placed: Seq<PanelNode<R, F>>,
    | #[trigger] drop_steps(before, src, index, dst, Some(dir), half, extracted, tab, placed, after);
    let layout = drop_layout::<R, F>(dir, half);
    let keep_left = dir is Right || dir is Bottom;
    let r = split_tree(extracted, dst, layout, keep_left);
    lemma_split_keeps_nodes(extracted, dst, layout, keep_left);
    assert(tab_inserted_at(r, drop_side(dst, dir), placed, tab));
    assert(kept_side(dst, dir) == if keep_left { 2 * dst + 1 } else { 2 * dst + 2 });
    assert(drop_side(dst, dir) == if keep_left { 2 * dst + 2 } else { 2 * dst + 1 });
    assert(no_empty_container(placed)) by {
        assert forall|j: int| 0 <= j < placed.len() implies !empty_container(
            #[trigger] placed[j],
        ) by {
            if j != drop_side(dst, dir) {
                assert(placed[j] == r[j]);
                if j < extracted.len() && j != dst && j != 2 * dst + 1 && j != 2 * dst + 2 {
                    assert(r[j] == extracted[j]);
                    if j != src {
                        assert(extracted[j] == before[j]);
                    }
                }
            }
        }
    }
    lemma_cleaned_all_facts(placed, placed.len());
    assert(after == placed);
}

} // verus!
