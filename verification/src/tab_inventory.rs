//! The tabs a panel tree holds, wherever they are: dragging a tab moves it
//! without losing or copying any tab.
use vstd::prelude::*;
use vstd::multiset::Multiset;

use crate::dynamic_panel::{
    drop_happens, drop_layout, drop_side, drop_steps, tab_inserted_at, SplitDir,
};
use crate::split_panel_tree::{
    cleaned_all, first_empty, cleaned_position, cleaned_tree, depth_below, empty_container, inserted_tab,
    is_container_node, is_first_empty_container, lemma_cleaned_node, lemma_split_keeps_nodes,
    no_empty_container, occupied, split_tree, tab_is, tabs_of, PanelNode, Tab,
};
use crate::tree_shape::{
    is_layout, lemma_cleaned_all_done, lemma_drop_placed_shape, lemma_first_empty_container,
    lemma_leaf_root, lemma_nothing_below_leaf, lemma_occupied_count_bound,
    law_clean_keeps_well_formed, well_formed,
};

verus! {

broadcast use {vstd::seq_lib::group_to_multiset_ensures, vstd::multiset::group_multiset_axioms};

/// What tells a tab apart: its title and its identification.
pub open spec fn tab_view(t: Tab) -> (Seq<char>, Seq<char>) {
    (t.title@, t.identification@)
}

/// The tabs of one node.
pub open spec fn node_tabs<R, F>(n: PanelNode<R, F>) -> Multiset<(Seq<char>, Seq<char>)> {
    tabs_of(n).map_values(|t: Tab| tab_view(t)).to_multiset()
}

/// All the tabs of the tree, whatever node holds them.
pub open spec fn all_tabs<R, F>(s: Seq<PanelNode<R, F>>) -> Multiset<(Seq<char>, Seq<char>)>
    decreases s.len(),
{
    if s.len() == 0 {
        Multiset::empty()
    } else {
        all_tabs(s.drop_last()).add(node_tabs(s.last()))
    }
}

/// A node without tabs adds none.
#[verifier::spinoff_prover]
proof fn lemma_no_tabs<R, F>(n: PanelNode<R, F>)
    requires
        tabs_of(n).len() == 0,
    ensures
        node_tabs(n) =~= Multiset::empty(),
{
    let m = tabs_of(n).map_values(|t: Tab| tab_view(t));
    assert forall|v: (Seq<char>, Seq<char>)| #[trigger] m.to_multiset().count(v) == 0 by {
        if m.to_multiset().count(v) > 0 {
            assert(m.contains(v));
        }
    }
}

/// A tree in which no node holds a tab holds none.
#[verifier::spinoff_prover]
proof fn lemma_all_tabs_vacant<R, F>(s: Seq<PanelNode<R, F>>)
    requires
        forall|x: int| 0 <= x < s.len() ==> tabs_of(#[trigger] s[x]).len() == 0,
    ensures
        all_tabs(s) =~= Multiset::empty(),
    decreases s.len(),
{
    if s.len() > 0 {
        lemma_all_tabs_vacant(s.drop_last());
        assert(tabs_of(s[s.len() - 1]).len() == 0);
        lemma_no_tabs(s.last());
    }
}

/// Replacing one node changes the tabs of the tree by the tabs of the two
/// nodes.
#[verifier::spinoff_prover]
proof fn lemma_all_tabs_update<R, F>(s: Seq<PanelNode<R, F>>, j: int, n: PanelNode<R, F>)
    requires
        0 <= j < s.len(),
    ensures
        all_tabs(s.update(j, n)).add(node_tabs(s[j])) =~= all_tabs(s).add(node_tabs(n)),
    decreases s.len(),
{
    let u = s.update(j, n);
    assert(all_tabs(u) == all_tabs(u.drop_last()).add(node_tabs(u.last())));
    assert(all_tabs(s) == all_tabs(s.drop_last()).add(node_tabs(s.last())));
    if j == s.len() - 1 {
        assert(u.drop_last() =~= s.drop_last());
        assert(u.last() == n);
        assert(s.last() == s[j]);
    } else {
        assert(u.drop_last() =~= s.drop_last().update(j, n));
        assert(u.last() == s.last());
        lemma_all_tabs_update(s.drop_last(), j, n);
        assert(s.drop_last()[j] == s[j]);
    }
    assert forall|v: (Seq<char>, Seq<char>)|
        #[trigger] all_tabs(u).add(node_tabs(s[j])).count(v) == all_tabs(s).add(node_tabs(n)).count(
            v,
        ) by {
        if j != s.len() - 1 {
            assert(all_tabs(u.drop_last()).add(node_tabs(s[j])).count(v) == all_tabs(
                s.drop_last(),
            ).add(node_tabs(n)).count(v));
        }
    }
}

/// Two trees hold the same tabs when the nodes with tabs of the first move
/// one for one onto the nodes with tabs of the second.
#[verifier::spinoff_prover]
proof fn lemma_all_tabs_moved<R, F>(
    s: Seq<PanelNode<R, F>>,
    t: Seq<PanelNode<R, F>>,
    f: spec_fn(int) -> int,
)
    requires
        forall|x: int|
            0 <= x < s.len() && tabs_of(#[trigger] s[x]).len() > 0 ==> 0 <= f(x) < t.len() && t[f(
                x,
            )] == s[x],
        forall|x: int, y: int|
            0 <= x < s.len() && 0 <= y < s.len() && x != y && tabs_of(#[trigger] s[x]).len() > 0
                && tabs_of(#[trigger] s[y]).len() > 0 ==> f(x) != f(y),
        forall|y: int|
            0 <= y < t.len() && tabs_of(#[trigger] t[y]).len() > 0 ==> exists|x: int|
                0 <= x < s.len() && tabs_of(s[x]).len() > 0 && #[trigger] f(x) == y,
    ensures
        all_tabs(s) =~= all_tabs(t),
    decreases s.len(),
{
    if s.len() == 0 {
        assert forall|y: int| 0 <= y < t.len() implies tabs_of(#[trigger] t[y]).len() == 0 by {
            if tabs_of(t[y]).len() > 0 {
                let x = choose|x: int| 0 <= x < s.len() && tabs_of(s[x]).len() > 0 && f(x) == y;
            }
        }
        lemma_all_tabs_vacant(t);
    } else {
        let x = s.len() - 1;
        let s1 = s.drop_last();
        if tabs_of(s[x]).len() == 0 {
            lemma_no_tabs(s[x]);
            assert forall|y: int|
                0 <= y < t.len() && tabs_of(#[trigger] t[y]).len() > 0 implies exists|x1: int|
                0 <= x1 < s1.len() && tabs_of(s1[x1]).len() > 0 && #[trigger] f(x1) == y by {
                let x0 = choose|x0: int| 0 <= x0 < s.len() && tabs_of(s[x0]).len() > 0 && f(x0) == y;
                assert(x0 != x);
                assert(s1[x0] == s[x0]);
            }
            lemma_all_tabs_moved(s1, t, f);
        } else {
            let y = f(x);
            let t1 = t.update(y, PanelNode::Empty);
            lemma_all_tabs_update(t, y, PanelNode::Empty);
            lemma_no_tabs(PanelNode::<R, F>::Empty);
            assert forall|x1: int|
                0 <= x1 < s1.len() && tabs_of(#[trigger] s1[x1]).len() > 0 implies 0 <= f(x1)
                < t1.len() && t1[f(x1)] == s1[x1] by {
                assert(s1[x1] == s[x1]);
                assert(f(x1) != y);
            }
            assert forall|x1: int, x2: int|
                0 <= x1 < s1.len() && 0 <= x2 < s1.len() && x1 != x2 && tabs_of(#[trigger] s1[x1]).len()
                    > 0 && tabs_of(#[trigger] s1[x2]).len() > 0 implies f(x1) != f(x2) by {
                assert(s1[x1] == s[x1]);
                assert(s1[x2] == s[x2]);
            }
            assert forall|y1: int|
                0 <= y1 < t1.len() && tabs_of(#[trigger] t1[y1]).len() > 0 implies exists|x1: int|
                0 <= x1 < s1.len() && tabs_of(s1[x1]).len() > 0 && #[trigger] f(x1) == y1 by {
                assert(y1 != y);
                assert(t1[y1] == t[y1]);
                let x0 = choose|x0: int| 0 <= x0 < s.len() && tabs_of(s[x0]).len() > 0 && f(x0) == y1;
                assert(x0 != x);
                assert(s1[x0] == s[x0]);
            }
            lemma_all_tabs_moved(s1, t1, f);
        }
    }
}

/// Splitting a node that is not a layout keeps every tab of a well-formed
/// tree.
#[verifier::spinoff_prover]
pub proof fn law_split_keeps_tabs<R, F>(
    s: Seq<PanelNode<R, F>>,
    target: int,
    layout: PanelNode<R, F>,
    keep_left: bool,
)
    requires
        well_formed(s),
        0 <= target < s.len() <= usize::MAX / 4,
        is_layout(layout),
        !is_layout(s[target]),
    ensures
        all_tabs(split_tree(s, target, layout, keep_left)) =~= all_tabs(s),
{
    let r = split_tree(s, target, layout, keep_left);
    lemma_split_keeps_nodes(s, target, layout, keep_left);
    let kept = if keep_left { 2 * target + 1 } else { 2 * target + 2 };
    let f = |x: int| if x == target { kept } else { x };
    assert forall|x: int| 0 <= x < s.len() && (x == 2 * target + 1 || x == 2 * target + 2) implies
        !occupied(#[trigger] s[x]) by {
        assert(depth_below(x, target) == Some(1nat)) by {
            assert(depth_below(target, target) == Some(0nat));
        }
        lemma_nothing_below_leaf(s, target, x);
    }
    assert forall|x: int| 0 <= x < s.len() && tabs_of(#[trigger] s[x]).len() > 0 implies 0 <= f(x)
        < r.len() && r[f(x)] == s[x] by {
        assert(occupied(s[x]));
    }
    assert forall|y: int|
        0 <= y < r.len() && tabs_of(#[trigger] r[y]).len() > 0 implies exists|x: int|
        0 <= x < s.len() && tabs_of(s[x]).len() > 0 && #[trigger] f(x) == y by {
        if y == kept {
            assert(f(target) == y);
        } else {
            assert(y != target);
            assert(y != 2 * target + 1 && y != 2 * target + 2);
            assert(y < s.len());
            assert(r[y] == s[y]);
            assert(f(y) == y);
        }
    }
    lemma_all_tabs_moved(s, r, f);
}

/// Inserting a tab in a node that is not a layout adds just that tab.
#[verifier::spinoff_prover]
pub proof fn law_insert_adds_tab<R, F>(
    s: Seq<PanelNode<R, F>>,
    target: int,
    title: Seq<char>,
    identification: Seq<char>,
    after: Seq<PanelNode<R, F>>,
)
    requires
        0 <= target < s.len(),
        !is_layout(s[target]),
        after.len() == s.len(),
        forall|j: int| 0 <= j < s.len() && j != target ==> after[j] == s[j],
        inserted_tab(s[target], after[target], title, identification),
    ensures
        all_tabs(after) =~= all_tabs(s).insert((title, identification)),
{
    let v = (title, identification);
    assert(after =~= s.update(target, after[target]));
    lemma_all_tabs_update(s, target, after[target]);
    let before_tabs = tabs_of(s[target]);
    let after_tabs = tabs_of(after[target]);
    assert(after_tabs =~= before_tabs.push(after_tabs.last())) by {
        if s[target] is Empty {
            assert(before_tabs =~= Seq::<Tab>::empty());
        }
    }
    assert(after_tabs.map_values(|t: Tab| tab_view(t)) =~= before_tabs.map_values(
        |t: Tab| tab_view(t),
    ).push(v));
    assert(node_tabs(after[target]) =~= node_tabs(s[target]).insert(v));
    assert forall|w: (Seq<char>, Seq<char>)| #[trigger] all_tabs(after).count(w) == all_tabs(
        s,
    ).insert(v).count(w) by {
        assert(all_tabs(after).add(node_tabs(s[target])).count(w) == all_tabs(s).add(
            node_tabs(after[target]),
        ).count(w));
    }
}

/// Taking a tab out of its container removes just that tab.
#[verifier::spinoff_prover]
pub proof fn law_extract_removes_tab<R, F>(
    before: Seq<PanelNode<R, F>>,
    src: int,
    index: int,
    after: Seq<PanelNode<R, F>>,
    tab: Tab,
)
    requires
        0 <= src < before.len(),
        crate::dynamic_panel::tab_extracted(before, src, index, after, tab),
    ensures
        all_tabs(after).insert(tab_view(tab)) =~= all_tabs(before),
{
    assert(after =~= before.update(src, after[src]));
    lemma_all_tabs_update(before, src, after[src]);
    let m = tabs_of(before[src]).map_values(|t: Tab| tab_view(t));
    assert(tabs_of(after[src]).map_values(|t: Tab| tab_view(t)) =~= m.remove(index));
    assert(m[index] == tab_view(tab));
    assert(node_tabs(after[src]) =~= node_tabs(before[src]).remove(tab_view(tab)));
    assert(m.contains(tab_view(tab)));
    assert(node_tabs(before[src]).count(tab_view(tab)) > 0);
    assert forall|w: (Seq<char>, Seq<char>)| #[trigger] all_tabs(after).insert(tab_view(tab)).count(
        w,
    ) == all_tabs(before).count(w) by {
        assert(all_tabs(after).add(node_tabs(before[src])).count(w) == all_tabs(before).add(
            node_tabs(after[src]),
        ).count(w));
    }
}

/// Removing the first empty container, when it is not the root, keeps
/// every tab of a well-formed tree.
#[verifier::spinoff_prover]
pub proof fn law_clean_keeps_tabs<R, F>(s: Seq<PanelNode<R, F>>, c: int)
    requires
        well_formed(s),
        is_first_empty_container(s, c),
        c > 0,
    ensures
        all_tabs(cleaned_tree(s, c)) =~= all_tabs(s),
{
    let p = (c - 1) / 2;
    let t = cleaned_tree(s, c);
    assert forall|z: int|
        0 <= z < s.len() && z != c && depth_below(z, c) is Some implies !occupied(
        #[trigger] s[z],
    ) by {
        lemma_nothing_below_leaf(s, c, z);
    }
    crate::split_panel_tree::law_clean_keeps_nodes(s, c);
    let f = |x: int| cleaned_position(c, x);
    assert(is_layout(s[p]));
    assert forall|x: int| 0 <= x < s.len() && tabs_of(#[trigger] s[x]).len() > 0 implies 0 <= f(x)
        < t.len() && t[f(x)] == s[x] by {
        assert(occupied(s[x]));
        assert(x != c && x != p);
        lemma_cleaned_node(s, c, x);
    }
    assert forall|x: int, y: int|
        0 <= x < s.len() && 0 <= y < s.len() && x != y && tabs_of(#[trigger] s[x]).len() > 0
            && tabs_of(#[trigger] s[y]).len() > 0 implies f(x) != f(y) by {
        assert(occupied(s[x]) && occupied(s[y]));
        assert(x != c && x != p && y != c && y != p);
    }
    assert forall|y: int|
        0 <= y < t.len() && tabs_of(#[trigger] t[y]).len() > 0 implies exists|x: int|
        0 <= x < s.len() && tabs_of(s[x]).len() > 0 && #[trigger] f(x) == y by {
        lemma_cleaned_node(s, c, y);
        let z = choose|z: int|
            0 <= z < s.len() && z != c && z != p && occupied(s[z]) && cleaned_position(c, z) == y;
        lemma_cleaned_node(s, c, z);
        assert(t[y] == s[z]);
        assert(f(z) == y);
    }
    lemma_all_tabs_moved(s, t, f);
}

/// Dropping a tab moves it: the tree holds the same tabs as before, none
/// lost and none copied, when it was well formed and the root is not left
/// without tabs.
#[verifier::spinoff_prover]
pub proof fn law_drop_keeps_tabs<R, F>(
    before: Seq<PanelNode<R, F>>,
    src: int,
    index: int,
    dst: int,
    target: Option<SplitDir>,
    half: F,
    after: Seq<PanelNode<R, F>>,
)
    requires
        well_formed(before),
        0 <= src < before.len() <= usize::MAX / 16,
        0 <= dst < before.len(),
        drop_happens(before, src, index, dst),
        dst != 0 && is_container_node(before[0]) ==> tabs_of(before[0]).len() > (if src == 0 {
            1int
        } else {
            0int
        }),
        exists|extracted: Seq<PanelNode<R, F>>, tab: Tab, placed: Seq<PanelNode<R, F>>|
            #[trigger] drop_steps(before, src, index, dst, target, half, extracted, tab, placed, after),
    ensures
        all_tabs(after) =~= all_tabs(before),
{
    let (extracted, tab, placed) = choose|
        extracted: Seq<PanelNode<R, F>>,
        tab: Tab,
        placed: Seq<PanelNode<R, F>>,
    | #[trigger] drop_steps(before, src, index, dst, target, half, extracted, tab, placed, after);
    lemma_drop_placed_shape(before, src, index, dst, target, half, extracted, tab, placed);
    law_extract_removes_tab(before, src, index, extracted, tab);
    let v = tab_view(tab);
    match target {
        None => {
            assert(tabs_of(placed[dst]).drop_last() =~= tabs_of(extracted[dst]));
            assert(inserted_tab(extracted[dst], placed[dst], tab.title@, tab.identification@));
            law_insert_adds_tab(extracted, dst, tab.title@, tab.identification@, placed);
        },
        Some(dir) => {
            let layout = drop_layout::<R, F>(dir, half);
            let keep_left = dir is Right || dir is Bottom;
            let r = split_tree(extracted, dst, layout, keep_left);
            lemma_split_keeps_nodes(extracted, dst, layout, keep_left);
            law_split_keeps_tabs(extracted, dst, layout, keep_left);
            let side = drop_side(dst, dir);
            assert(tab_inserted_at(r, side, placed, tab));
            assert(r[side] is Empty);
            law_insert_adds_tab(r, side, tab.title@, tab.identification@, placed);
        },
    }
    assert(all_tabs(placed) =~= all_tabs(before));
    lemma_cleaned_all_keeps(placed, placed.len());
}

/// After a drop no container is left without tabs, when the tree was well
/// formed and the root is not left without tabs.
pub proof fn law_drop_leaves_no_empty_container<R, F>(
    before: Seq<PanelNode<R, F>>,
    src: int,
    index: int,
    dst: int,
    target: Option<SplitDir>,
    half: F,
    after: Seq<PanelNode<R, F>>,
)
    requires
        well_formed(before),
        0 <= src < before.len() <= usize::MAX / 16,
        0 <= dst < before.len(),
        drop_happens(before, src, index, dst),
        dst != 0 && is_container_node(before[0]) ==> tabs_of(before[0]).len() > (if src == 0 {
            1int
        } else {
            0int
        }),
        exists|extracted: Seq<PanelNode<R, F>>, tab: Tab, placed: Seq<PanelNode<R, F>>|
            #[trigger] drop_steps(before, src, index, dst, target, half, extracted, tab, placed, after),
    ensures
        no_empty_container(after),
{
    let (extracted, tab, placed) = choose|
        extracted: Seq<PanelNode<R, F>>,
        tab: Tab,
        placed: Seq<PanelNode<R, F>>,
    | #[trigger] drop_steps(before, src, index, dst, target, half, extracted, tab, placed, after);
    lemma_drop_placed_shape(before, src, index, dst, target, half, extracted, tab, placed);
    lemma_all_tabs_nonempty(before, src);
    law_drop_keeps_tabs(before, src, index, dst, target, half, after);
    lemma_occupied_count_bound(placed);
    lemma_cleaned_all_done(placed, placed.len());
    crate::split_panel_tree::lemma_cleaned_all_facts(placed, placed.len());
    if !no_empty_container(after) {
        lemma_cleaned_all_keeps(placed, placed.len());
        lemma_leaf_root(after);
        lemma_all_tabs_root_only(after);
    }
}

/// A tree whose root is a container without tabs and whose other nodes are
/// empty holds no tab.
pub proof fn lemma_all_tabs_root_only<R, F>(s: Seq<PanelNode<R, F>>)
    requires
        s.len() > 0,
        empty_container(s[0]),
        forall|x: int| 0 < x < s.len() ==> !occupied(#[trigger] s[x]),
    ensures
        all_tabs(s).len() == 0,
{
    assert forall|x: int| 0 <= x < s.len() implies tabs_of(#[trigger] s[x]).len() == 0 by {
        if x > 0 {
            assert(!occupied(s[x]));
        }
    }
    lemma_all_tabs_vacant(s);
}

/// A tree with a node holding a tab holds some tab.
pub proof fn lemma_all_tabs_nonempty<R, F>(s: Seq<PanelNode<R, F>>, j: int)
    requires
        0 <= j < s.len(),
        tabs_of(s[j]).len() > 0,
    ensures
        all_tabs(s).len() > 0,
{
    lemma_all_tabs_update(s, j, PanelNode::Empty);
    lemma_no_tabs(PanelNode::<R, F>::Empty);
    let m = tabs_of(s[j]).map_values(|t: Tab| tab_view(t));
    assert(m.contains(m[0]));
    assert(node_tabs(s[j]).count(m[0]) > 0);
    assert(all_tabs(s).count(m[0]) > 0) by {
        assert(all_tabs(s.update(j, PanelNode::Empty)).add(node_tabs(s[j])).count(m[0])
            == all_tabs(s).add(node_tabs(PanelNode::<R, F>::Empty)).count(m[0]));
    }
}

/// Removing empty containers, again and again, keeps a well-formed tree
/// well formed and keeps its tabs.
pub proof fn lemma_cleaned_all_keeps<R, F>(s: Seq<PanelNode<R, F>>, n: nat)
    requires
        well_formed(s),
    ensures
        well_formed(cleaned_all(s, n)),
        all_tabs(cleaned_all(s, n)) =~= all_tabs(s),
    decreases n,
{
    if !(n == 0 || no_empty_container(s) || is_first_empty_container(s, 0)) {
        let e = choose|e: int| 0 <= e < s.len() && empty_container(#[trigger] s[e]);
        lemma_first_empty_container(s, e);
        let c = first_empty(s);
        assert(is_first_empty_container(s, c));
        law_clean_keeps_well_formed(s, c);
        law_clean_keeps_tabs(s, c);
        lemma_cleaned_all_keeps(cleaned_tree(s, c), (n - 1) as nat);
    }
}

} // verus!
