use engine::panels::configure_panels;
use engine::dynamic_panel::{split_dir_of_section, SharedData, SplitDir};
use engine::split_panel_tree::{
    BinaryOps, HFraction, HSplitDir, PanelNode, SplitPanelTree, Tab, VFraction, VSplitDir,
    ROOT_NODE,
};

type Tree = SplitPanelTree<(i32, i32), f32>;
type Node = PanelNode<(i32, i32), f32>;

fn describe(node: &Node) -> String {
    match node {
        PanelNode::Empty => "-".to_string(),
        PanelNode::Container { tabs, .. } => {
            let titles: Vec<String> = tabs.iter().map(|t| t.title.clone()).collect();
            format!("C[{}]", titles.join(","))
        }
        PanelNode::HLayout { .. } => "H".to_string(),
        PanelNode::VLayout { .. } => "V".to_string(),
    }
}

fn occupied(tree: &Tree) -> Vec<(usize, String)> {
    tree.tree
        .iter()
        .enumerate()
        .filter(|(_, n)| !matches!(n, PanelNode::Empty))
        .map(|(i, n)| (i, describe(n)))
        .collect()
}

fn pairs(v: &[(usize, &str)]) -> Vec<(usize, String)> {
    v.iter().map(|(i, s)| (*i, s.to_string())).collect()
}

/// The default layout of the editor.
fn configured() -> Tree {
    let mut tree = Tree::default();
    configure_panels(&mut tree, 0.85, 0.8, 0.8, 0.3);
    tree
}

#[test]
fn index_children_and_parent() {
    assert_eq!(0usize.left(), 1);
    assert_eq!(0usize.right(), 2);
    assert_eq!(4usize.left(), 9);
    assert_eq!(4usize.right(), 10);
    assert_eq!(9usize.parent(), 4);
    assert_eq!(10usize.parent(), 4);
    assert!(9usize.is_left());
    assert!(!9usize.is_right());
    assert!(10usize.is_right());
    assert!(0usize.is_right());
}

#[test]
fn index_levels() {
    assert_eq!(0usize.level(), 0);
    assert_eq!(1usize.level(), 2);
    assert_eq!(2usize.level(), 2);
    assert_eq!(3usize.level(), 3);
    assert_eq!(6usize.level(), 3);
    assert_eq!(7usize.level(), 4);
    assert_eq!(1000usize.level(), 10);
}

#[test]
fn index_children_ranges() {
    assert_eq!(0usize.children_at(0), 0..1);
    assert_eq!(1usize.children_at(1), 3..5);
    assert_eq!(1usize.children_at(2), 7..11);
    assert_eq!(1usize.children_left(2), 7..9);
    assert_eq!(1usize.children_right(2), 9..11);
    assert_eq!(2usize.children_right(1), 6..7);
    assert_eq!(2usize.children_left(0), 2..2);
    assert_eq!(2usize.children_right(0), 2..3);
}

#[test]
fn default_tree_has_an_empty_root() {
    let tree = Tree::default();
    assert_eq!(tree.len(), 1);
    assert!(matches!(tree.tree[0], PanelNode::Empty));
}

#[test]
fn first_split_grows_to_three_nodes() {
    let mut tree = Tree::default();
    tree.insert_tab(0, "Viewport", "Viewport");
    let (l, r) = tree.horizontal_split(0, HSplitDir::Right, HFraction::Left(0.5));
    assert_eq!((l, r), (1, 2));
    assert_eq!(tree.len(), 3);
    assert_eq!(occupied(&tree), pairs(&[(0, "H"), (2, "C[Viewport]")]));
    match &tree.tree[0] {
        PanelNode::HLayout { rect, fraction } => {
            assert!(rect.is_none());
            assert!(matches!(fraction, HFraction::Left(f) if *f == 0.5));
        }
        _ => panic!("expected a horizontal layout"),
    }
}

#[test]
fn default_layout_of_the_editor() {
    let tree = configured();
    assert_eq!(tree.len(), 17);
    assert!(parents_are_layouts(&tree));
    assert_eq!(
        occupied(&tree),
        pairs(&[
            (0, "H"),
            (1, "H"),
            (2, "C[Properties,Scenes]"),
            (3, "V"),
            (4, "V"),
            (7, "C[Hierarchy]"),
            (8, "C[Entities]"),
            (9, "C[Viewport]"),
            (10, "C[Asset server,General logs]"),
        ])
    );
    assert!(matches!(&tree.tree[0], PanelNode::HLayout { fraction: HFraction::Left(f), .. } if *f == 0.85));
    assert!(matches!(&tree.tree[1], PanelNode::HLayout { fraction: HFraction::Right(f), .. } if *f == 0.8));
    assert!(matches!(&tree.tree[4], PanelNode::VLayout { fraction: VFraction::Top(f), .. } if *f == 0.8));
    assert!(matches!(&tree.tree[3], PanelNode::VLayout { fraction: VFraction::Bottom(f), .. } if *f == 0.3));
    match &tree.tree[10] {
        PanelNode::Container { tabs, active_tab, .. } => {
            assert_eq!(tabs[0].identification, "AssetServer");
            assert_eq!(tabs[1].identification, "GeneralLogs");
            assert_eq!(*active_tab, 0);
        }
        _ => panic!("expected a container"),
    }
}

#[test]
fn split_keeps_other_nodes() {
    let mut tree = configured();
    let (top, bottom) = tree.vertical_split(8, VSplitDir::Bottom, VFraction::Top(0.25));
    assert_eq!((top, bottom), (17, 18));
    assert_eq!(tree.len(), 33);
    assert_eq!(
        occupied(&tree),
        pairs(&[
            (0, "H"),
            (1, "H"),
            (2, "C[Properties,Scenes]"),
            (3, "V"),
            (4, "V"),
            (7, "C[Hierarchy]"),
            (8, "V"),
            (9, "C[Viewport]"),
            (10, "C[Asset server,General logs]"),
            (18, "C[Entities]"),
        ])
    );
}

#[test]
fn split_can_shrink_trailing_empty_nodes() {
    let mut tree = Tree::default();
    tree.tree.resize_with(40, || PanelNode::Empty);
    tree.insert_tab(0, "Only", "only");
    tree.horizontal_split(0, HSplitDir::Left, HFraction::Left(0.5));
    assert_eq!(tree.len(), 3);
    assert_eq!(occupied(&tree), pairs(&[(0, "H"), (1, "C[Only]")]));
}

#[test]
fn insert_tab_in_each_kind_of_node() {
    let mut tree = configured();
    tree.insert_tab(7, "Extra", "extra");
    assert_eq!(describe(&tree.tree[7]), "C[Hierarchy,Extra]");
    match &tree.tree[7] {
        PanelNode::Container { tabs, active_tab, .. } => {
            assert_eq!(*active_tab, 0);
            assert_eq!(tabs[1].identification, "extra");
        }
        _ => panic!("expected a container"),
    }
    tree.insert_tab(1, "Ignored", "ignored");
    assert_eq!(describe(&tree.tree[1]), "H");
    tree.insert_tab(5, "New", "new");
    assert_eq!(describe(&tree.tree[5]), "C[New]");
}

#[test]
fn extract_tab_cases() {
    let mut tree = configured();
    let mut node = std::mem::replace(&mut tree.tree[10], PanelNode::Empty);
    let tab = node.extract_tab(1).expect("the tab exists");
    assert_eq!(tab.title, "General logs");
    assert_eq!(describe(&node), "C[Asset server]");
    assert!(node.extract_tab(5).is_none());
    assert_eq!(describe(&node), "C[Asset server]");
    assert!(node.extract_tab(0).is_some());
    assert!(node.extract_tab(0).is_none());
    let mut layout: Node = PanelNode::HLayout { rect: None, fraction: HFraction::Left(0.5) };
    assert!(layout.extract_tab(0).is_none());
}

#[test]
fn append_then_extract_gives_the_tab_back() {
    let mut node: Node = PanelNode::Container { rect: None, tabs: Vec::new(), active_tab: 0 };
    node.append_tab(Tab { title: "A".to_string(), identification: "a".to_string() });
    node.append_tab(Tab { title: "B".to_string(), identification: "b".to_string() });
    let tab = node.extract_tab(1).unwrap();
    assert_eq!(tab.title, "B");
    assert_eq!(describe(&node), "C[A]");
    let mut empty: Node = PanelNode::Empty;
    empty.append_tab(Tab { title: "A".to_string(), identification: "a".to_string() });
    assert!(matches!(empty, PanelNode::Empty));
    assert!(node.is_container());
    assert!(!empty.is_container());
}

#[test]
fn update_rects() {
    let mut tree = configured();
    tree.update_root_rect((4, 5));
    match &tree.tree[0] {
        PanelNode::HLayout { rect, .. } => assert_eq!(*rect, Some((4, 5))),
        _ => panic!("expected a horizontal layout"),
    }
    tree.tree[7].update_rect((1, 2));
    match &tree.tree[7] {
        PanelNode::Container { rect, tabs, .. } => {
            assert_eq!(*rect, Some((1, 2)));
            assert_eq!(tabs.len(), 1);
        }
        _ => panic!("expected a container"),
    }
    let mut empty: Node = PanelNode::Empty;
    empty.update_rect((1, 1));
    assert!(matches!(empty, PanelNode::Empty));
    let mut none = Tree { tree: Vec::new() };
    none.update_root_rect((1, 1));
    assert_eq!(none.len(), 0);
}

#[test]
fn clean_without_empty_container_changes_nothing() {
    let mut tree = configured();
    let before = occupied(&tree);
    tree.clean_containers();
    assert_eq!(occupied(&tree), before);
    assert_eq!(tree.len(), 17);
}

#[test]
fn clean_lifts_the_sibling_subtree() {
    let mut tree = configured();
    let mut node = std::mem::replace(&mut tree.tree[2], PanelNode::Empty);
    node.extract_tab(0);
    node.extract_tab(0);
    tree.tree[2] = node;
    tree.clean_containers();
    assert_eq!(tree.len(), 17);
    assert_eq!(
        occupied(&tree),
        pairs(&[
            (0, "H"),
            (1, "V"),
            (2, "V"),
            (3, "C[Hierarchy]"),
            (4, "C[Entities]"),
            (5, "C[Viewport]"),
            (6, "C[Asset server,General logs]"),
        ])
    );
}

#[test]
fn clean_removes_every_empty_container() {
    let mut tree = configured();
    for index in [7usize, 8] {
        let mut node = std::mem::replace(&mut tree.tree[index], PanelNode::Empty);
        node.extract_tab(0);
        tree.tree[index] = node;
    }
    tree.clean_containers();
    assert_eq!(
        occupied(&tree),
        pairs(&[
            (0, "H"),
            (1, "V"),
            (2, "C[Properties,Scenes]"),
            (3, "C[Viewport]"),
            (4, "C[Asset server,General logs]"),
        ])
    );
}

#[test]
fn clean_removes_nested_empty_containers() {
    let empty = || PanelNode::Container { rect: None, tabs: Vec::new(), active_tab: 0 };
    let mut tree = Tree { tree: Vec::new() };
    tree.tree.push(PanelNode::HLayout { rect: None, fraction: HFraction::Left(0.5) });
    tree.tree.push(empty());
    tree.tree.push(PanelNode::VLayout { rect: None, fraction: VFraction::Top(0.5) });
    tree.tree.push(PanelNode::Empty);
    tree.tree.push(PanelNode::Empty);
    tree.tree.push(empty());
    tree.tree.push(PanelNode::Empty);
    tree.insert_tab(6, "Only", "only");
    tree.clean_containers();
    assert_eq!(occupied(&tree), pairs(&[(0, "C[Only]")]));
}

#[test]
fn clean_keeps_an_empty_root() {
    let empty = || PanelNode::Container { rect: None, tabs: Vec::new(), active_tab: 0 };
    let mut tree = Tree { tree: Vec::new() };
    tree.tree.push(PanelNode::HLayout { rect: None, fraction: HFraction::Left(0.5) });
    tree.tree.push(empty());
    tree.tree.push(empty());
    tree.clean_containers();
    assert_eq!(occupied(&tree), pairs(&[(0, "C[]")]));
}

#[test]
fn drop_tab_into_a_tab_bar() {
    let mut tree = configured();
    tree.drop_tab(2, 0, 9, None, 0.5);
    assert_eq!(describe(&tree.tree[2]), "C[Scenes]");
    assert_eq!(describe(&tree.tree[9]), "C[Viewport,Properties]");
    assert_eq!(tree.len(), 17);
}

#[test]
fn drop_last_tab_beside_another_panel() {
    let mut tree = configured();
    tree.drop_tab(2, 0, 9, None, 0.5);
    tree.drop_tab(2, 0, 8, Some(SplitDir::Left), 0.5);
    assert_eq!(tree.len(), 33);
    assert_eq!(
        occupied(&tree),
        pairs(&[
            (0, "H"),
            (1, "V"),
            (2, "V"),
            (3, "C[Hierarchy]"),
            (4, "H"),
            (5, "C[Viewport,Properties]"),
            (6, "C[Asset server,General logs]"),
            (9, "C[Scenes]"),
            (10, "C[Entities]"),
        ])
    );
    match &tree.tree[4] {
        PanelNode::HLayout { fraction, .. } => {
            assert!(matches!(fraction, HFraction::Right(f) if *f == 0.5))
        }
        _ => panic!("expected a horizontal layout"),
    }
}

#[test]
fn drop_tab_on_each_side() {
    for (dir, expected) in [
        (SplitDir::Right, vec![(8usize, "H"), (17, "C[Entities]"), (18, "C[Hierarchy]")]),
        (SplitDir::Top, vec![(8, "V"), (17, "C[Hierarchy]"), (18, "C[Entities]")]),
        (SplitDir::Bottom, vec![(8, "V"), (17, "C[Entities]"), (18, "C[Hierarchy]")]),
    ] {
        let mut tree = configured();
        tree.insert_tab(7, "Second", "second");
        tree.drop_tab(7, 0, 8, Some(dir), 0.5);
        assert_eq!(describe(&tree.tree[7]), "C[Second]");
        for (index, node) in expected {
            assert_eq!(describe(&tree.tree[index]), node);
        }
    }
}

#[test]
fn drop_tab_is_ignored_when_it_cannot_happen() {
    let mut tree = configured();
    let before = occupied(&tree);
    tree.drop_tab(2, 0, 1, Some(SplitDir::Left), 0.5);
    assert_eq!(occupied(&tree), before);
    tree.drop_tab(2, 7, 9, None, 0.5);
    assert_eq!(occupied(&tree), before);
    tree.drop_tab(1, 0, 9, None, 0.5);
    assert_eq!(occupied(&tree), before);
}

#[test]
fn sections_of_a_hovered_panel() {
    assert!(split_dir_of_section(0).is_none());
    assert!(matches!(split_dir_of_section(1), Some(SplitDir::Left)));
    assert!(matches!(split_dir_of_section(2), Some(SplitDir::Right)));
    assert!(matches!(split_dir_of_section(3), Some(SplitDir::Top)));
    assert!(matches!(split_dir_of_section(4), Some(SplitDir::Bottom)));
    let shared: SharedData<(i32, i32), (i32, i32)> = SharedData::default();
    assert!(shared.drag.is_none());
    assert!(shared.hover.is_none());
}

fn tab_views(tree: &Tree) -> Vec<(String, String)> {
    let mut views: Vec<(String, String)> = Vec::new();
    for node in tree.tree.iter() {
        if let PanelNode::Container { tabs, .. } = node {
            for tab in tabs {
                views.push((tab.title.clone(), tab.identification.clone()));
            }
        }
    }
    views.sort();
    views
}

fn parents_are_layouts(tree: &Tree) -> bool {
    (1..tree.tree.len()).all(|x| {
        matches!(tree.tree[x], PanelNode::Empty)
            || matches!(tree.tree[(x - 1) / 2], PanelNode::HLayout { .. } | PanelNode::VLayout { .. })
    })
}

#[test]
fn drops_keep_every_tab_and_the_tree_shape() {
    let mut tree = configured();
    let views = tab_views(&tree);
    assert_eq!(views.len(), 7);
    assert!(parents_are_layouts(&tree));
    for step in 0..15usize {
        let containers: Vec<usize> = (0..tree.len())
            .filter(|i| matches!(&tree.tree[*i], PanelNode::Container { tabs, .. } if !tabs.is_empty()))
            .collect();
        let src = containers[step % containers.len()];
        let dst = containers[(3 * step + 1) % containers.len()];
        let target = match step % 5 {
            0 => None,
            1 => Some(SplitDir::Left),
            2 => Some(SplitDir::Right),
            3 => Some(SplitDir::Top),
            _ => Some(SplitDir::Bottom),
        };
        tree.drop_tab(src, 0, dst, target, 0.5);
        assert_eq!(tab_views(&tree), views, "step {}", step);
        assert!(parents_are_layouts(&tree), "step {}", step);
        assert!(!tree.tree.iter().any(|n| matches!(n, PanelNode::Container { tabs, .. } if tabs.is_empty())));
    }
}

#[test]
fn clean_moves_the_sibling_subtree_up() {
    let mut tree = configured();
    // Empty the hierarchy container: its sibling (entities) takes the place
    // of their parent layout.
    match &mut tree.tree[7] {
        PanelNode::Container { tabs, .. } => tabs.clear(),
        _ => panic!("expected a container"),
    }
    let mut expected = tab_views(&tree);
    expected.sort();
    tree.clean_containers();
    assert_eq!(describe(&tree.tree[3]), "C[Entities]");
    assert!(matches!(tree.tree[7], PanelNode::Empty));
    assert!(matches!(tree.tree[8], PanelNode::Empty));
    assert_eq!(tab_views(&tree), expected);
    assert!(parents_are_layouts(&tree));
}
