use engine::hierarchy::hierarchy_click;

#[test]
fn row_click_selects_only_that_entity() {
    let (selected, expanded, drawn) = hierarchy_click(&vec![1, 2], &vec![], 3, true, false);
    assert_eq!(selected, vec![3]);
    assert!(expanded.is_empty());
    assert!(!drawn);
}

#[test]
fn row_click_on_a_selected_entity_unselects_it() {
    let (selected, _, _) = hierarchy_click(&vec![1, 3, 2], &vec![], 3, true, false);
    assert_eq!(selected, vec![1, 2]);
}

#[test]
fn chevron_click_toggles_expansion() {
    let (selected, expanded, drawn) = hierarchy_click(&vec![5], &vec![4], 7, false, true);
    assert_eq!(selected, vec![5]);
    assert_eq!(expanded, vec![4, 7]);
    assert!(drawn);
    let (_, expanded, drawn) = hierarchy_click(&vec![5], &expanded, 7, false, true);
    assert_eq!(expanded, vec![4]);
    assert!(!drawn);
}

#[test]
fn no_click_changes_nothing() {
    let (selected, expanded, drawn) = hierarchy_click(&vec![2], &vec![2], 2, false, false);
    assert_eq!(selected, vec![2]);
    assert_eq!(expanded, vec![2]);
    assert!(drawn);
}
