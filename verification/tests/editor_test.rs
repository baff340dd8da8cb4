use starpressure::editor::{sort_selections, try_sort_selections, SelectionLinks};

fn link(entity: u64, children: Vec<u64>, has_parents: bool) -> SelectionLinks {
    SelectionLinks { entity, children, has_parents }
}

#[test]
fn selections_follow_their_joints() {
    let sel = vec![link(10, vec![20, 30], false), link(20, vec![30], true), link(30, vec![], true)];
    assert_eq!(sort_selections(&sel), vec![Some(0), Some(1), Some(2)]);
}

#[test]
fn the_parentless_selection_comes_first() {
    let sel = vec![link(20, vec![10], true), link(10, vec![], false)];
    assert_eq!(sort_selections(&sel), vec![Some(1), None]);
}

#[test]
fn deeper_joints_come_in_later_passes() {
    let sel = vec![
        link(4, vec![], true),
        link(1, vec![2, 3], false),
        link(3, vec![4], true),
        link(2, vec![], true),
    ];
    // 1 first, then 2 and 3 reached from it, then 4 reached from 3
    assert_eq!(sort_selections(&sel), vec![Some(1), Some(3), Some(2), Some(0)]);
}

#[test]
fn file_button_toggles() {
    let mut b = starpressure::editor::FileButton { is_opened: false };
    assert!(b.press());
    assert!(b.is_opened);
    assert!(!b.press());
    assert!(!b.is_opened);
}

#[test]
fn no_order_without_a_parentless_selection() {
    let sel = vec![link(1, vec![2], true), link(2, vec![], true)];
    assert_eq!(try_sort_selections(&sel), None);
}

#[test]
fn no_order_when_a_joint_leads_nowhere() {
    let sel = vec![link(1, vec![7], false), link(2, vec![], true)];
    assert_eq!(try_sort_selections(&sel), None);
}

#[test]
fn try_sort_agrees_with_sort() {
    let sel = vec![link(10, vec![20, 30], false), link(20, vec![30], true), link(30, vec![], true)];
    assert_eq!(try_sort_selections(&sel), Some(vec![Some(0), Some(1), Some(2)]));
}
