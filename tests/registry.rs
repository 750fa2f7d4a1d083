use xilem_tiles::registry::{PanelState, State, ROOT};
use xilem_tiles::Axis;

fn rooted() -> State {
    let mut s = State::new();
    s.ensure_root();
    s
}

#[test]
fn new_registry_is_empty() {
    let s = State::default();
    assert!(s.is_empty());
    assert_eq!(s.next_id(), 0);
    assert_eq!(s.get(ROOT), None);
}

#[test]
fn ensure_root_puts_one_leaf() {
    let mut s = State::new();
    s.ensure_root();
    assert_eq!(s.get(ROOT), Some(PanelState::Hello));
    assert_eq!(s.next_id(), 1);
    s.ensure_root();
    assert_eq!(s.get(ROOT), Some(PanelState::Hello));
    assert_eq!(s.next_id(), 1);
}

#[test]
fn split_reuses_id_and_allocates_two() {
    let mut s = rooted();
    s.split(ROOT, Axis::Horizontal);
    assert_eq!(
        s.get(ROOT),
        Some(PanelState::Split { lhs: 1, rhs: 2, axis: Axis::Horizontal })
    );
    assert_eq!(s.get(1), Some(PanelState::Hello));
    assert_eq!(s.get(2), Some(PanelState::Hello));
    assert_eq!(s.next_id(), 3);
}

#[test]
fn split_of_split_or_missing_is_noop() {
    let mut s = rooted();
    s.split(ROOT, Axis::Vertical);
    s.split(ROOT, Axis::Horizontal);
    s.split(42, Axis::Horizontal);
    assert_eq!(
        s.get(ROOT),
        Some(PanelState::Split { lhs: 1, rhs: 2, axis: Axis::Vertical })
    );
    assert_eq!(s.get(42), None);
    assert_eq!(s.next_id(), 3);
}

#[test]
fn split_then_close_new_sibling_restores() {
    for axis in [Axis::Horizontal, Axis::Vertical] {
        let mut s = rooted();
        s.split(ROOT, axis);
        s.close(Some(ROOT), 2);
        assert_eq!(s.get(ROOT), Some(PanelState::Hello));
        assert_eq!(s.get(1), None);
        assert_eq!(s.get(2), None);
        assert_eq!(s.next_id(), 3);
    }
}

#[test]
fn close_promotes_sibling_subtree() {
    let mut s = rooted();
    s.split(ROOT, Axis::Horizontal);
    s.split(2, Axis::Vertical);
    assert_eq!(
        s.get(2),
        Some(PanelState::Split { lhs: 3, rhs: 4, axis: Axis::Vertical })
    );
    s.close(Some(ROOT), 1);
    assert_eq!(
        s.get(ROOT),
        Some(PanelState::Split { lhs: 3, rhs: 4, axis: Axis::Vertical })
    );
    assert_eq!(s.get(1), None);
    assert_eq!(s.get(2), None);
    assert_eq!(s.get(3), Some(PanelState::Hello));
    assert_eq!(s.get(4), Some(PanelState::Hello));
}

#[test]
fn closing_root_leaf_empties_and_ids_stay_retired() {
    let mut s = rooted();
    s.split(ROOT, Axis::Horizontal);
    s.close(Some(ROOT), 1);
    s.close(None, ROOT);
    assert!(s.is_empty());
    s.ensure_root();
    assert_eq!(s.get(ROOT), Some(PanelState::Hello));
    assert_eq!(s.next_id(), 3);
    s.split(ROOT, Axis::Vertical);
    assert_eq!(
        s.get(ROOT),
        Some(PanelState::Split { lhs: 3, rhs: 4, axis: Axis::Vertical })
    );
}

#[test]
fn close_with_wrong_parent_changes_nothing() {
    let mut s = rooted();
    s.split(ROOT, Axis::Horizontal);
    s.split(1, Axis::Vertical);
    // 1 is a split of 3 and 4; 2 is not one of its children.
    s.close(Some(1), 2);
    s.close(Some(2), 3);
    s.close(Some(ROOT), 9);
    assert_eq!(
        s.get(ROOT),
        Some(PanelState::Split { lhs: 1, rhs: 2, axis: Axis::Horizontal })
    );
    assert_eq!(
        s.get(1),
        Some(PanelState::Split { lhs: 3, rhs: 4, axis: Axis::Vertical })
    );
    assert_eq!(s.get(2), Some(PanelState::Hello));
}

#[test]
fn close_of_split_target_changes_nothing() {
    let mut s = rooted();
    s.split(ROOT, Axis::Horizontal);
    s.split(1, Axis::Vertical);
    s.close(Some(ROOT), 1);
    s.close(None, ROOT);
    assert_eq!(
        s.get(ROOT),
        Some(PanelState::Split { lhs: 1, rhs: 2, axis: Axis::Horizontal })
    );
    assert_eq!(s.get(3), Some(PanelState::Hello));
}

#[test]
fn root_id_survives_splits_and_closes() {
    let mut s = rooted();
    s.split(ROOT, Axis::Horizontal);
    s.split(1, Axis::Vertical);
    s.split(4, Axis::Horizontal);
    s.close(Some(4), 6);
    s.close(Some(1), 3);
    s.close(Some(ROOT), 2);
    assert_eq!(s.get(ROOT), Some(PanelState::Hello));
    assert_eq!(s.next_id(), 7);
    for id in 1..7 {
        assert_eq!(s.get(id), None);
    }
}
