use xilem_tiles::tree::{Layout, Node, Side};
use xilem_tiles::Axis;

fn leaf(id: usize) -> Node {
    Node::Leaf { id, close: false }
}

fn split(axis: Axis, lhs: Node, rhs: Node) -> Node {
    Node::Split { axis, lhs: Box::new(lhs), rhs: Box::new(rhs) }
}

#[test]
fn collapse_scenario() {
    let a = 10;
    let b = 11;
    let mut layout = Layout::from_root(Some(split(Axis::Horizontal, leaf(a), leaf(b))), 12);
    layout.close(&vec![Side::Rhs]);
    assert_eq!(layout.root(), &Some(leaf(a)));
    layout.split(&vec![], Axis::Vertical);
    assert_eq!(layout.root(), &Some(split(Axis::Vertical, leaf(a), leaf(12))));
    layout.close(&vec![Side::Lhs]);
    assert_eq!(layout.root(), &Some(leaf(12)));
    layout.close(&vec![]);
    assert_eq!(layout.root(), &None);
}

#[test]
fn new_layout_has_two_leaves() {
    let layout = Layout::new();
    assert_eq!(layout.root(), &Some(split(Axis::Horizontal, leaf(0), leaf(1))));
    assert_eq!(layout.next_id(), 2);
}

#[test]
fn split_keeps_leaf_one_level_deeper() {
    let tree = split(Axis::Horizontal, leaf(0), split(Axis::Vertical, leaf(1), leaf(2)));
    let tree = tree.split_at(&vec![Side::Rhs, Side::Lhs], Axis::Horizontal, 7);
    assert_eq!(
        tree,
        split(
            Axis::Horizontal,
            leaf(0),
            split(Axis::Vertical, split(Axis::Horizontal, leaf(1), leaf(7)), leaf(2))
        )
    );
}

#[test]
fn split_at_bad_path_is_noop() {
    let tree = split(Axis::Horizontal, leaf(0), leaf(1));
    let same = split(Axis::Horizontal, leaf(0), leaf(1));
    let tree = tree.split_at(&vec![], Axis::Vertical, 5);
    assert_eq!(tree, same);
    let tree = tree.split_at(&vec![Side::Lhs, Side::Lhs], Axis::Vertical, 5);
    assert_eq!(tree, same);
    let tree = tree.request_close(&vec![Side::Rhs, Side::Rhs]);
    assert_eq!(tree, same);
}

#[test]
fn split_then_close_new_sibling_gives_back_tree() {
    for axis in [Axis::Horizontal, Axis::Vertical] {
        let tree = split(Axis::Vertical, split(Axis::Horizontal, leaf(0), leaf(1)), leaf(2));
        let before = split(Axis::Vertical, split(Axis::Horizontal, leaf(0), leaf(1)), leaf(2));
        let path = vec![Side::Lhs, Side::Rhs];
        let tree = tree.split_at(&path, axis, 3);
        let tree = tree.request_close(&vec![Side::Lhs, Side::Rhs, Side::Rhs]);
        assert_eq!(tree.collapse(), Some(before));
    }
}

#[test]
fn collapse_promotes_through_several_levels() {
    let tree = split(
        Axis::Horizontal,
        leaf(0),
        split(
            Axis::Vertical,
            Node::Leaf { id: 1, close: true },
            split(Axis::Horizontal, Node::Leaf { id: 2, close: true }, leaf(3)),
        ),
    );
    assert_eq!(tree.collapse(), Some(split(Axis::Horizontal, leaf(0), leaf(3))));
}

#[test]
fn collapse_of_all_marked_is_empty() {
    let tree = split(
        Axis::Horizontal,
        Node::Leaf { id: 0, close: true },
        split(Axis::Vertical, Node::Leaf { id: 1, close: true }, Node::Leaf { id: 2, close: true }),
    );
    assert_eq!(tree.collapse(), None);
}

#[test]
fn closing_all_leaves_in_any_order_empties() {
    let mut layout = Layout::new();
    layout.split(&vec![Side::Rhs], Axis::Vertical);
    layout.split(&vec![Side::Lhs], Axis::Horizontal);
    // Leaves now: 0, 3 on the left; 1, 2 on the right.
    layout.close(&vec![Side::Rhs, Side::Lhs]);
    assert_eq!(
        layout.root(),
        &Some(split(Axis::Horizontal, split(Axis::Horizontal, leaf(0), leaf(3)), leaf(2)))
    );
    layout.close(&vec![Side::Lhs, Side::Lhs]);
    assert_eq!(layout.root(), &Some(split(Axis::Horizontal, leaf(3), leaf(2))));
    layout.close(&vec![Side::Rhs]);
    assert_eq!(layout.root(), &Some(leaf(3)));
    layout.close(&vec![]);
    assert_eq!(layout.root(), &None);
    layout.close(&vec![]);
    layout.split(&vec![], Axis::Vertical);
    assert_eq!(layout.root(), &None);
}
