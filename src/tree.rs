//! An owned recursive panel tree: each split owns its two subtrees outright.
//!
//! Nodes are addressed structurally, by the path of left/right choices from the
//! root. Closing is a two-step affair: a leaf is first marked for removal, and
//! then one bottom-up pass over the whole tree drops every marked leaf and
//! collapses each split that lost a child.
use vstd::prelude::*;
use crate::Axis;

verus! {

/// One step of a path from the root: into the first or the second child.
#[derive(Clone, Copy, Debug, PartialEq, Eq, Structural)]
pub enum Side {
    Lhs,
    Rhs,
}

/// A node of the panel tree.
#[derive(Debug, PartialEq, Eq)]
pub enum Node {
    /// An inner node that divides its region along `axis`.
    Split { axis: Axis, lhs: Box<Node>, rhs: Box<Node> },
    /// A content panel with its display identifier and its close request.
    Leaf { id: usize, close: bool },
}

/// The subtree found by following `path` from `n`, if the path exists.
pub open spec fn subtree(n: Node, path: Seq<Side>) -> Option<Node>
    decreases path.len(),
{
    if path.len() == 0 {
        Some(n)
    } else {
        match n {
            Node::Split { lhs, rhs, .. } => if path[0] == Side::Lhs {
                subtree(*lhs, path.drop_first())
            } else {
                subtree(*rhs, path.drop_first())
            },
            Node::Leaf { .. } => None,
        }
    }
}

/// `path` leads from `n` to a leaf.
pub open spec fn is_leaf_at(n: Node, path: Seq<Side>) -> bool {
    match subtree(n, path) {
        Some(Node::Leaf { .. }) => true,
        _ => false,
    }
}

/// The tree after splitting the leaf at `path` along `axis`: the leaf moves into
/// the first child of a new split whose second child is a fresh leaf `new_id`.
/// Where `path` does not lead to a leaf, the tree is unchanged.
pub open spec fn split_spec(n: Node, path: Seq<Side>, axis: Axis, new_id: usize) -> Node
    decreases path.len(),
{
    if path.len() == 0 {
        match n {
            Node::Leaf { .. } => Node::Split {
                axis,
                lhs: Box::new(n),
                rhs: Box::new(Node::Leaf { id: new_id, close: false }),
            },
            Node::Split { .. } => n,
        }
    } else {
        match n {
            Node::Split { axis: a, lhs, rhs } => if path[0] == Side::Lhs {
                Node::Split {
                    axis: a,
                    lhs: Box::new(split_spec(*lhs, path.drop_first(), axis, new_id)),
                    rhs,
                }
            } else {
                Node::Split {
                    axis: a,
                    lhs,
                    rhs: Box::new(split_spec(*rhs, path.drop_first(), axis, new_id)),
                }
            },
            Node::Leaf { .. } => n,
        }
    }
}

/// The tree with the close request of the leaf at `path` set. Where `path` does
/// not lead to a leaf, the tree is unchanged.
pub open spec fn mark_spec(n: Node, path: Seq<Side>) -> Node
    decreases path.len(),
{
    if path.len() == 0 {
        match n {
            Node::Leaf { id, .. } => Node::Leaf { id, close: true },
            Node::Split { .. } => n,
        }
    } else {
        match n {
            Node::Split { axis, lhs, rhs } => if path[0] == Side::Lhs {
                Node::Split { axis, lhs: Box::new(mark_spec(*lhs, path.drop_first())), rhs }
            } else {
                Node::Split { axis, lhs, rhs: Box::new(mark_spec(*rhs, path.drop_first())) }
            },
            Node::Leaf { .. } => n,
        }
    }
}

/// A split whose children resolved to `l` and `r`: it survives when both do,
/// gives way to the one that survives, and is gone when neither does.
pub open spec fn join(axis: Axis, l: Option<Node>, r: Option<Node>) -> Option<Node> {
    match (l, r) {
        (Some(a), Some(b)) => Some(Node::Split { axis, lhs: Box::new(a), rhs: Box::new(b) }),
        (Some(a), None) => Some(a),
        (None, Some(b)) => Some(b),
        (None, None) => None,
    }
}

/// What is left of `n` once every marked leaf is dropped and every split that
/// lost a child is collapsed.
pub open spec fn collapsed(n: Node) -> Option<Node>
    decreases n,
{
    match n {
        Node::Leaf { close, .. } => if close {
            None
        } else {
            Some(n)
        },
        Node::Split { axis, lhs, rhs } => join(axis, collapsed(*lhs), collapsed(*rhs)),
    }
}

/// Number of leaves of `n`.
pub open spec fn leaf_count(n: Node) -> nat
    decreases n,
{
    match n {
        Node::Leaf { .. } => 1,
        Node::Split { lhs, rhs, .. } => leaf_count(*lhs) + leaf_count(*rhs),
    }
}

/// Number of leaves of `n` without a close request.
pub open spec fn open_count(n: Node) -> nat
    decreases n,
{
    match n {
        Node::Leaf { close, .. } => if close {
            0
        } else {
            1
        },
        Node::Split { lhs, rhs, .. } => open_count(*lhs) + open_count(*rhs),
    }
}

/// Number of leaves of `n` whose display identifier is `c`.
pub open spec fn count_id(n: Node, c: usize) -> nat
    decreases n,
{
    match n {
        Node::Leaf { id, .. } => if id == c {
            1
        } else {
            0
        },
        Node::Split { lhs, rhs, .. } => count_id(*lhs, c) + count_id(*rhs, c),
    }
}

/// A tree whose leaves carry no close request comes through a collapse pass
/// unchanged.
pub proof fn lemma_collapse_open_tree(n: Node)
    requires
        open_count(n) == leaf_count(n),
    ensures
        collapsed(n) == Some(n),
    decreases n,
{
    lemma_open_le_leaves(n);
    if let Node::Split { axis, lhs, rhs } = n {
        lemma_open_le_leaves(*lhs);
        lemma_open_le_leaves(*rhs);
        lemma_collapse_open_tree(*lhs);
        lemma_collapse_open_tree(*rhs);
    }
}

/// A tree has at least one leaf, and no more open leaves than leaves.
pub proof fn lemma_open_le_leaves(n: Node)
    ensures
        open_count(n) <= leaf_count(n),
        leaf_count(n) >= 1,
    decreases n,
{
    if let Node::Split { lhs, rhs, .. } = n {
        lemma_open_le_leaves(*lhs);
        lemma_open_le_leaves(*rhs);
    }
}

/// The collapse pass keeps exactly the leaves without a close request: it
/// yields nothing when every leaf is marked, and otherwise a tree whose leaves
/// are the open ones, none of them marked.
pub proof fn lemma_collapse_keeps_open_leaves(n: Node)
    ensures
        collapsed(n) is None <==> open_count(n) == 0,
        collapsed(n) matches Some(r) ==> leaf_count(r) == open_count(n) && open_count(r)
            == leaf_count(r),
    decreases n,
{
    if let Node::Split { axis, lhs, rhs } = n {
        lemma_collapse_keeps_open_leaves(*lhs);
        lemma_collapse_keeps_open_leaves(*rhs);
    }
}

/// Marking the leaf at `path` of a tree without close requests, then running
/// the collapse pass, removes exactly that one leaf and leaves no split with a
/// missing child: the tree becomes empty when that leaf was the last, and
/// otherwise has one leaf fewer, none of them marked. Closing leaves one by
/// one, in any order, thus ends with an empty tree after as many closes as
/// there were leaves.
pub proof fn lemma_close_removes_one_leaf(n: Node, path: Seq<Side>)
    requires
        open_count(n) == leaf_count(n),
        is_leaf_at(n, path),
    ensures
        collapsed(mark_spec(n, path)) is None <==> leaf_count(n) == 1,
        collapsed(mark_spec(n, path)) matches Some(r) ==> leaf_count(r) + 1 == leaf_count(n)
            && open_count(r) == leaf_count(r),
{
    lemma_mark_closes_one(n, path);
    lemma_collapse_keeps_open_leaves(mark_spec(n, path));
}

proof fn lemma_mark_closes_one(n: Node, path: Seq<Side>)
    requires
        open_count(n) == leaf_count(n),
        is_leaf_at(n, path),
    ensures
        leaf_count(mark_spec(n, path)) == leaf_count(n),
        open_count(mark_spec(n, path)) + 1 == leaf_count(n),
    decreases path.len(),
{
    lemma_open_le_leaves(n);
    if path.len() > 0 {
        if let Node::Split { lhs, rhs, .. } = n {
            lemma_open_le_leaves(*lhs);
            lemma_open_le_leaves(*rhs);
            if path[0] == Side::Lhs {
                lemma_mark_closes_one(*lhs, path.drop_first());
            } else {
                lemma_mark_closes_one(*rhs, path.drop_first());
            }
        }
    }
}

/// Splitting the leaf at `path` keeps its content: the leaf now sits one level
/// deeper, as the first child of the new split, the second child is the fresh
/// leaf, and every identifier occurs as often as before, but for the fresh one,
/// which occurs once more.
pub proof fn lemma_split_keeps_content(n: Node, path: Seq<Side>, axis: Axis, new_id: usize, c: usize)
    requires
        is_leaf_at(n, path),
    ensures
        subtree(split_spec(n, path, axis, new_id), path.push(Side::Lhs)) == subtree(n, path),
        subtree(split_spec(n, path, axis, new_id), path.push(Side::Rhs)) == Some(
            Node::Leaf { id: new_id, close: false },
        ),
        count_id(split_spec(n, path, axis, new_id), c) == count_id(n, c) + if c == new_id {
            1nat
        } else {
            0nat
        },
        leaf_count(split_spec(n, path, axis, new_id)) == leaf_count(n) + 1,
        open_count(split_spec(n, path, axis, new_id)) == open_count(n) + 1,
    decreases path.len(),
{
    let pl = path.push(Side::Lhs);
    let pr = path.push(Side::Rhs);
    let m = split_spec(n, path, axis, new_id);
    assert(pl[0] == (if path.len() == 0 { Side::Lhs } else { path[0] }));
    assert(pr[0] == (if path.len() == 0 { Side::Rhs } else { path[0] }));
    if path.len() == 0 {
        assert(pl.drop_first().len() == 0);
        assert(pr.drop_first().len() == 0);
        assert(subtree(m, pl) == subtree(n, pl.drop_first()));
        assert(subtree(m, pr) == subtree(Node::Leaf { id: new_id, close: false }, pr.drop_first()));
        assert(count_id(m, c) == count_id(n, c) + count_id(
            Node::Leaf { id: new_id, close: false },
            c,
        ));
        assert(leaf_count(m) == leaf_count(n) + leaf_count(Node::Leaf { id: new_id, close: false }));
        assert(open_count(m) == open_count(n) + open_count(Node::Leaf { id: new_id, close: false }));
    } else {
        assert(pl.drop_first() =~= path.drop_first().push(Side::Lhs));
        assert(pr.drop_first() =~= path.drop_first().push(Side::Rhs));
        if let Node::Split { lhs, rhs, .. } = n {
            if path[0] == Side::Lhs {
                lemma_split_keeps_content(*lhs, path.drop_first(), axis, new_id, c);
            } else {
                lemma_split_keeps_content(*rhs, path.drop_first(), axis, new_id, c);
            }
        }
    }
}

/// Splitting a leaf of a tree without close requests and then closing the new
/// sibling gives back the tree as it was, for either axis.
pub proof fn lemma_split_then_close(n: Node, path: Seq<Side>, axis: Axis, new_id: usize)
    requires
        open_count(n) == leaf_count(n),
        is_leaf_at(n, path),
    ensures
        collapsed(mark_spec(split_spec(n, path, axis, new_id), path.push(Side::Rhs))) == Some(n),
    decreases path.len(),
{
    let pr = path.push(Side::Rhs);
    lemma_open_le_leaves(n);
    assert(pr[0] == (if path.len() == 0 { Side::Rhs } else { path[0] }));
    if path.len() == 0 {
        assert(pr.drop_first().len() == 0);
        let m = split_spec(n, path, axis, new_id);
        assert(mark_spec(m, pr) == Node::Split {
            axis,
            lhs: Box::new(n),
            rhs: Box::new(mark_spec(Node::Leaf { id: new_id, close: false }, pr.drop_first())),
        });
        assert(mark_spec(Node::Leaf { id: new_id, close: false }, pr.drop_first()) == Node::Leaf {
            id: new_id,
            close: true,
        });
        assert(collapsed(n) == Some(n));
        assert(collapsed(mark_spec(m, pr)) == join(
            axis,
            collapsed(n),
            collapsed(Node::Leaf { id: new_id, close: true }),
        ));
    } else {
        assert(pr.drop_first() =~= path.drop_first().push(Side::Rhs));
        if let Node::Split { axis: a, lhs, rhs } = n {
            lemma_open_le_leaves(*lhs);
            lemma_open_le_leaves(*rhs);
            let rest = path.drop_first();
            if path[0] == Side::Lhs {
                lemma_split_then_close(*lhs, rest, axis, new_id);
                lemma_collapse_open_tree(*rhs);
                let l2 = mark_spec(split_spec(*lhs, rest, axis, new_id), rest.push(Side::Rhs));
                assert(collapsed(l2) == Some(*lhs));
                assert(mark_spec(split_spec(n, path, axis, new_id), pr) == Node::Split {
                    axis: a,
                    lhs: Box::new(l2),
                    rhs,
                });
                assert(Box::new(*lhs) == lhs);
                assert(Box::new(*rhs) == rhs);
            } else {
                lemma_split_then_close(*rhs, rest, axis, new_id);
                lemma_collapse_open_tree(*lhs);
                let r2 = mark_spec(split_spec(*rhs, rest, axis, new_id), rest.push(Side::Rhs));
                assert(collapsed(r2) == Some(*rhs));
                assert(mark_spec(split_spec(n, path, axis, new_id), pr) == Node::Split {
                    axis: a,
                    lhs,
                    rhs: Box::new(r2),
                });
                assert(Box::new(*lhs) == lhs);
                assert(Box::new(*rhs) == rhs);
            }
        }
    }
}

impl Node {
    /// Splits the leaf at `path[i..]` below this node.
    fn split_from(self, path: &Vec<Side>, i: usize, axis: Axis, new_id: usize) -> (r: Node)
        requires
            i <= path.len(),
        ensures
            r == split_spec(self, path@.subrange(i as int, path@.len() as int), axis, new_id),
        decreases path.len() - i,
    {
        let ghost rest = path@.subrange(i as int, path@.len() as int);
        if i == path.len() {
            match self {
                Node::Leaf { id, close } => Node::Split {
                    axis,
                    lhs: Box::new(Node::Leaf { id, close }),
                    rhs: Box::new(Node::Leaf { id: new_id, close: false }),
                },
                other => other,
            }
        } else {
            proof {
                assert(rest.drop_first() =~= path@.subrange(i + 1, path@.len() as int));
            }
            match self {
                Node::Split { axis: a, lhs, rhs } => {
                    if path[i] == Side::Lhs {
                        let l = (*lhs).split_from(path, i + 1, axis, new_id);
                        Node::Split { axis: a, lhs: Box::new(l), rhs }
                    } else {
                        let r = (*rhs).split_from(path, i + 1, axis, new_id);
                        Node::Split { axis: a, lhs, rhs: Box::new(r) }
                    }
                },
                other => other,
            }
        }
    }

    /// Splits the leaf at `path` along `axis`. The leaf keeps its place in the
    /// tree one level deeper, as the first child of the new split; the second
    /// child is a fresh leaf `new_id`. Where `path` leads to no leaf, the tree
    /// is returned unchanged.
    pub fn split_at(self, path: &Vec<Side>, axis: Axis, new_id: usize) -> (r: Node)
        ensures
            r == split_spec(self, path@, axis, new_id),
    {
        proof {
            assert(path@.subrange(0, path@.len() as int) =~= path@);
        }
        self.split_from(path, 0, axis, new_id)
    }

    /// Sets the close request of the leaf at `path[i..]` below this node.
    fn mark_from(self, path: &Vec<Side>, i: usize) -> (r: Node)
        requires
            i <= path.len(),
        ensures
            r == mark_spec(self, path@.subrange(i as int, path@.len() as int)),
        decreases path.len() - i,
    {
        let ghost rest = path@.subrange(i as int, path@.len() as int);
        if i == path.len() {
            match self {
                Node::Leaf { id, .. } => Node::Leaf { id, close: true },
                other => other,
            }
        } else {
            proof {
                assert(rest.drop_first() =~= path@.subrange(i + 1, path@.len() as int));
            }
            match self {
                Node::Split { axis, lhs, rhs } => {
                    if path[i] == Side::Lhs {
                        let l = (*lhs).mark_from(path, i + 1);
                        Node::Split { axis, lhs: Box::new(l), rhs }
                    } else {
                        let r = (*rhs).mark_from(path, i + 1);
                        Node::Split { axis, lhs, rhs: Box::new(r) }
                    }
                },
                other => other,
            }
        }
    }

    /// Marks the leaf at `path` for removal by the next collapse pass. Where
    /// `path` leads to no leaf, the tree is returned unchanged.
    pub fn request_close(self, path: &Vec<Side>) -> (r: Node)
        ensures
            r == mark_spec(self, path@),
    {
        proof {
            assert(path@.subrange(0, path@.len() as int) =~= path@);
        }
        self.mark_from(path, 0)
    }

    /// One bottom-up pass that drops every leaf marked for removal. A split
    /// whose children both survive stays; one with a single survivor is
    /// replaced by it; one with none is gone too.
    pub fn collapse(self) -> (r: Option<Node>)
        ensures
            r == collapsed(self),
        decreases self,
    {
        match self {
            Node::Leaf { id, close } => {
                if close {
                    None
                } else {
                    Some(Node::Leaf { id, close })
                }
            },
            Node::Split { axis, lhs, rhs } => {
                let l = (*lhs).collapse();
                let r = (*rhs).collapse();
                match (l, r) {
                    (Some(a), Some(b)) => Some(Node::Split { axis, lhs: Box::new(a), rhs: Box::new(b) }),
                    (Some(a), None) => Some(a),
                    (None, Some(b)) => Some(b),
                    (None, None) => None,
                }
            },
        }
    }
}

/// A panel tree together with the counter that hands out display identifiers.
#[derive(Debug)]
pub struct Layout {
    root: Option<Node>,
    next_id: usize,
}

impl Layout {
    /// The tree, or `None` once every panel has been closed.
    pub closed spec fn tree(&self) -> Option<Node> {
        self.root
    }

    /// The display identifier that the next split hands out.
    pub closed spec fn next(&self) -> usize {
        self.next_id
    }

    /// The starting layout: two leaves, `0` and `1`, side by side.
    pub fn new() -> (r: Layout)
        ensures
            r.tree() == Some(
                Node::Split {
                    axis: Axis::Horizontal,
                    lhs: Box::new(Node::Leaf { id: 0, close: false }),
                    rhs: Box::new(Node::Leaf { id: 1, close: false }),
                },
            ),
            r.next() == 2,
    {
        Layout {
            root: Some(
                Node::Split {
                    axis: Axis::Horizontal,
                    lhs: Box::new(Node::Leaf { id: 0, close: false }),
                    rhs: Box::new(Node::Leaf { id: 1, close: false }),
                },
            ),
            next_id: 2,
        }
    }

    /// A layout with the given tree, whose next split hands out `next_id`.
    pub fn from_root(root: Option<Node>, next_id: usize) -> (r: Layout)
        ensures
            r.tree() == root,
            r.next() == next_id,
    {
        Layout { root, next_id }
    }

    /// The tree, or `None` once every panel has been closed.
    pub fn root(&self) -> (r: &Option<Node>)
        ensures
            *r == self.tree(),
    {
        &self.root
    }

    /// The display identifier that the next split hands out.
    pub fn next_id(&self) -> (r: usize)
        ensures
            r == self.next(),
    {
        self.next_id
    }

    /// Splits the leaf at `path` along `axis`; the new leaf takes the next
    /// display identifier. An empty layout, or one whose counter has run out,
    /// is left as it is; a path that leads to no leaf leaves the tree as it is.
    pub fn split(&mut self, path: &Vec<Side>, axis: Axis)
        ensures
            old(self).tree() is Some && old(self).next() < usize::MAX ==> {
                &&& final(self).tree() == Some(
                    split_spec(old(self).tree().unwrap(), path@, axis, old(self).next()),
                )
                &&& final(self).next() == old(self).next() + 1
            },
            !(old(self).tree() is Some && old(self).next() < usize::MAX) ==> final(self).tree()
                == old(self).tree() && final(self).next() == old(self).next(),
    {
        if self.next_id == usize::MAX {
            return;
        }
        match self.root.take() {
            Some(n) => {
                self.root = Some(n.split_at(path, axis, self.next_id));
                self.next_id = self.next_id + 1;
            },
            None => {},
        }
    }

    /// Closes the leaf at `path`: marks it for removal and runs the collapse
    /// pass over the whole tree. Closing the last leaf empties the layout.
    pub fn close(&mut self, path: &Vec<Side>)
        ensures
            final(self).tree() == match old(self).tree() {
                Some(n) => collapsed(mark_spec(n, path@)),
                None => None,
            },
            final(self).next() == old(self).next(),
    {
        match self.root.take() {
            Some(n) => {
                self.root = n.request_close(path).collapse();
            },
            None => {},
        }
    }
}

} // verus!
