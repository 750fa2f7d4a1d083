//! A flat registry of panels keyed by stable integer identifiers.
//!
//! A split reuses the identifier of the leaf it replaces for the new split
//! record and hands two fresh identifiers to its children, so the root keeps
//! its identifier for its whole life. Identifiers come from a counter that only
//! grows: one that has been retired is never handed out again.
use vstd::prelude::*;
use std::collections::HashMap;
use crate::Axis;

verus! {

/// Identifier of the root panel.
pub const ROOT: usize = 0;

/// What the registry holds for one identifier.
#[derive(Clone, Copy, Debug, PartialEq, Eq, Structural)]
pub enum PanelState {
    /// An inner node whose two children are the panels `lhs` and `rhs`.
    Split { lhs: usize, rhs: usize, axis: Axis },
    /// A content panel.
    Hello,
}

/// The panel registry together with its identifier allocator.
#[derive(Debug)]
pub struct State {
    panels: HashMap<usize, PanelState>,
    panel_id: usize,
}

/// `p` is a split of `m` that has `k` as one of its two children.
pub open spec fn is_parent(m: Map<usize, PanelState>, p: usize, k: usize) -> bool {
    &&& m.contains_key(p)
    &&& match m[p] {
        PanelState::Split { lhs, rhs, .. } => lhs == k || rhs == k,
        PanelState::Hello => false,
    }
}

/// `k` is a content panel of `m`.
pub open spec fn is_leaf(m: Map<usize, PanelState>, k: usize) -> bool {
    m.contains_key(k) && m[k] == PanelState::Hello
}

/// The two children of a split record at `k` are present, distinct and
/// greater than `k`.
pub open spec fn node_ok(m: Map<usize, PanelState>, k: usize) -> bool {
    match m[k] {
        PanelState::Split { lhs, rhs, .. } => {
            &&& k < lhs
            &&& k < rhs
            &&& lhs != rhs
            &&& m.contains_key(lhs)
            &&& m.contains_key(rhs)
        },
        PanelState::Hello => true,
    }
}

/// Some split of `m` has `k` as a child.
pub open spec fn has_parent(m: Map<usize, PanelState>, k: usize) -> bool {
    exists|p: usize| is_parent(m, p, k)
}

/// The registry forms one tree rooted at `ROOT` (or is empty), and every
/// identifier in it was handed out before `next`.
pub open spec fn registry_wf(m: Map<usize, PanelState>, next: usize) -> bool {
    &&& m.dom().finite()
    &&& m =~= Map::empty() || m.contains_key(ROOT)
    &&& forall|k: usize| #[trigger] m.contains_key(k) ==> k < next
    &&& forall|k: usize| m.contains_key(k) ==> #[trigger] node_ok(m, k)
    &&& forall|k: usize| m.contains_key(k) && k != ROOT ==> #[trigger] has_parent(m, k)
    &&& forall|p1: usize, p2: usize, k: usize|
        #[trigger] is_parent(m, p1, k) && #[trigger] is_parent(m, p2, k) ==> p1 == p2
}

/// The registry after splitting the leaf `id` along `axis`, with `next` and
/// `next + 1` as the identifiers of the two new children.
pub open spec fn split_model(m: Map<usize, PanelState>, next: usize, id: usize, axis: Axis) -> Map<
    usize,
    PanelState,
> {
    m.insert(next, m[id]).insert((next + 1) as usize, PanelState::Hello).insert(
        id,
        PanelState::Split { lhs: next, rhs: (next + 1) as usize, axis },
    )
}

/// A split of `id` is carried out: `id` is a leaf and two identifiers are left.
pub open spec fn can_split(m: Map<usize, PanelState>, next: usize, id: usize) -> bool {
    is_leaf(m, id) && next < usize::MAX - 1
}

/// A close of `id` under `parent` is carried out: `id` is a leaf and, when a
/// parent is given, one of that split's two children; when none is given, `id`
/// is the root.
pub open spec fn can_close(m: Map<usize, PanelState>, parent: Option<usize>, id: usize) -> bool {
    &&& is_leaf(m, id)
    &&& match parent {
        None => id == ROOT,
        Some(p) => is_parent(m, p, id),
    }
}

/// The other child of the split `p`, beside `id`.
pub open spec fn sibling(m: Map<usize, PanelState>, p: usize, id: usize) -> usize {
    match m[p] {
        PanelState::Split { lhs, rhs, .. } => if lhs == id {
            rhs
        } else {
            lhs
        },
        PanelState::Hello => p,
    }
}

/// The registry after closing `id` under `parent`: the sibling's record takes
/// the parent's identifier, or the registry empties when the root is closed.
pub open spec fn close_model(m: Map<usize, PanelState>, parent: Option<usize>, id: usize) -> Map<
    usize,
    PanelState,
> {
    if !can_close(m, parent, id) {
        m
    } else {
        match parent {
            None => Map::empty(),
            Some(p) => {
                let s = sibling(m, p, id);
                m.remove(id).remove(s).insert(p, m[s])
            },
        }
    }
}

/// Closing a leaf under its parent keeps the registry a well-formed tree.
#[verifier::rlimit(40)]
proof fn lemma_close_wf(m: Map<usize, PanelState>, next: usize, p: usize, id: usize)
    requires
        registry_wf(m, next),
        can_close(m, Some(p), id),
    ensures
        registry_wf(close_model(m, Some(p), id), next),
        close_model(m, Some(p), id).contains_key(ROOT),
{
    let s = sibling(m, p, id);
    let m2 = close_model(m, Some(p), id);
    assert(m2 == m.remove(id).remove(s).insert(p, m[s]));
    assert(node_ok(m, p));
    assert(is_parent(m, p, s));
    assert(p < id && p < s && s != id);
    assert(m.contains_key(ROOT));
    assert forall|k: usize| m2.contains_key(k) implies #[trigger] node_ok(m2, k) by {
        let q = if k == p {
            s
        } else {
            k
        };
        assert(m.contains_key(q));
        assert(node_ok(m, q));
        assert(m2[k] == m[q]);
        match m[q] {
            PanelState::Split { lhs, rhs, .. } => {
                assert(is_parent(m, q, lhs));
                assert(is_parent(m, q, rhs));
                if lhs == id || lhs == s {
                    assert(is_parent(m, p, lhs));
                }
                if rhs == id || rhs == s {
                    assert(is_parent(m, p, rhs));
                }
            },
            PanelState::Hello => {},
        }
    }
    assert forall|k: usize| m2.contains_key(k) && k != ROOT implies #[trigger] has_parent(m2, k) by {
        assert(has_parent(m, k));
        let q = choose|q: usize| is_parent(m, q, k);
        assert(node_ok(m, q));
        if k == p {
            assert(is_parent(m2, q, k));
        } else if q == p {
            assert(false);
        } else if q == s {
            assert(is_parent(m2, p, k));
        } else {
            assert(is_parent(m2, q, k));
        }
    }
    assert forall|p1: usize, p2: usize, k: usize|
        #[trigger] is_parent(m2, p1, k) && #[trigger] is_parent(m2, p2, k) implies p1 == p2 by {
        let q1 = if p1 == p {
            s
        } else {
            p1
        };
        let q2 = if p2 == p {
            s
        } else {
            p2
        };
        assert(is_parent(m, q1, k));
        assert(is_parent(m, q2, k));
    }
}

/// Splitting a leaf keeps the registry a well-formed tree.
#[verifier::rlimit(40)]
proof fn lemma_split_wf(m: Map<usize, PanelState>, next: usize, id: usize, axis: Axis)
    requires
        registry_wf(m, next),
        can_split(m, next, id),
    ensures
        registry_wf(split_model(m, next, id, axis), (next + 2) as usize),
{
    let m2 = split_model(m, next, id, axis);
    let lhs = next;
    let rhs = (next + 1) as usize;
    assert(!m.contains_key(lhs) && !m.contains_key(rhs));
    assert forall|k: usize| m2.contains_key(k) implies #[trigger] node_ok(m2, k) by {
        if k != id && k != lhs && k != rhs {
            assert(node_ok(m, k));
        }
    }
    assert forall|k: usize| m2.contains_key(k) && k != ROOT implies #[trigger] has_parent(m2, k) by {
        if k == lhs || k == rhs {
            assert(is_parent(m2, id, k));
        } else {
            assert(has_parent(m, k));
            let q = choose|q: usize| is_parent(m, q, k);
            assert(is_parent(m2, q, k));
        }
    }
    assert forall|p1: usize, p2: usize, k: usize|
        #[trigger] is_parent(m2, p1, k) && #[trigger] is_parent(m2, p2, k) implies p1 == p2 by {
        if k == lhs || k == rhs {
            if p1 != id {
                assert(node_ok(m, p1));
            }
            if p2 != id {
                assert(node_ok(m, p2));
            }
        } else {
            assert(is_parent(m, p1, k));
            assert(is_parent(m, p2, k));
        }
    }
}

/// `k` is reached from the root by a chain of parent-to-child steps.
pub open spec fn reachable(m: Map<usize, PanelState>, k: usize) -> bool
    decreases k,
{
    ||| k == ROOT && m.contains_key(ROOT)
    ||| exists|p: usize| p < k && #[trigger] is_parent(m, p, k) && reachable(m, p)
}

/// No identifier is orphaned: every identifier the registry holds is reached
/// from the root, and no identifier is the child of two splits.
pub proof fn lemma_no_orphans(m: Map<usize, PanelState>, next: usize, k: usize)
    requires
        registry_wf(m, next),
        m.contains_key(k),
    ensures
        reachable(m, k),
        forall|p1: usize, p2: usize| is_parent(m, p1, k) && is_parent(m, p2, k) ==> p1 == p2,
    decreases k,
{
    if k != ROOT {
        assert(has_parent(m, k));
        let p = choose|p: usize| is_parent(m, p, k);
        assert(node_ok(m, p));
        lemma_no_orphans(m, next, p);
        assert(p < k && is_parent(m, p, k) && reachable(m, p));
        assert(reachable(m, k));
    } else {
        assert(reachable(m, k));
    }
    assert forall|p1: usize, p2: usize| is_parent(m, p1, k) && is_parent(m, p2, k) implies p1
        == p2 by {
        assert(is_parent(m, p1, k) && is_parent(m, p2, k));
    }
}

/// Splitting a leaf and then closing the new sibling gives back the registry
/// as it was before the split.
pub proof fn lemma_split_then_close(m: Map<usize, PanelState>, next: usize, id: usize, axis: Axis)
    requires
        registry_wf(m, next),
        can_split(m, next, id),
    ensures
        close_model(split_model(m, next, id, axis), Some(id), (next + 1) as usize) == m,
{
    let m2 = split_model(m, next, id, axis);
    let rhs = (next + 1) as usize;
    assert(!m.contains_key(next) && !m.contains_key(rhs));
    assert(can_close(m2, Some(id), rhs));
    assert(sibling(m2, id, rhs) == next);
    assert(close_model(m2, Some(id), rhs) =~= m);
}

impl State {
    /// The registry, as a map from identifier to record.
    pub closed spec fn panels(&self) -> Map<usize, PanelState> {
        self.panels@
    }

    /// The next identifier that the allocator hands out.
    pub closed spec fn next(&self) -> usize {
        self.panel_id
    }

    pub open spec fn wf(&self) -> bool {
        registry_wf(self.panels(), self.next())
    }

    /// An empty registry.
    pub fn new() -> (r: State)
        ensures
            r.wf(),
            r.panels() == Map::<usize, PanelState>::empty(),
            r.next() == 0,
    {
        State { panels: HashMap::new(), panel_id: 0 }
    }

    /// The record of `id`, if the registry holds one.
    pub fn get(&self, id: usize) -> (r: Option<PanelState>)
        ensures
            r == (if self.panels().contains_key(id) {
                Some(self.panels()[id])
            } else {
                None
            }),
    {
        match self.panels.get(&id) {
            Some(p) => Some(*p),
            None => None,
        }
    }

    /// Gives an empty registry a single leaf at the root; a registry that holds
    /// panels is left as it is. The allocator never moves back, so identifiers
    /// retired before stay retired.
    pub fn ensure_root(&mut self)
        requires
            old(self).wf(),
        ensures
            final(self).wf(),
            old(self).panels() =~= Map::<usize, PanelState>::empty() ==> {
                &&& final(self).panels() == Map::<usize, PanelState>::empty().insert(
                    ROOT,
                    PanelState::Hello,
                )
                &&& final(self).next() == if old(self).next() == 0 {
                    1
                } else {
                    old(self).next()
                }
            },
            !(old(self).panels() =~= Map::<usize, PanelState>::empty()) ==> *final(self)
                == *old(self),
    {
        if self.panels.is_empty() {
            proof {
                assert(self.panels@ =~= Map::<usize, PanelState>::empty());
            }
            self.panels.insert(ROOT, PanelState::Hello);
            if self.panel_id == 0 {
                self.panel_id = 1;
            }
            proof {
                let m = self.panels@;
                assert(m =~= Map::<usize, PanelState>::empty().insert(ROOT, PanelState::Hello));
                assert forall|k: usize| m.contains_key(k) implies #[trigger] node_ok(m, k) by {}
                assert forall|p1: usize, p2: usize, k: usize|
                    #[trigger] is_parent(m, p1, k) && #[trigger] is_parent(m, p2, k) implies p1
                    == p2 by {}
            }
        } else {
            proof {
                assert(!self.panels@.is_empty());
            }
        }
    }

    /// Splits the leaf `id` along `axis`. The leaf's record moves, unchanged, to
    /// a fresh identifier that becomes the split's first child; a new leaf with
    /// the next fresh identifier becomes the second child; `id` itself now names
    /// the split. Where `id` is not a leaf, or the allocator has run out, nothing
    /// changes.
    pub fn split(&mut self, id: usize, axis: Axis)
        requires
            old(self).wf(),
        ensures
            final(self).wf(),
            can_split(old(self).panels(), old(self).next(), id) ==> {
                &&& final(self).panels() == split_model(
                    old(self).panels(),
                    old(self).next(),
                    id,
                    axis,
                )
                &&& final(self).next() == old(self).next() + 2
            },
            !can_split(old(self).panels(), old(self).next(), id) ==> *final(self) == *old(self),
            old(self).panels().contains_key(ROOT) ==> final(self).panels().contains_key(ROOT),
            forall|k: usize|
                #[trigger] final(self).panels().contains_key(k) && !old(self).panels().contains_key(
                    k,
                ) ==> old(self).next() <= k,
            old(self).next() <= final(self).next(),
    {
        let is_hello = match self.panels.get(&id) {
            Some(PanelState::Hello) => true,
            _ => false,
        };
        if !is_hello || self.panel_id >= usize::MAX - 1 {
            return;
        }
        let ghost m = self.panels@;
        let original_state = self.panels.remove(&id);
        let original_state = match original_state {
            Some(st) => st,
            None => PanelState::Hello,
        };
        let lhs = self.panel_id;
        self.panel_id = self.panel_id + 1;
        self.panels.insert(lhs, original_state);
        let rhs = self.panel_id;
        self.panel_id = self.panel_id + 1;
        self.panels.insert(rhs, PanelState::Hello);
        self.panels.insert(id, PanelState::Split { lhs, rhs, axis });
        proof {
            assert(self.panels@ =~= split_model(m, lhs, id, axis));
            lemma_split_wf(m, lhs, id, axis);
        }
    }

    /// Closes the leaf `id`, whose parent split is `parent`, or which is the
    /// root when `parent` is `None`. The sibling's record takes over the
    /// parent's identifier and the identifiers of the leaf and of the sibling
    /// are retired; closing the root leaf empties the registry. A request that
    /// does not name a leaf and its actual parent changes nothing.
    pub fn close(&mut self, parent_id: Option<usize>, id: usize)
        requires
            old(self).wf(),
        ensures
            final(self).wf(),
            final(self).panels() == close_model(old(self).panels(), parent_id, id),
            final(self).next() == old(self).next(),
            !can_close(old(self).panels(), parent_id, id) ==> *final(self) == *old(self),
            old(self).panels().contains_key(ROOT) && !(parent_id is None && id == ROOT)
                ==> final(self).panels().contains_key(ROOT),
            forall|k: usize| #[trigger]
                final(self).panels().contains_key(k) ==> old(self).panels().contains_key(k),
    {
        let ghost m = self.panels@;
        let is_hello = match self.panels.get(&id) {
            Some(PanelState::Hello) => true,
            _ => false,
        };
        if !is_hello {
            return;
        }
        match parent_id {
            None => {
                if id == ROOT {
                    self.panels.clear();
                    proof {
                        assert(self.panels@ =~= close_model(m, parent_id, id));
                    }
                }
            },
            Some(p) => {
                let (lhs, rhs) = match self.panels.get(&p) {
                    Some(PanelState::Split { lhs, rhs, .. }) => (*lhs, *rhs),
                    _ => {
                        return;
                    },
                };
                if id != lhs && id != rhs {
                    return;
                }
                let s = if id == lhs {
                    rhs
                } else {
                    lhs
                };
                assert(s == sibling(m, p, id));
                assert(node_ok(m, p));
                self.panels.remove(&id);
                let remaining = self.panels.remove(&s);
                match remaining {
                    Some(st) => {
                        self.panels.insert(p, st);
                    },
                    None => {},
                }
                proof {
                    lemma_close_wf(m, self.panel_id, p, id);
                    assert(self.panels@ =~= close_model(m, parent_id, id));
                }
            },
        }
    }

    /// The next identifier that the allocator hands out.
    pub fn next_id(&self) -> (r: usize)
        ensures
            r == self.next(),
    {
        self.panel_id
    }

    /// Whether the registry holds no panel at all.
    pub fn is_empty(&self) -> (r: bool)
        ensures
            r == (self.panels() =~= Map::<usize, PanelState>::empty()),
    {
        let r = self.panels.is_empty();
        proof {
            if !r {
                assert(!self.panels@.is_empty());
            } else {
                assert(self.panels@.dom() =~= Set::<usize>::empty());
            }
        }
        r
    }
}

impl Default for State {
    /// An empty registry.
    fn default() -> (r: State)
        ensures
            r.wf(),
            r.panels() == Map::<usize, PanelState>::empty(),
            r.next() == 0,
    {
        State::new()
    }
}

} // verus!
