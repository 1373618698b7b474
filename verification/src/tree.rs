//! The node arena: per-node inputs (world transform, role annotation,
//! change flags, child edges) plus the per-node cached depth value, with the
//! well-formedness discipline that makes the hierarchy an acyclic forest.

use vstd::prelude::*;
use vstd::pervasive::VecAdditionalExecFns;
use bevy::math::Mat4;
use crate::computed::ComputedOutlineDepth;
use crate::computed::InheritOutlineDepth;
use crate::computed::SetOutlineDepth;
use crate::computed::default_depth;
use crate::computed::resolved_depth;

verus! {

/// A node's role in depth computation: either it resolves its own depth
/// (from an optional policy annotation), or it inherits the value of its
/// nearest resolving ancestor.
#[derive(Clone, Copy)]
pub enum NodeRole {
    /// The node resolves its own depth; `policy` is its optional annotation.
    Root { policy: Option<SetOutlineDepth> },
    /// The node carries the inherit marker.
    Inherit(InheritOutlineDepth),
}

/// One node's inputs for a pass. The change flags describe what happened to
/// the node since the previous pass; they are supplied (and cleared) by the
/// caller, never written by the pass itself.
pub struct Node {
    /// The node's resolved world transform, supplied externally.
    pub transform: Mat4,
    /// Whether the world transform changed since the previous pass.
    pub transform_changed: bool,
    /// Root (own policy) or inheriting node.
    pub role: NodeRole,
    /// Whether the role annotation changed since the previous pass: the
    /// policy added, removed or modified, or the inherit marker toggled.
    pub role_changed: bool,
    /// Arena indices of the node's children, in order. An index at or past
    /// the end of the arena is a dangling edge and is skipped by the pass.
    pub children: Vec<usize>,
    /// Whether the membership of `children` changed since the previous pass.
    pub children_changed: bool,
    /// Whether the node entered the tree since the previous pass (its cached
    /// value was freshly created).
    pub added: bool,
}

/// The tree: a parallel arena of node inputs and cached depth values.
/// Parents precede their children in the arena, which rules out cycles.
pub struct DepthTree {
    /// Per-node inputs; read-only during a pass.
    pub nodes: Vec<Node>,
    /// Per-node cached depth values; the only state a pass mutates.
    pub computed: Vec<ComputedOutlineDepth>,
}

/// Whether node `n` resolves its own depth.
pub open spec fn is_root(nodes: Seq<Node>, n: int) -> bool {
    nodes[n].role is Root
}

/// Whether node `n` inherits its depth.
pub open spec fn is_inheriting(nodes: Seq<Node>, n: int) -> bool {
    nodes[n].role is Inherit
}

/// The policy annotation of root node `n`.
pub open spec fn policy_of(nodes: Seq<Node>, n: int) -> Option<SetOutlineDepth> {
    match nodes[n].role {
        NodeRole::Root { policy } => policy,
        NodeRole::Inherit(_) => None,
    }
}

/// Whether `n` is the `k`-th child of node `p`.
pub open spec fn child_of(nodes: Seq<Node>, p: int, k: int, n: int) -> bool {
    &&& 0 <= p < nodes.len()
    &&& 0 <= k < nodes[p].children@.len()
    &&& nodes[p].children@[k] as int == n
}

/// Whether some node of the arena lists `n` as a child.
pub open spec fn has_parent(nodes: Seq<Node>, n: int) -> bool {
    exists|p: int, k: int| child_of(nodes, p, k, n)
}

/// The parent of `n`: the unique node that lists `n` as a child.
/// Meaningful only when `has_parent` holds of a well-formed arena.
pub open spec fn parent_of(nodes: Seq<Node>, n: int) -> int {
    (choose|p: int, k: int| child_of(nodes, p, k, n)).0
}

/// Well-formedness of the edge set:
/// - every child index is strictly greater than its parent's index, so the
///   hierarchy is acyclic and parents precede children;
/// - no node in range is listed as a child twice, so every node has at most
///   one parent and child lists have no duplicates.
pub open spec fn wf_nodes(nodes: Seq<Node>) -> bool {
    &&& forall|i: int, k: int|
        0 <= i < nodes.len() && 0 <= k < nodes[i].children@.len() ==> (#[trigger] nodes[i].children@[k]) as int > i
    &&& forall|i: int, k: int, j: int, l: int|
        0 <= i < nodes.len() && 0 <= k < nodes[i].children@.len() && 0 <= j < nodes.len() && 0 <= l
            < nodes[j].children@.len() && (i != j || k != l) ==> #[trigger] nodes[i].children@[k]
            != #[trigger] nodes[j].children@[l]
}

impl DepthTree {
    /// The arena invariant: one cached value per node, well-formed edges.
    pub open spec fn wf(self) -> bool {
        &&& self.computed@.len() == self.nodes@.len()
        &&& wf_nodes(self.nodes@)
    }

    /// An empty tree.
    pub fn new() -> (r: DepthTree)
        ensures
            r.wf(),
            r.nodes@.len() == 0,
    {
        DepthTree { nodes: Vec::new(), computed: Vec::new() }
    }
}

/// In a well-formed arena a node has at most one parent: two child entries
/// naming the same in-range node are the same entry.
pub proof fn lemma_parent_unique(nodes: Seq<Node>, p: int, k: int, j: int, l: int, n: int)
    requires
        wf_nodes(nodes),
        0 <= n < nodes.len(),
        child_of(nodes, p, k, n),
        child_of(nodes, j, l, n),
    ensures
        p == j,
        k == l,
{
    if p != j || k != l {
        assert(nodes[p].children@[k] != nodes[j].children@[l]);
    }
}

/// In a well-formed arena, `parent_of` returns the one parent, and the
/// parent's index is strictly below the child's.
pub proof fn lemma_parent_of(nodes: Seq<Node>, p: int, k: int, n: int)
    requires
        wf_nodes(nodes),
        0 <= n < nodes.len(),
        child_of(nodes, p, k, n),
    ensures
        parent_of(nodes, n) == p,
        0 <= p < n,
{
    let (cp, ck) = choose|cp: int, ck: int| child_of(nodes, cp, ck, n);
    lemma_parent_unique(nodes, p, k, cp, ck, n);
}

/// The parent of any in-range node with a parent lies strictly below it.
pub proof fn lemma_parent_below(nodes: Seq<Node>, n: int)
    requires
        wf_nodes(nodes),
        0 <= n < nodes.len(),
        has_parent(nodes, n),
    ensures
        0 <= parent_of(nodes, n) < n,
        exists|k: int| child_of(nodes, parent_of(nodes, n), k, n),
{
    let (cp, ck) = choose|cp: int, ck: int| child_of(nodes, cp, ck, n);
    lemma_parent_of(nodes, cp, ck, n);
}

/// Whether node `i` must recompute its own depth this pass: its cached
/// value was freshly created, its transform changed, or its annotation
/// changed in any way.
pub open spec fn root_dirty(nodes: Seq<Node>, i: int) -> bool {
    ||| nodes[i].added
    ||| nodes[i].transform_changed
    ||| nodes[i].role_changed
}

/// The changed flag a root hands to its children: its own result changed or
/// was freshly created, or its child list changed.
pub open spec fn root_flag(nodes: Seq<Node>, i: int) -> bool {
    root_dirty(nodes, i) || nodes[i].children_changed
}

/// The value root `i` holds once the pass has visited it: recomputed from
/// its transform and policy when dirty, otherwise its previous value.
pub open spec fn root_result(
    nodes: Seq<Node>,
    computed: Seq<ComputedOutlineDepth>,
    i: int,
) -> ComputedOutlineDepth {
    if root_dirty(nodes, i) {
        resolved_depth(nodes[i].transform, policy_of(nodes, i))
    } else {
        computed[i]
    }
}

impl DepthTree {
    /// Appends a node that has just entered the tree, with no children yet
    /// and its cached value freshly created: every per-node flag is set,
    /// as for any newly created node, except the child-list flag.
    pub fn push_node(&mut self, transform: Mat4, role: NodeRole) -> (idx: usize)
        requires
            old(self).wf(),
        ensures
            final(self).wf(),
            idx == old(self).nodes@.len(),
            final(self).nodes@.len() == old(self).nodes@.len() + 1,
            final(self).nodes@.subrange(0, idx as int) == old(self).nodes@,
            final(self).computed@.subrange(0, idx as int) == old(self).computed@,
            final(self).nodes@[idx as int].transform == transform,
            final(self).nodes@[idx as int].role == role,
            final(self).nodes@[idx as int].added,
            final(self).nodes@[idx as int].transform_changed,
            final(self).nodes@[idx as int].role_changed,
            !final(self).nodes@[idx as int].children_changed,
            final(self).nodes@[idx as int].children@.len() == 0,
    {
        let idx = self.nodes.len();
        let node = Node {
            transform,
            transform_changed: true,
            role,
            role_changed: true,
            children: Vec::new(),
            children_changed: false,
            added: true,
        };
        self.nodes.push(node);
        self.computed.push(default_depth());
        proof {
            let post = self.nodes@;
            let pre = old(self).nodes@;
            assert(post.subrange(0, idx as int) =~= pre);
            assert(self.computed@.subrange(0, idx as int) =~= old(self).computed@);
            assert forall|i: int, k: int|
                0 <= i < post.len() && 0 <= k < post[i].children@.len() implies (#[trigger] post[i].children@[k])
                as int > i by {
                if i < idx {
                    assert(post[i] == pre[i]);
                } else {
                    assert(post[i].children@.len() == 0);
                }
            }
            assert forall|i: int, k: int, j: int, l: int|
                0 <= i < post.len() && 0 <= k < post[i].children@.len() && 0 <= j < post.len() && 0
                    <= l < post[j].children@.len() && (i != j || k != l) implies #[trigger] post[i].children@[k]
                != #[trigger] post[j].children@[l] by {
                if i < idx && j < idx {
                    assert(post[i] == pre[i]);
                    assert(post[j] == pre[j]);
                    assert(pre[i].children@[k] != pre[j].children@[l]);
                } else {
                    assert(post[i].children@.len() == 0 || post[j].children@.len() == 0);
                }
            }
            assert(wf_nodes(post));
        }
        idx
    }

    /// A copy of node `i`'s child list.
    fn copy_children(&self, i: usize) -> (r: Vec<usize>)
        requires
            i < self.nodes@.len(),
        ensures
            r@ == self.nodes@[i as int].children@,
    {
        let mut r: Vec<usize> = Vec::new();
        let m = self.nodes[i].children.len();
        let mut j: usize = 0;
        while j < m
            invariant
                j <= m,
                i < self.nodes@.len(),
                m == self.nodes@[i as int].children@.len(),
                r@ == self.nodes@[i as int].children@.subrange(0, j as int),
            decreases m - j,
        {
            r.push(self.nodes[i].children[j]);
            proof {
                assert(r@ =~= self.nodes@[i as int].children@.subrange(0, j + 1));
            }
            j += 1;
        }
        proof {
            assert(r@ =~= self.nodes@[i as int].children@);
        }
        r
    }

    /// Records `child` as a new child of `parent` and raises the parent's
    /// child-list flag, as the external hierarchy store does when an edge is
    /// added. The child must come after the parent in the arena and must not
    /// already be anyone's child.
    pub fn attach_child(&mut self, parent: usize, child: usize)
        requires
            old(self).wf(),
            parent < old(self).nodes@.len(),
            parent < child,
            forall|i: int, k: int| !child_of(old(self).nodes@, i, k, child as int),
        ensures
            final(self).wf(),
            final(self).nodes@.len() == old(self).nodes@.len(),
            final(self).computed@ == old(self).computed@,
            forall|i: int|
                0 <= i < old(self).nodes@.len() && i != parent ==> final(self).nodes@[i] == old(
                    self,
                ).nodes@[i],
            final(self).nodes@[parent as int].children@ == old(
                self,
            ).nodes@[parent as int].children@.push(child),
            final(self).nodes@[parent as int].children_changed,
            final(self).nodes@[parent as int].transform == old(
                self,
            ).nodes@[parent as int].transform,
            final(self).nodes@[parent as int].role == old(self).nodes@[parent as int].role,
            final(self).nodes@[parent as int].transform_changed == old(
                self,
            ).nodes@[parent as int].transform_changed,
            final(self).nodes@[parent as int].role_changed == old(
                self,
            ).nodes@[parent as int].role_changed,
            final(self).nodes@[parent as int].added == old(self).nodes@[parent as int].added,
    {
        let mut ch = self.copy_children(parent);
        ch.push(child);
        let node = Node {
            transform: self.nodes[parent].transform,
            transform_changed: self.nodes[parent].transform_changed,
            role: self.nodes[parent].role,
            role_changed: self.nodes[parent].role_changed,
            children: ch,
            children_changed: true,
            added: self.nodes[parent].added,
        };
        self.nodes.set(parent, node);
        proof {
            let post = self.nodes@;
            let pre = old(self).nodes@;
            assert forall|i: int, k: int|
                0 <= i < post.len() && 0 <= k < post[i].children@.len() implies (#[trigger] post[i].children@[k])
                as int > i by {
                if i == parent && k == pre[parent as int].children@.len() {
                    assert(post[i].children@[k] == child);
                } else if i == parent {
                    assert(post[i].children@[k] == pre[i].children@[k]);
                } else {
                    assert(post[i] == pre[i]);
                }
            }
            assert forall|i: int, k: int, j: int, l: int|
                0 <= i < post.len() && 0 <= k < post[i].children@.len() && 0 <= j < post.len() && 0
                    <= l < post[j].children@.len() && (i != j || k != l) implies #[trigger] post[i].children@[k]
                != #[trigger] post[j].children@[l] by {
                let last = pre[parent as int].children@.len() as int;
                if i == parent && k == last {
                    assert(post[i].children@[k] == child);
                    if j == parent && l < last {
                        assert(!child_of(pre, j, l, child as int));
                    } else {
                        assert(post[j].children@[l] == pre[j].children@[l]);
                        assert(!child_of(pre, j, l, child as int));
                    }
                } else if j == parent && l == last {
                    assert(post[j].children@[l] == child);
                    assert(post[i].children@[k] == pre[i].children@[k]);
                    assert(!child_of(pre, i, k, child as int));
                } else {
                    assert(post[i].children@[k] == pre[i].children@[k]);
                    assert(post[j].children@[l] == pre[j].children@[l]);
                    assert(pre[i].children@[k] != pre[j].children@[l]);
                }
            }
            assert(wf_nodes(post));
        }
    }

    /// Lowers every change flag in the tree, as the host does at the end of
    /// a tick once a pass has run: afterwards nothing is marked added or
    /// changed, and transforms, roles, edges and cached values are intact.
    pub fn clear_change_flags(&mut self)
        requires
            old(self).wf(),
        ensures
            final(self).wf(),
            final(self).nodes@.len() == old(self).nodes@.len(),
            final(self).computed@ == old(self).computed@,
            forall|i: int|
                0 <= i < old(self).nodes@.len() ==> {
                    &&& final(self).nodes@[i].transform == old(self).nodes@[i].transform
                    &&& final(self).nodes@[i].role == old(self).nodes@[i].role
                    &&& final(self).nodes@[i].children@ == old(self).nodes@[i].children@
                    &&& !final(self).nodes@[i].transform_changed
                    &&& !final(self).nodes@[i].role_changed
                    &&& !final(self).nodes@[i].children_changed
                    &&& !final(self).nodes@[i].added
                },
    {
        let n = self.nodes.len();
        let mut i: usize = 0;
        while i < n
            invariant
                i <= n,
                n == self.nodes@.len(),
                self.nodes@.len() == old(self).nodes@.len(),
                self.computed@ == old(self).computed@,
                old(self).wf(),
                forall|m: int| i <= m < n ==> self.nodes@[m] == old(self).nodes@[m],
                forall|m: int|
                    0 <= m < i ==> {
                        &&& self.nodes@[m].transform == old(self).nodes@[m].transform
                        &&& self.nodes@[m].role == old(self).nodes@[m].role
                        &&& self.nodes@[m].children@ == old(self).nodes@[m].children@
                        &&& !self.nodes@[m].transform_changed
                        &&& !self.nodes@[m].role_changed
                        &&& !self.nodes@[m].children_changed
                        &&& !self.nodes@[m].added
                    },
            decreases n - i,
        {
            let ch = self.copy_children(i);
            let node = Node {
                transform: self.nodes[i].transform,
                transform_changed: false,
                role: self.nodes[i].role,
                role_changed: false,
                children: ch,
                children_changed: false,
                added: false,
            };
            self.nodes.set(i, node);
            i += 1;
        }
        proof {
            assert forall|i: int, k: int|
                0 <= i < self.nodes@.len() && 0 <= k < self.nodes@[i].children@.len() implies (
            #[trigger] self.nodes@[i].children@[k]) as int > i by {
                assert(self.nodes@[i].children@ == old(self).nodes@[i].children@);
            }
            assert forall|i: int, k: int, j: int, l: int|
                0 <= i < self.nodes@.len() && 0 <= k < self.nodes@[i].children@.len() && 0 <= j
                    < self.nodes@.len() && 0 <= l < self.nodes@[j].children@.len() && (i != j || k
                    != l) implies #[trigger] self.nodes@[i].children@[k]
                != #[trigger] self.nodes@[j].children@[l] by {
                assert(self.nodes@[i].children@ == old(self).nodes@[i].children@);
                assert(self.nodes@[j].children@ == old(self).nodes@[j].children@);
            }
            assert(wf_nodes(self.nodes@));
        }
    }
}

} // verus!
