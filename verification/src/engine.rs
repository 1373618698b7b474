//! The two passes: the root resolver, which recomputes every root node's
//! own depth value when its inputs changed, and the inheritance propagator,
//! which copies a root's value down through its inheriting descendants.
//!
//! The specification is built from the propagator's reach: `prop_reached`
//! describes which nodes a propagation started at one entry node visits,
//! `prop_flag` the changed flag it carries there, and `pass_written` which
//! nodes a whole pass overwrites on behalf of which root.

use vstd::prelude::*;
use vstd::pervasive::VecAdditionalExecFns;
use crate::computed::ComputedOutlineDepth;
use crate::computed::resolve_depth;
use crate::tree::DepthTree;
use crate::tree::Node;
use crate::tree::NodeRole;
use crate::tree::child_of;
use crate::tree::has_parent;
use crate::tree::is_inheriting;
use crate::tree::is_root;
use crate::tree::lemma_parent_below;
use crate::tree::lemma_parent_of;
use crate::tree::parent_of;
use crate::tree::policy_of;
use crate::tree::root_dirty;
use crate::tree::root_flag;
use crate::tree::root_result;
use crate::tree::wf_nodes;

verus! {

/// Whether a propagation started at node `e` visits node `n`: either `n` is
/// the entry node itself, or `n`'s parent is an inheriting node the
/// propagation visits. Propagation never continues below a non-inheriting
/// node, which is how a nested root shadows its subtree.
pub open spec fn prop_reached(nodes: Seq<Node>, e: int, n: int) -> bool
    decreases n,
    when wf_nodes(nodes) && 0 <= n < nodes.len()
{
    n == e || (has_parent(nodes, n) && {
        proof {
            lemma_parent_below(nodes, n);
        }
        let p = parent_of(nodes, n);
        is_inheriting(nodes, p) && prop_reached(nodes, e, p)
    })
}

/// The changed flag a propagation started at `e` with flag `f0` carries
/// into node `n`: the entry flag, accumulated with the role and child-list
/// flags of every node strictly between `e` and `n` on the parent chain.
pub open spec fn prop_flag(nodes: Seq<Node>, e: int, f0: bool, n: int) -> bool
    decreases n,
    when wf_nodes(nodes) && 0 <= n < nodes.len()
{
    if n == e {
        f0
    } else if has_parent(nodes, n) {
        proof {
            lemma_parent_below(nodes, n);
        }
        let p = parent_of(nodes, n);
        prop_flag(nodes, e, f0, p) || nodes[p].role_changed || nodes[p].children_changed
    } else {
        false
    }
}

/// Whether a propagation started at `e` with flag `f0` overwrites node `n`:
/// the node is visited, it is an inheriting node, and the flag carried into
/// it — or its own role flag — is raised.
pub open spec fn prop_written(nodes: Seq<Node>, e: int, f0: bool, n: int) -> bool {
    &&& 0 <= n < nodes.len()
    &&& prop_reached(nodes, e, n)
    &&& is_inheriting(nodes, n)
    &&& (prop_flag(nodes, e, f0, n) || nodes[n].role_changed)
}

/// A node visited from an entry node lies at or below it in the arena.
pub proof fn lemma_reach_above(nodes: Seq<Node>, e: int, n: int)
    requires
        wf_nodes(nodes),
        0 <= n < nodes.len(),
        prop_reached(nodes, e, n),
    ensures
        e <= n,
    decreases n,
{
    if n != e {
        lemma_parent_below(nodes, n);
        lemma_reach_above(nodes, e, parent_of(nodes, n));
    }
}

/// Propagation started at a non-inheriting entry node visits nothing else.
pub proof fn lemma_stop_at_root(nodes: Seq<Node>, e: int, n: int)
    requires
        wf_nodes(nodes),
        0 <= n < nodes.len(),
        !is_inheriting(nodes, e),
        n != e,
    ensures
        !prop_reached(nodes, e, n),
    decreases n,
{
    if prop_reached(nodes, e, n) {
        lemma_parent_below(nodes, n);
        let p = parent_of(nodes, n);
        if p != e {
            lemma_stop_at_root(nodes, e, p);
        }
    }
}

/// A node below an inheriting entry node is visited from it exactly when it
/// is visited from one of the entry node's children.
pub proof fn lemma_reach_up(nodes: Seq<Node>, e: int, j: int, c: int, n: int)
    requires
        wf_nodes(nodes),
        0 <= e < nodes.len(),
        0 <= n < nodes.len(),
        is_inheriting(nodes, e),
        child_of(nodes, e, j, c),
        prop_reached(nodes, c, n),
    ensures
        prop_reached(nodes, e, n),
        n != e,
    decreases n,
{
    lemma_reach_above(nodes, c, n);
    lemma_parent_of(nodes, e, j, c);
    if n == c {
        assert(has_parent(nodes, n));
        assert(parent_of(nodes, n) == e);
        assert(prop_reached(nodes, e, e));
        assert(prop_reached(nodes, e, n));
    } else {
        lemma_parent_below(nodes, n);
        lemma_reach_up(nodes, e, j, c, parent_of(nodes, n));
        assert(prop_reached(nodes, e, n));
    }
}

/// Conversely: a node visited from `e`, other than `e` itself, is visited
/// from one of `e`'s in-range children.
pub proof fn lemma_reach_down(nodes: Seq<Node>, e: int, n: int)
    requires
        wf_nodes(nodes),
        0 <= e < nodes.len(),
        0 <= n < nodes.len(),
        prop_reached(nodes, e, n),
        n != e,
    ensures
        exists|j: int|
            0 <= j < nodes[e].children@.len() && ((#[trigger] nodes[e].children@[j]) as int)
                < nodes.len() && prop_reached(nodes, nodes[e].children@[j] as int, n),
    decreases n,
{
    lemma_parent_below(nodes, n);
    let p = parent_of(nodes, n);
    let (cp, ck) = choose|cp: int, ck: int| child_of(nodes, cp, ck, n);
    if p == e {
        assert(child_of(nodes, e, ck, n));
        assert(0 <= ck < nodes[e].children@.len() && (nodes[e].children@[ck] as int) < nodes.len()
            && prop_reached(nodes, nodes[e].children@[ck] as int, n));
    } else {
        lemma_reach_down(nodes, e, p);
        let j = choose|j: int|
            0 <= j < nodes[e].children@.len() && ((#[trigger] nodes[e].children@[j]) as int)
                < nodes.len() && prop_reached(nodes, nodes[e].children@[j] as int, p);
        assert(prop_reached(nodes, nodes[e].children@[j] as int, n));
    }
}

/// The flag carried into a node does not depend on whether the propagation
/// entered at `e` or at the child of `e` on the way: entering at the child
/// with `e`'s flags already accumulated gives the same flag everywhere below.
pub proof fn lemma_flag_shift(nodes: Seq<Node>, e: int, j: int, c: int, f0: bool, n: int)
    requires
        wf_nodes(nodes),
        0 <= e < nodes.len(),
        0 <= n < nodes.len(),
        child_of(nodes, e, j, c),
        prop_reached(nodes, c, n),
    ensures
        prop_flag(nodes, e, f0, n) == prop_flag(
            nodes,
            c,
            f0 || nodes[e].role_changed || nodes[e].children_changed,
            n,
        ),
    decreases n,
{
    lemma_reach_above(nodes, c, n);
    lemma_parent_of(nodes, e, j, c);
    let f1 = f0 || nodes[e].role_changed || nodes[e].children_changed;
    if n == c {
        assert(has_parent(nodes, n));
        assert(parent_of(nodes, n) == e);
        assert(prop_flag(nodes, e, f0, e) == f0);
        assert(prop_flag(nodes, e, f0, n) == (f0 || nodes[e].role_changed
            || nodes[e].children_changed));
        assert(prop_flag(nodes, c, f1, c) == f1);
    } else {
        lemma_parent_below(nodes, n);
        let p = parent_of(nodes, n);
        lemma_flag_shift(nodes, e, j, c, f0, p);
        assert(prop_flag(nodes, e, f0, n) == (prop_flag(nodes, e, f0, p) || nodes[p].role_changed
            || nodes[p].children_changed));
        assert(prop_flag(nodes, c, f1, n) == (prop_flag(nodes, c, f1, p) || nodes[p].role_changed
            || nodes[p].children_changed));
    }
}

/// Distinct propagation entry points cover disjoint node sets: if one node
/// is visited from two entry points that are children of the same node, or
/// children of two root nodes, those entry points coincide.
pub proof fn lemma_entry_unique(
    nodes: Seq<Node>,
    e1: int,
    j1: int,
    c1: int,
    e2: int,
    j2: int,
    c2: int,
    n: int,
)
    requires
        wf_nodes(nodes),
        0 <= n < nodes.len(),
        child_of(nodes, e1, j1, c1),
        child_of(nodes, e2, j2, c2),
        prop_reached(nodes, c1, n),
        prop_reached(nodes, c2, n),
        e1 == e2 || (is_root(nodes, e1) && is_root(nodes, e2)),
    ensures
        e1 == e2,
        j1 == j2,
        c1 == c2,
    decreases n,
{
    lemma_reach_above(nodes, c1, n);
    lemma_reach_above(nodes, c2, n);
    lemma_parent_of(nodes, e1, j1, c1);
    lemma_parent_of(nodes, e2, j2, c2);
    if n == c1 && n == c2 {
        assert(nodes[e1].children@[j1] == nodes[e2].children@[j2]);
        if e1 != e2 || j1 != j2 {
            assert(false);
        }
    } else if n == c1 {
        lemma_parent_below(nodes, n);
        let p = parent_of(nodes, n);
        assert(p == e1);
        assert(is_inheriting(nodes, e1));
        lemma_reach_above(nodes, c2, e1);
        assert(false);
    } else if n == c2 {
        lemma_parent_below(nodes, n);
        let p = parent_of(nodes, n);
        assert(p == e2);
        assert(is_inheriting(nodes, e2));
        lemma_reach_above(nodes, c1, e2);
        assert(false);
    } else {
        lemma_parent_below(nodes, n);
        lemma_entry_unique(nodes, e1, j1, c1, e2, j2, c2, parent_of(nodes, n));
    }
}

/// The nodes already overwritten while a propagation entered at `e` with
/// flag `f0` has handed the value to `e` itself and to its first `hi`
/// children: `e` when the flag into it was raised, and everything written
/// via an in-range child among the first `hi`.
pub open spec fn covered_upto(nodes: Seq<Node>, e: int, f0: bool, hi: int, n: int) -> bool {
    ||| (n == e && (f0 || nodes[e].role_changed))
    ||| exists|j: int|
        0 <= j < hi && ((#[trigger] nodes[e].children@[j]) as int) < nodes.len() && prop_written(
            nodes,
            nodes[e].children@[j] as int,
            f0 || nodes[e].role_changed || nodes[e].children_changed,
            n,
        )
}

/// Propagates an ancestor root's computed value `root_computed` into the
/// subtree at `entity`, with `changed` the flag accumulated from the
/// ancestors: exactly the nodes `prop_written` describes receive a copy of
/// the value, and nothing else in the tree is touched.
fn propagate_outline_depth(
    tree: &mut DepthTree,
    root_computed: ComputedOutlineDepth,
    changed: bool,
    entity: usize,
)
    requires
        old(tree).wf(),
        entity < old(tree).nodes@.len(),
    ensures
        final(tree).nodes@ == old(tree).nodes@,
        final(tree).computed@.len() == old(tree).computed@.len(),
        forall|n: int|
            0 <= n < old(tree).nodes@.len() ==> final(tree).computed@[n] == (if prop_written(
                old(tree).nodes@,
                entity as int,
                changed,
                n,
            ) {
                root_computed
            } else {
                old(tree).computed@[n]
            }),
    decreases old(tree).nodes@.len() - entity,
{
    let ghost nodes = old(tree).nodes@;
    let ghost e = entity as int;
    let is_inh = match tree.nodes[entity].role {
        NodeRole::Inherit(_) => true,
        NodeRole::Root { .. } => false,
    };
    if !is_inh {
        proof {
            assert forall|n: int|
                0 <= n < nodes.len() implies !prop_written(nodes, e, changed, n) by {
                if n != e {
                    lemma_stop_at_root(nodes, e, n);
                }
            }
        }
        return ;
    }
    let mut flag = changed || tree.nodes[entity].role_changed;
    if flag {
        tree.computed.set(entity, root_computed);
    }
    flag = flag || tree.nodes[entity].children_changed;
    let num = tree.nodes[entity].children.len();
    let mut k: usize = 0;
    proof {
        assert forall|n: int|
            0 <= n < nodes.len() implies tree.computed@[n] == (if covered_upto(
            nodes,
            e,
            changed,
            0,
            n,
        ) {
            root_computed
        } else {
            old(tree).computed@[n]
        }) by {
            assert(!(exists|j: int|
                0 <= j < 0 && ((#[trigger] nodes[e].children@[j]) as int) < nodes.len()
                    && prop_written(
                    nodes,
                    nodes[e].children@[j] as int,
                    changed || nodes[e].role_changed || nodes[e].children_changed,
                    n,
                )));
        }
    }
    while k < num
        invariant
            old(tree).wf(),
            wf_nodes(nodes),
            tree.nodes@ == nodes,
            tree.computed@.len() == old(tree).computed@.len(),
            tree.computed@.len() == nodes.len(),
            e == entity as int,
            entity < nodes.len(),
            is_inheriting(nodes, e),
            num == nodes[e].children@.len(),
            k <= num,
            flag == (changed || nodes[e].role_changed || nodes[e].children_changed),
            forall|n: int|
                0 <= n < nodes.len() ==> tree.computed@[n] == (if covered_upto(
                    nodes,
                    e,
                    changed,
                    k as int,
                    n,
                ) {
                    root_computed
                } else {
                    old(tree).computed@[n]
                }),
        decreases num - k,
    {
        let ghost pre_loop = tree.computed@;
        let c = tree.nodes[entity].children[k];
        proof {
            assert(child_of(nodes, e, k as int, c as int));
            assert((c as int) > e);
        }
        if c < tree.nodes.len() {
            proof {
                assert(tree.wf());
            }
            propagate_outline_depth(tree, root_computed, flag, c);
            proof {
                lemma_merge_child(
                    nodes,
                    e,
                    k as int,
                    c as int,
                    changed,
                    pre_loop,
                    old(tree).computed@,
                    tree.computed@,
                    root_computed,
                );
            }
        } else {
            proof {
                assert forall|n: int|
                    0 <= n < nodes.len() implies covered_upto(nodes, e, changed, k + 1, n)
                    == covered_upto(nodes, e, changed, k as int, n) by {
                    if covered_upto(nodes, e, changed, k + 1, n) && !covered_upto(
                        nodes,
                        e,
                        changed,
                        k as int,
                        n,
                    ) {
                        let j = choose|j: int|
                            0 <= j < k + 1 && ((#[trigger] nodes[e].children@[j]) as int)
                                < nodes.len() && prop_written(
                                nodes,
                                nodes[e].children@[j] as int,
                                changed || nodes[e].role_changed || nodes[e].children_changed,
                                n,
                            );
                        assert(j == k as int);
                        assert(false);
                    }
                }
            }
        }
        k += 1;
    }
    proof {
        assert forall|n: int|
            0 <= n < nodes.len() implies covered_upto(nodes, e, changed, num as int, n)
            == prop_written(nodes, e, changed, n) by {
            lemma_covered_full(nodes, e, changed, n);
        }
    }
}

/// Once every child of an inheriting entry node has been handled, the
/// covered set is exactly the set `prop_written` describes for the entry.
proof fn lemma_covered_full(nodes: Seq<Node>, e: int, f0: bool, n: int)
    requires
        wf_nodes(nodes),
        0 <= e < nodes.len(),
        0 <= n < nodes.len(),
        is_inheriting(nodes, e),
    ensures
        covered_upto(nodes, e, f0, nodes[e].children@.len() as int, n) == prop_written(
            nodes,
            e,
            f0,
            n,
        ),
{
    let f1 = f0 || nodes[e].role_changed || nodes[e].children_changed;
    let hi = nodes[e].children@.len() as int;
    if covered_upto(nodes, e, f0, hi, n) {
        if n == e && (f0 || nodes[e].role_changed) {
            assert(prop_reached(nodes, e, e));
            assert(prop_flag(nodes, e, f0, e) == f0);
            assert(prop_written(nodes, e, f0, n));
        } else {
            let j = choose|j: int|
                0 <= j < hi && ((#[trigger] nodes[e].children@[j]) as int) < nodes.len()
                    && prop_written(nodes, nodes[e].children@[j] as int, f1, n);
            let c = nodes[e].children@[j] as int;
            assert(child_of(nodes, e, j, c));
            lemma_reach_up(nodes, e, j, c, n);
            lemma_flag_shift(nodes, e, j, c, f0, n);
            assert(prop_written(nodes, e, f0, n));
        }
    }
    if prop_written(nodes, e, f0, n) {
        if n == e {
            assert(prop_flag(nodes, e, f0, e) == f0);
            assert(covered_upto(nodes, e, f0, hi, n));
        } else {
            lemma_reach_down(nodes, e, n);
            let j = choose|j: int|
                0 <= j < nodes[e].children@.len() && ((#[trigger] nodes[e].children@[j]) as int)
                    < nodes.len() && prop_reached(nodes, nodes[e].children@[j] as int, n);
            let c = nodes[e].children@[j] as int;
            assert(child_of(nodes, e, j, c));
            lemma_flag_shift(nodes, e, j, c, f0, n);
            assert(prop_written(nodes, c, f1, n));
            assert(covered_upto(nodes, e, f0, hi, n));
        }
    }
}

/// Merging one child's propagation into the running covered set: after the
/// child at position `k` has been handled, the nodes holding the root value
/// are exactly those covered up to `k + 1`.
proof fn lemma_merge_child(
    nodes: Seq<Node>,
    e: int,
    k: int,
    c: int,
    f0: bool,
    before: Seq<ComputedOutlineDepth>,
    orig: Seq<ComputedOutlineDepth>,
    after: Seq<ComputedOutlineDepth>,
    root_computed: ComputedOutlineDepth,
)
    requires
        wf_nodes(nodes),
        0 <= e < nodes.len(),
        is_inheriting(nodes, e),
        child_of(nodes, e, k, c),
        0 <= c < nodes.len(),
        before.len() == nodes.len(),
        orig.len() == nodes.len(),
        after.len() == nodes.len(),
        forall|n: int|
            0 <= n < nodes.len() ==> before[n] == (if covered_upto(nodes, e, f0, k, n) {
                root_computed
            } else {
                orig[n]
            }),
        forall|n: int|
            0 <= n < nodes.len() ==> after[n] == (if prop_written(
                nodes,
                c,
                f0 || nodes[e].role_changed || nodes[e].children_changed,
                n,
            ) {
                root_computed
            } else {
                before[n]
            }),
    ensures
        forall|n: int|
            0 <= n < nodes.len() ==> after[n] == (if covered_upto(nodes, e, f0, k + 1, n) {
                root_computed
            } else {
                orig[n]
            }),
{
    let f1 = f0 || nodes[e].role_changed || nodes[e].children_changed;
    assert forall|n: int|
        0 <= n < nodes.len() implies after[n] == (if covered_upto(nodes, e, f0, k + 1, n) {
        root_computed
    } else {
        orig[n]
    }) by {
        if prop_written(nodes, c, f1, n) {
            assert(((#[trigger] nodes[e].children@[k]) as int) < nodes.len());
            assert(covered_upto(nodes, e, f0, k + 1, n));
            assert(after[n] == root_computed);
        } else if covered_upto(nodes, e, f0, k + 1, n) {
            if !covered_upto(nodes, e, f0, k, n) {
                if !(n == e && (f0 || nodes[e].role_changed)) {
                    let j = choose|j: int|
                        0 <= j < k + 1 && ((#[trigger] nodes[e].children@[j]) as int) < nodes.len()
                            && prop_written(nodes, nodes[e].children@[j] as int, f1, n);
                    assert(j == k);
                    assert(prop_written(nodes, c, f1, n));
                    assert(false);
                }
            }
            assert(after[n] == root_computed);
        } else {
            assert(!covered_upto(nodes, e, f0, k, n));
            assert(after[n] == orig[n]);
        }
    }
}

/// Whether the pass overwrites node `n` on behalf of root `r`, counting
/// only propagations entered through the first `hi` children of `r`.
pub open spec fn pass_written_upto(nodes: Seq<Node>, r: int, hi: int, n: int) -> bool {
    &&& 0 <= r < nodes.len()
    &&& is_root(nodes, r)
    &&& exists|j: int|
        0 <= j < hi && ((#[trigger] nodes[r].children@[j]) as int) < nodes.len() && prop_written(
            nodes,
            nodes[r].children@[j] as int,
            root_flag(nodes, r),
            n,
        )
}

/// Whether the pass overwrites node `n` on behalf of root `r`: the
/// propagation entered through one of `r`'s in-range children, carrying
/// `r`'s changed flag, reaches `n` with the flag raised.
pub open spec fn pass_written(nodes: Seq<Node>, r: int, n: int) -> bool {
    pass_written_upto(nodes, r, nodes[r].children@.len() as int, n)
}

/// What one pass does, relating the tree before (`pre`) to the tree after
/// (`post`):
/// - node inputs are untouched;
/// - every root node holds `root_result`: recomputed from its own transform
///   and policy when dirty, its previous value otherwise;
/// - every node the pass overwrites on behalf of a root holds that root's
///   `root_result`;
/// - every other inheriting node keeps its previous value.
pub open spec fn pass_post(pre: DepthTree, post: DepthTree) -> bool {
    &&& post.nodes@ == pre.nodes@
    &&& post.computed@.len() == pre.computed@.len()
    &&& forall|m: int|
        0 <= m < pre.nodes@.len() && is_root(pre.nodes@, m) ==> post.computed@[m] == root_result(
            pre.nodes@,
            pre.computed@,
            m,
        )
    &&& forall|r: int, q: int|
        0 <= r < pre.nodes@.len() && 0 <= q < pre.nodes@.len() && pass_written(pre.nodes@, r, q)
            ==> post.computed@[q] == root_result(pre.nodes@, pre.computed@, r)
    &&& forall|q: int|
        0 <= q < pre.nodes@.len() && is_inheriting(pre.nodes@, q) && !(exists|r: int|
            0 <= r < pre.nodes@.len() && #[trigger] pass_written(pre.nodes@, r, q)) ==> post.computed@[q]
            == pre.computed@[q]
}

/// A node that does not inherit is never overwritten by the pass.
proof fn lemma_no_pass_write(nodes: Seq<Node>, r: int, hi: int, m: int)
    requires
        !is_inheriting(nodes, m),
    ensures
        !pass_written_upto(nodes, r, hi, m),
{
    if pass_written_upto(nodes, r, hi, m) {
        let j = choose|j: int|
            0 <= j < hi && ((#[trigger] nodes[r].children@[j]) as int) < nodes.len()
                && prop_written(nodes, nodes[r].children@[j] as int, root_flag(nodes, r), m);
        assert(is_inheriting(nodes, m));
    }
}

/// Two different roots never overwrite the same node in one pass.
proof fn lemma_pass_disjoint(nodes: Seq<Node>, r: int, i: int, k: int, c: int, q: int)
    requires
        wf_nodes(nodes),
        0 <= q < nodes.len(),
        0 <= r < nodes.len(),
        0 <= i < nodes.len(),
        is_root(nodes, i),
        child_of(nodes, i, k, c),
        pass_written(nodes, r, q),
        prop_written(nodes, c, root_flag(nodes, i), q),
    ensures
        r == i,
{
    let hi = nodes[r].children@.len() as int;
    let j = choose|j: int|
        0 <= j < hi && ((#[trigger] nodes[r].children@[j]) as int) < nodes.len() && prop_written(
            nodes,
            nodes[r].children@[j] as int,
            root_flag(nodes, r),
            q,
        );
    let cr = nodes[r].children@[j] as int;
    assert(child_of(nodes, r, j, cr));
    lemma_entry_unique(nodes, r, j, cr, i, k, c, q);
}

/// One inner step of the resolver: after the propagation through root `i`'s
/// child at position `k`, the running pass clauses advance from `k` to
/// `k + 1` children handled.
proof fn lemma_pass_merge(
    nodes: Seq<Node>,
    i: int,
    k: int,
    c: int,
    pre: Seq<ComputedOutlineDepth>,
    before: Seq<ComputedOutlineDepth>,
    after: Seq<ComputedOutlineDepth>,
)
    requires
        wf_nodes(nodes),
        0 <= i < nodes.len(),
        is_root(nodes, i),
        child_of(nodes, i, k, c),
        0 <= c < nodes.len(),
        pre.len() == nodes.len(),
        before.len() == nodes.len(),
        after.len() == nodes.len(),
        forall|m: int|
            0 <= m < nodes.len() && is_root(nodes, m) ==> before[m] == (if m <= i {
                root_result(nodes, pre, m)
            } else {
                pre[m]
            }),
        forall|r: int, q: int|
            0 <= r < i && 0 <= q < nodes.len() && pass_written(nodes, r, q) ==> before[q]
                == root_result(nodes, pre, r),
        forall|q: int|
            0 <= q < nodes.len() && pass_written_upto(nodes, i, k, q) ==> before[q] == root_result(
                nodes,
                pre,
                i,
            ),
        forall|q: int|
            0 <= q < nodes.len() && is_inheriting(nodes, q) && !(exists|r: int|
                0 <= r < i && #[trigger] pass_written(nodes, r, q)) && !pass_written_upto(
                nodes,
                i,
                k,
                q,
            ) ==> before[q] == pre[q],
        forall|q: int|
            0 <= q < nodes.len() ==> after[q] == (if prop_written(
                nodes,
                c,
                root_flag(nodes, i),
                q,
            ) {
                root_result(nodes, pre, i)
            } else {
                before[q]
            }),
    ensures
        forall|m: int|
            0 <= m < nodes.len() && is_root(nodes, m) ==> after[m] == (if m <= i {
                root_result(nodes, pre, m)
            } else {
                pre[m]
            }),
        forall|r: int, q: int|
            0 <= r < i && 0 <= q < nodes.len() && pass_written(nodes, r, q) ==> after[q]
                == root_result(nodes, pre, r),
        forall|q: int|
            0 <= q < nodes.len() && pass_written_upto(nodes, i, k + 1, q) ==> after[q]
                == root_result(nodes, pre, i),
        forall|q: int|
            0 <= q < nodes.len() && is_inheriting(nodes, q) && !(exists|r: int|
                0 <= r < i && #[trigger] pass_written(nodes, r, q)) && !pass_written_upto(
                nodes,
                i,
                k + 1,
                q,
            ) ==> after[q] == pre[q],
{
    assert forall|m: int|
        0 <= m < nodes.len() && is_root(nodes, m) implies after[m] == (if m <= i {
        root_result(nodes, pre, m)
    } else {
        pre[m]
    }) by {
        if prop_written(nodes, c, root_flag(nodes, i), m) {
            assert(is_inheriting(nodes, m));
        }
    }
    assert forall|r: int, q: int|
        0 <= r < i && 0 <= q < nodes.len() && pass_written(nodes, r, q) implies after[q]
        == root_result(nodes, pre, r) by {
        if prop_written(nodes, c, root_flag(nodes, i), q) {
            lemma_pass_disjoint(nodes, r, i, k, c, q);
        }
    }
    assert forall|q: int|
        0 <= q < nodes.len() && pass_written_upto(nodes, i, k + 1, q) implies after[q]
        == root_result(nodes, pre, i) by {
        if !prop_written(nodes, c, root_flag(nodes, i), q) {
            let j = choose|j: int|
                0 <= j < k + 1 && ((#[trigger] nodes[i].children@[j]) as int) < nodes.len()
                    && prop_written(nodes, nodes[i].children@[j] as int, root_flag(nodes, i), q);
            if j == k {
                assert(false);
            } else {
                assert(pass_written_upto(nodes, i, k, q));
            }
        }
    }
    assert forall|q: int|
        0 <= q < nodes.len() && is_inheriting(nodes, q) && !(exists|r: int|
            0 <= r < i && #[trigger] pass_written(nodes, r, q)) && !pass_written_upto(
        nodes,
        i,
        k + 1,
        q,
    ) implies after[q] == pre[q] by {
        if prop_written(nodes, c, root_flag(nodes, i), q) {
            assert(((#[trigger] nodes[i].children@[k]) as int) < nodes.len());
            assert(pass_written_upto(nodes, i, k + 1, q));
            assert(false);
        }
        if pass_written_upto(nodes, i, k, q) {
            let j = choose|j: int|
                0 <= j < k && ((#[trigger] nodes[i].children@[j]) as int) < nodes.len()
                    && prop_written(nodes, nodes[i].children@[j] as int, root_flag(nodes, i), q);
            assert(pass_written_upto(nodes, i, k + 1, q));
            assert(false);
        }
    }
}

/// One pass of the engine over the whole tree: every root node without an
/// inherit marker re-resolves its own depth when its inputs changed, and
/// hands its value to the propagator for each of its children; `pass_post`
/// states exactly which cached values the pass replaces and with what.
pub fn compute_outline_depth(tree: &mut DepthTree)
    requires
        old(tree).wf(),
    ensures
        final(tree).wf(),
        pass_post(*old(tree), *final(tree)),
{
    let ghost nodes = old(tree).nodes@;
    let ghost pre = old(tree).computed@;
    let n = tree.nodes.len();
    let mut i: usize = 0;
    while i < n
        invariant
            old(tree).wf(),
            wf_nodes(nodes),
            tree.nodes@ == nodes,
            tree.computed@.len() == nodes.len(),
            n == nodes.len(),
            pre.len() == nodes.len(),
            i <= n,
            forall|m: int|
                0 <= m < nodes.len() && is_root(nodes, m) ==> tree.computed@[m] == (if m < i {
                    root_result(nodes, pre, m)
                } else {
                    pre[m]
                }),
            forall|r: int, q: int|
                0 <= r < i && 0 <= q < nodes.len() && pass_written(nodes, r, q) ==> tree.computed@[q]
                    == root_result(nodes, pre, r),
            forall|q: int|
                0 <= q < nodes.len() && is_inheriting(nodes, q) && !(exists|r: int|
                    0 <= r < i && #[trigger] pass_written(nodes, r, q)) ==> tree.computed@[q]
                    == pre[q],
        decreases n - i,
    {
        let is_root_node = match tree.nodes[i].role {
            NodeRole::Root { .. } => true,
            NodeRole::Inherit(_) => false,
        };
        if is_root_node {
            proof {
                assert(is_root(nodes, i as int));
            }
            let mut changed = tree.nodes[i].added || tree.nodes[i].transform_changed
                || tree.nodes[i].role_changed;
            proof {
                assert(changed == root_dirty(nodes, i as int));
            }
            if changed {
                let transform = tree.nodes[i].transform;
                let pol = match tree.nodes[i].role {
                    NodeRole::Root { policy } => policy,
                    NodeRole::Inherit(_) => None,
                };
                proof {
                    assert(pol == policy_of(nodes, i as int));
                }
                let val = resolve_depth(&transform, pol);
                tree.computed.set(i, val);
            }
            proof {
                assert(tree.computed@[i as int] == root_result(nodes, pre, i as int));
                assert forall|r: int, q: int|
                    0 <= r < i && 0 <= q < nodes.len() && pass_written(nodes, r, q) implies tree.computed@[q]
                    == root_result(nodes, pre, r) by {
                    lemma_no_pass_write(nodes, r, nodes[r].children@.len() as int, i as int);
                }
                assert forall|q: int|
                    0 <= q < nodes.len() && is_inheriting(nodes, q) && !(exists|r: int|
                        0 <= r < i && #[trigger] pass_written(nodes, r, q)) implies tree.computed@[q]
                    == pre[q] by {
                    assert(q != i as int);
                }
            }
            changed = changed || tree.nodes[i].children_changed;
            let root_val = tree.computed[i];
            let num = tree.nodes[i].children.len();
            let mut k: usize = 0;
            proof {
                assert(changed == root_flag(nodes, i as int));
                assert(root_val == root_result(nodes, pre, i as int));
                assert forall|q: int|
                    0 <= q < nodes.len() && pass_written_upto(nodes, i as int, 0, q) implies false by {
                    let j = choose|j: int|
                        0 <= j < 0 && ((#[trigger] nodes[i as int].children@[j]) as int)
                            < nodes.len() && prop_written(
                            nodes,
                            nodes[i as int].children@[j] as int,
                            root_flag(nodes, i as int),
                            q,
                        );
                }
            }
            while k < num
                invariant
                    old(tree).wf(),
                    wf_nodes(nodes),
                    tree.nodes@ == nodes,
                    tree.computed@.len() == nodes.len(),
                    n == nodes.len(),
                    pre.len() == nodes.len(),
                    i < n,
                    is_root(nodes, i as int),
                    changed == root_flag(nodes, i as int),
                    root_val == root_result(nodes, pre, i as int),
                    num == nodes[i as int].children@.len(),
                    k <= num,
                    forall|m: int|
                        0 <= m < nodes.len() && is_root(nodes, m) ==> tree.computed@[m] == (if m
                            <= i {
                            root_result(nodes, pre, m)
                        } else {
                            pre[m]
                        }),
                    forall|r: int, q: int|
                        0 <= r < i && 0 <= q < nodes.len() && pass_written(nodes, r, q)
                            ==> tree.computed@[q] == root_result(nodes, pre, r),
                    forall|q: int|
                        0 <= q < nodes.len() && pass_written_upto(nodes, i as int, k as int, q)
                            ==> tree.computed@[q] == root_result(nodes, pre, i as int),
                    forall|q: int|
                        0 <= q < nodes.len() && is_inheriting(nodes, q) && !(exists|r: int|
                            0 <= r < i && #[trigger] pass_written(nodes, r, q))
                            && !pass_written_upto(nodes, i as int, k as int, q) ==> tree.computed@[q]
                            == pre[q],
                decreases num - k,
            {
                let ghost before = tree.computed@;
                let c = tree.nodes[i].children[k];
                proof {
                    assert(child_of(nodes, i as int, k as int, c as int));
                }
                if c < tree.nodes.len() {
                    proof {
                        assert((c as int) > i as int);
                        assert(tree.wf());
                    }
                    propagate_outline_depth(tree, root_val, changed, c);
                    proof {
                        lemma_pass_merge(
                            nodes,
                            i as int,
                            k as int,
                            c as int,
                            pre,
                            before,
                            tree.computed@,
                        );
                    }
                } else {
                    proof {
                        assert forall|q: int|
                            0 <= q < nodes.len() && pass_written_upto(
                                nodes,
                                i as int,
                                k + 1,
                                q,
                            ) implies tree.computed@[q] == root_result(nodes, pre, i as int) by {
                            let j = choose|j: int|
                                0 <= j < k + 1 && ((#[trigger] nodes[i as int].children@[j]) as int)
                                    < nodes.len() && prop_written(
                                    nodes,
                                    nodes[i as int].children@[j] as int,
                                    root_flag(nodes, i as int),
                                    q,
                                );
                            assert(j != k);
                            assert(pass_written_upto(nodes, i as int, k as int, q));
                        }
                        assert forall|q: int|
                            0 <= q < nodes.len() && is_inheriting(nodes, q) && !(exists|r: int|
                                0 <= r < i && #[trigger] pass_written(nodes, r, q))
                                && !pass_written_upto(nodes, i as int, k + 1, q) implies tree.computed@[q]
                            == pre[q] by {
                            if pass_written_upto(nodes, i as int, k as int, q) {
                                let j = choose|j: int|
                                    0 <= j < k && ((#[trigger] nodes[i as int].children@[j]) as int)
                                        < nodes.len() && prop_written(
                                        nodes,
                                        nodes[i as int].children@[j] as int,
                                        root_flag(nodes, i as int),
                                        q,
                                    );
                                assert(pass_written_upto(nodes, i as int, k + 1, q));
                                assert(false);
                            }
                        }
                    }
                }
                k += 1;
            }
            proof {
                assert(num as int == nodes[i as int].children@.len() as int);
                assert forall|q: int|
                    0 <= q < nodes.len() && pass_written(nodes, i as int, q) implies tree.computed@[q]
                    == root_result(nodes, pre, i as int) by {
                    assert(pass_written_upto(nodes, i as int, num as int, q));
                }
                assert forall|q: int|
                    0 <= q < nodes.len() && is_inheriting(nodes, q) && !(exists|r: int|
                        0 <= r < i + 1 && #[trigger] pass_written(nodes, r, q)) implies tree.computed@[q]
                    == pre[q] by {
                    assert(!pass_written(nodes, i as int, q));
                    assert(!pass_written_upto(nodes, i as int, num as int, q));
                }
                assert forall|r: int, q: int|
                    0 <= r < i + 1 && 0 <= q < nodes.len() && pass_written(nodes, r, q) implies tree.computed@[q]
                    == root_result(nodes, pre, r) by {
                }
            }
        } else {
            proof {
                assert forall|q: int|
                    0 <= q < nodes.len() && is_inheriting(nodes, q) && !(exists|r: int|
                        0 <= r < i + 1 && #[trigger] pass_written(nodes, r, q)) implies tree.computed@[q]
                    == pre[q] by {
                }
                assert forall|r: int, q: int|
                    0 <= r < i + 1 && 0 <= q < nodes.len() && pass_written(nodes, r, q) implies tree.computed@[q]
                    == root_result(nodes, pre, r) by {
                    if r == i as int {
                        assert(is_root(nodes, r));
                        assert(false);
                    }
                }
            }
        }
        i += 1;
    }
}

} // verus!
