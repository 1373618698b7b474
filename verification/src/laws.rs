//! The engine's guarantees, stated over the whole tree: which root a node
//! inherits from, when it is overwritten, and the laws a pass obeys —
//! independence of unrelated subtrees, inheritance from the nearest root,
//! shadowing by nested roots, and stability when nothing changed.

use vstd::prelude::*;
use crate::computed::DepthMode;
use crate::computed::SetOutlineDepth;
use crate::math::project_of;
use crate::math::the_undefined_point;
use crate::math::the_zero_point;
use crate::engine::pass_post;
use crate::engine::pass_written;
use crate::engine::prop_flag;
use crate::engine::prop_reached;
use crate::engine::prop_written;
use crate::engine::lemma_reach_above;
use crate::tree::DepthTree;
use crate::tree::Node;
use crate::tree::child_of;
use crate::tree::has_parent;
use crate::tree::is_inheriting;
use crate::tree::is_root;
use crate::tree::lemma_parent_below;
use crate::tree::lemma_parent_of;
use crate::tree::parent_of;
use crate::tree::policy_of;
use crate::tree::root_dirty;
use crate::tree::root_flag;
use crate::tree::root_result;
use crate::tree::wf_nodes;

verus! {

/// Whether the pass's propagation reaches node `n` from some root: `n`'s
/// parent is a root, or is an inheriting node the propagation reaches.
pub open spec fn reached_from_root(nodes: Seq<Node>, n: int) -> bool
    decreases n,
    when wf_nodes(nodes) && 0 <= n < nodes.len()
{
    has_parent(nodes, n) && {
        proof {
            lemma_parent_below(nodes, n);
        }
        let p = parent_of(nodes, n);
        is_root(nodes, p) || (is_inheriting(nodes, p) && reached_from_root(nodes, p))
    }
}

/// The nearest strict ancestor of `n` that is a root: the node whose value
/// `n` inherits. Meaningful when `reached_from_root` holds.
pub open spec fn anchor_of(nodes: Seq<Node>, n: int) -> int
    decreases n,
    when wf_nodes(nodes) && 0 <= n < nodes.len()
{
    if has_parent(nodes, n) {
        proof {
            lemma_parent_below(nodes, n);
        }
        let p = parent_of(nodes, n);
        if is_root(nodes, p) {
            p
        } else {
            anchor_of(nodes, p)
        }
    } else {
        -1
    }
}

/// The changed flag the pass carries into `n`: the flag its nearest root
/// hands to its children, accumulated with the role and child-list flags of
/// every inheriting node strictly between that root and `n`.
pub open spec fn inherited_flag(nodes: Seq<Node>, n: int) -> bool
    decreases n,
    when wf_nodes(nodes) && 0 <= n < nodes.len()
{
    if has_parent(nodes, n) {
        proof {
            lemma_parent_below(nodes, n);
        }
        let p = parent_of(nodes, n);
        if is_root(nodes, p) {
            root_flag(nodes, p)
        } else {
            inherited_flag(nodes, p) || nodes[p].role_changed || nodes[p].children_changed
        }
    } else {
        false
    }
}

/// Whether the pass overwrites node `n`: it is an inheriting node the
/// propagation reaches, and the flag carried into it — or its own role
/// flag — is raised.
pub open spec fn overwritten(nodes: Seq<Node>, n: int) -> bool {
    &&& 0 <= n < nodes.len()
    &&& is_inheriting(nodes, n)
    &&& reached_from_root(nodes, n)
    &&& (inherited_flag(nodes, n) || nodes[n].role_changed)
}

/// No change flag is raised anywhere in the arena.
pub open spec fn settled(nodes: Seq<Node>) -> bool {
    forall|m: int|
        0 <= m < nodes.len() ==> {
            &&& !(#[trigger] nodes[m]).added
            &&& !nodes[m].transform_changed
            &&& !nodes[m].role_changed
            &&& !nodes[m].children_changed
        }
}

/// Whether `n` lies in the subtree of `r`: it is `r` itself or a descendant
/// of `r` along the parent chain.
pub open spec fn in_subtree(nodes: Seq<Node>, r: int, n: int) -> bool
    decreases n,
    when wf_nodes(nodes) && 0 <= n < nodes.len()
{
    n == r || (has_parent(nodes, n) && {
        proof {
            lemma_parent_below(nodes, n);
        }
        in_subtree(nodes, r, parent_of(nodes, n))
    })
}

/// A node the pass overwrites on behalf of root `r` descends from `r`
/// through inheriting nodes, `r` is its nearest root ancestor, and the flag
/// the propagation carries into it is its inherited flag.
proof fn lemma_chain_global(nodes: Seq<Node>, r: int, j: int, c: int, n: int)
    requires
        wf_nodes(nodes),
        0 <= r < nodes.len(),
        0 <= n < nodes.len(),
        is_root(nodes, r),
        child_of(nodes, r, j, c),
        prop_reached(nodes, c, n),
    ensures
        reached_from_root(nodes, n),
        anchor_of(nodes, n) == r,
        inherited_flag(nodes, n) == prop_flag(nodes, c, root_flag(nodes, r), n),
    decreases n,
{
    lemma_reach_above(nodes, c, n);
    lemma_parent_of(nodes, r, j, c);
    if n == c {
        assert(has_parent(nodes, n));
        assert(parent_of(nodes, n) == r);
        assert(prop_flag(nodes, c, root_flag(nodes, r), c) == root_flag(nodes, r));
    } else {
        lemma_parent_below(nodes, n);
        let p = parent_of(nodes, n);
        lemma_chain_global(nodes, r, j, c, p);
        assert(is_inheriting(nodes, p));
        assert(prop_flag(nodes, c, root_flag(nodes, r), n) == (prop_flag(
            nodes,
            c,
            root_flag(nodes, r),
            p,
        ) || nodes[p].role_changed || nodes[p].children_changed));
    }
}

/// A node the propagation reaches has a chain entry: some in-range child of
/// its nearest root ancestor from which the propagation reaches it.
proof fn lemma_global_chain_exists(nodes: Seq<Node>, n: int)
    requires
        wf_nodes(nodes),
        0 <= n < nodes.len(),
        reached_from_root(nodes, n),
    ensures
        0 <= anchor_of(nodes, n) < nodes.len(),
        is_root(nodes, anchor_of(nodes, n)),
        exists|j: int|
            0 <= j < nodes[anchor_of(nodes, n)].children@.len() && ((#[trigger] nodes[anchor_of(
                nodes,
                n,
            )].children@[j]) as int) < nodes.len() && prop_reached(
                nodes,
                nodes[anchor_of(nodes, n)].children@[j] as int,
                n,
            ),
    decreases n,
{
    lemma_parent_below(nodes, n);
    let p = parent_of(nodes, n);
    let (cp, ck) = choose|cp: int, ck: int| child_of(nodes, cp, ck, n);
    if is_root(nodes, p) {
        assert(cp == p);
        assert(child_of(nodes, anchor_of(nodes, n), ck, n));
        assert(prop_reached(nodes, n, n));
        assert(0 <= ck < nodes[anchor_of(nodes, n)].children@.len() && ((nodes[anchor_of(
            nodes,
            n,
        )].children@[ck]) as int) < nodes.len() && prop_reached(
            nodes,
            nodes[anchor_of(nodes, n)].children@[ck] as int,
            n,
        ));
    } else {
        lemma_global_chain_exists(nodes, p);
        let a = anchor_of(nodes, p);
        let j = choose|j: int|
            0 <= j < nodes[a].children@.len() && ((#[trigger] nodes[a].children@[j]) as int)
                < nodes.len() && prop_reached(nodes, nodes[a].children@[j] as int, p);
        assert(anchor_of(nodes, n) == a);
        assert(prop_reached(nodes, nodes[a].children@[j] as int, n));
    }
}

/// A node overwritten on behalf of root `r` inherits from `r`: it is
/// reached, `r` is its nearest root ancestor, and its effective flag is up.
proof fn lemma_written_anchor(nodes: Seq<Node>, r: int, n: int)
    requires
        wf_nodes(nodes),
        0 <= n < nodes.len(),
        pass_written(nodes, r, n),
    ensures
        is_inheriting(nodes, n),
        reached_from_root(nodes, n),
        anchor_of(nodes, n) == r,
        inherited_flag(nodes, n) || nodes[n].role_changed,
{
    let hi = nodes[r].children@.len() as int;
    let j = choose|j: int|
        0 <= j < hi && ((#[trigger] nodes[r].children@[j]) as int) < nodes.len() && prop_written(
            nodes,
            nodes[r].children@[j] as int,
            root_flag(nodes, r),
            n,
        );
    let c = nodes[r].children@[j] as int;
    assert(child_of(nodes, r, j, c));
    lemma_chain_global(nodes, r, j, c, n);
}

/// A reached inheriting node is overwritten exactly when the pass writes it
/// on behalf of its nearest root ancestor.
proof fn lemma_overwritten_written(nodes: Seq<Node>, n: int)
    requires
        wf_nodes(nodes),
        0 <= n < nodes.len(),
        is_inheriting(nodes, n),
        reached_from_root(nodes, n),
    ensures
        0 <= anchor_of(nodes, n) < nodes.len(),
        is_root(nodes, anchor_of(nodes, n)),
        pass_written(nodes, anchor_of(nodes, n), n) == (inherited_flag(nodes, n)
            || nodes[n].role_changed),
{
    let a = anchor_of(nodes, n);
    lemma_global_chain_exists(nodes, n);
    let j = choose|j: int|
        0 <= j < nodes[a].children@.len() && ((#[trigger] nodes[a].children@[j]) as int)
            < nodes.len() && prop_reached(nodes, nodes[a].children@[j] as int, n);
    let c = nodes[a].children@[j] as int;
    assert(child_of(nodes, a, j, c));
    lemma_chain_global(nodes, a, j, c, n);
    if inherited_flag(nodes, n) || nodes[n].role_changed {
        assert(prop_written(nodes, c, root_flag(nodes, a), n));
        assert(pass_written(nodes, a, n));
    }
    if pass_written(nodes, a, n) {
        lemma_written_anchor(nodes, a, n);
    }
}

/// What one pass leaves at each node, in terms of the tree before it:
/// - a root node holds its `root_result`: freshly resolved from its own
///   transform and policy when dirty, its previous value otherwise;
/// - an overwritten inheriting node holds a copy of its nearest root
///   ancestor's `root_result`;
/// - every other node keeps its previous value.
pub proof fn lemma_pass_result(pre: DepthTree, post: DepthTree, n: int)
    requires
        pre.wf(),
        pass_post(pre, post),
        0 <= n < pre.nodes@.len(),
    ensures
        is_root(pre.nodes@, n) ==> post.computed@[n] == root_result(pre.nodes@, pre.computed@, n),
        overwritten(pre.nodes@, n) ==> {
            &&& 0 <= anchor_of(pre.nodes@, n) < pre.nodes@.len()
            &&& is_root(pre.nodes@, anchor_of(pre.nodes@, n))
            &&& post.computed@[n] == root_result(
                pre.nodes@,
                pre.computed@,
                anchor_of(pre.nodes@, n),
            )
        },
        !is_root(pre.nodes@, n) && !overwritten(pre.nodes@, n) ==> post.computed@[n]
            == pre.computed@[n],
{
    let nodes = pre.nodes@;
    if is_root(nodes, n) {
    } else {
        assert(is_inheriting(nodes, n));
        if overwritten(nodes, n) {
            lemma_overwritten_written(nodes, n);
            assert(pass_written(nodes, anchor_of(nodes, n), n));
        } else {
            assert forall|r: int|
                0 <= r < nodes.len() implies !#[trigger] pass_written(nodes, r, n) by {
                if pass_written(nodes, r, n) {
                    lemma_written_anchor(nodes, r, n);
                }
            }
        }
    }
}

/// The flag a root hands down is never lost on the way: if the nearest root
/// ancestor's own flag is up, so is the flag carried into the node.
proof fn lemma_anchor_flag(nodes: Seq<Node>, n: int)
    requires
        wf_nodes(nodes),
        0 <= n < nodes.len(),
        reached_from_root(nodes, n),
        root_flag(nodes, anchor_of(nodes, n)),
    ensures
        inherited_flag(nodes, n),
    decreases n,
{
    lemma_parent_below(nodes, n);
    let p = parent_of(nodes, n);
    if !is_root(nodes, p) {
        lemma_anchor_flag(nodes, p);
    }
}

/// Root independence: when every change in the tree is confined to the
/// subtree of root `r`, a pass alters no cached value outside that subtree.
pub proof fn lemma_root_independence(pre: DepthTree, post: DepthTree, r: int, n: int)
    requires
        pre.wf(),
        pass_post(pre, post),
        0 <= n < pre.nodes@.len(),
        !in_subtree(pre.nodes@, r, n),
        forall|m: int|
            0 <= m < pre.nodes@.len() && !in_subtree(pre.nodes@, r, m) ==> {
                &&& !(#[trigger] pre.nodes@[m]).added
                &&& !pre.nodes@[m].transform_changed
                &&& !pre.nodes@[m].role_changed
                &&& !pre.nodes@[m].children_changed
            },
    ensures
        post.computed@[n] == pre.computed@[n],
{
    let nodes = pre.nodes@;
    lemma_pass_result(pre, post, n);
    if is_root(nodes, n) {
        assert(!root_dirty(nodes, n));
    } else if overwritten(nodes, n) {
        lemma_outside_flag_down(nodes, r, n);
        assert(false);
    }
}

/// Outside the subtree of `r`, with all changes confined to that subtree,
/// no node's inherited flag is raised.
proof fn lemma_outside_flag_down(nodes: Seq<Node>, r: int, n: int)
    requires
        wf_nodes(nodes),
        0 <= n < nodes.len(),
        !in_subtree(nodes, r, n),
        reached_from_root(nodes, n),
        forall|m: int|
            0 <= m < nodes.len() && !in_subtree(nodes, r, m) ==> {
                &&& !(#[trigger] nodes[m]).added
                &&& !nodes[m].transform_changed
                &&& !nodes[m].role_changed
                &&& !nodes[m].children_changed
            },
    ensures
        !inherited_flag(nodes, n),
    decreases n,
{
    lemma_parent_below(nodes, n);
    let p = parent_of(nodes, n);
    assert(!in_subtree(nodes, r, p));
    if !is_root(nodes, p) {
        lemma_outside_flag_down(nodes, r, p);
    }
}

/// Inheritance equals nearest root: after a pass over a tree whose clean
/// inheriting nodes already carried their nearest root ancestor's value,
/// every reached inheriting node carries its nearest root ancestor's value.
pub proof fn lemma_inheritance_nearest_root(pre: DepthTree, post: DepthTree, n: int)
    requires
        pre.wf(),
        pass_post(pre, post),
        0 <= n < pre.nodes@.len(),
        is_inheriting(pre.nodes@, n),
        reached_from_root(pre.nodes@, n),
        forall|m: int|
            0 <= m < pre.nodes@.len() && is_inheriting(pre.nodes@, m) && reached_from_root(
                pre.nodes@,
                m,
            ) && !overwritten(pre.nodes@, m) ==> pre.computed@[m] == pre.computed@[anchor_of(
                pre.nodes@,
                m,
            )],
    ensures
        post.computed@[n] == post.computed@[anchor_of(pre.nodes@, n)],
{
    let nodes = pre.nodes@;
    let a = anchor_of(nodes, n);
    lemma_global_chain_exists(nodes, n);
    lemma_pass_result(pre, post, n);
    lemma_pass_result(pre, post, a);
    if !overwritten(nodes, n) {
        assert(!inherited_flag(nodes, n));
        if root_flag(nodes, a) {
            lemma_anchor_flag(nodes, n);
        }
        assert(!root_dirty(nodes, a));
        assert(post.computed@[a] == pre.computed@[a]);
        assert(post.computed@[n] == pre.computed@[n]);
    }
}

/// The inheritance invariant maintains itself: a pass over a tree whose
/// clean inheriting nodes already carried their nearest root ancestor's
/// value leaves every reached inheriting node carrying its nearest root
/// ancestor's value — so the hypothesis holds again for the next pass.
pub proof fn lemma_pass_keeps_consistency(pre: DepthTree, post: DepthTree)
    requires
        pre.wf(),
        pass_post(pre, post),
        forall|m: int|
            0 <= m < pre.nodes@.len() && is_inheriting(pre.nodes@, m) && reached_from_root(
                pre.nodes@,
                m,
            ) && !overwritten(pre.nodes@, m) ==> pre.computed@[m] == pre.computed@[anchor_of(
                pre.nodes@,
                m,
            )],
    ensures
        forall|n: int|
            0 <= n < pre.nodes@.len() && is_inheriting(pre.nodes@, n) && reached_from_root(
                pre.nodes@,
                n,
            ) ==> post.computed@[n] == post.computed@[anchor_of(pre.nodes@, n)],
{
    assert forall|n: int|
        0 <= n < pre.nodes@.len() && is_inheriting(pre.nodes@, n) && reached_from_root(
        pre.nodes@,
        n,
    ) implies post.computed@[n] == post.computed@[anchor_of(pre.nodes@, n)] by {
        lemma_inheritance_nearest_root(pre, post, n);
    }
}

/// Shadowing: a root node whose own inputs did not change keeps its value
/// across a pass, whatever changed elsewhere — in particular a nested root
/// is never overwritten by propagation from an outer root.
pub proof fn lemma_shadowing(pre: DepthTree, post: DepthTree, n: int)
    requires
        pre.wf(),
        pass_post(pre, post),
        0 <= n < pre.nodes@.len(),
        is_root(pre.nodes@, n),
        !root_dirty(pre.nodes@, n),
    ensures
        post.computed@[n] == pre.computed@[n],
{
    lemma_pass_result(pre, post, n);
}

/// Stability: a pass over a settled tree — no flag raised anywhere — leaves
/// every cached value exactly as it was.
pub proof fn lemma_noop_stability(pre: DepthTree, post: DepthTree)
    requires
        pre.wf(),
        pass_post(pre, post),
        settled(pre.nodes@),
    ensures
        forall|n: int| 0 <= n < pre.nodes@.len() ==> post.computed@[n] == pre.computed@[n],
{
    let nodes = pre.nodes@;
    assert forall|n: int|
        0 <= n < nodes.len() implies post.computed@[n] == pre.computed@[n] by {
        lemma_pass_result(pre, post, n);
        if overwritten(nodes, n) {
            lemma_settled_flag_down(nodes, n);
            assert(false);
        }
    }
}

/// In a settled tree no node's inherited flag is raised.
proof fn lemma_settled_flag_down(nodes: Seq<Node>, n: int)
    requires
        wf_nodes(nodes),
        0 <= n < nodes.len(),
        reached_from_root(nodes, n),
        settled(nodes),
    ensures
        !inherited_flag(nodes, n),
    decreases n,
{
    lemma_parent_below(nodes, n);
    let p = parent_of(nodes, n);
    if !is_root(nodes, p) {
        lemma_settled_flag_down(nodes, p);
    }
}

/// Flat default: a dirty root without a policy annotation resolves to
/// `Flat` mode with the world origin at its transform applied to the local
/// zero point.
pub proof fn lemma_flat_default(pre: DepthTree, post: DepthTree, a: int)
    requires
        pre.wf(),
        pass_post(pre, post),
        0 <= a < pre.nodes@.len(),
        is_root(pre.nodes@, a),
        root_dirty(pre.nodes@, a),
        policy_of(pre.nodes@, a) is None,
    ensures
        post.computed@[a].depth_mode == DepthMode::Flat,
        post.computed@[a].world_origin == project_of(pre.nodes@[a].transform, the_zero_point()),
{
    lemma_pass_result(pre, post, a);
}

/// Real sentinel propagates: a dirty root with the `Real` policy resolves
/// to `Real` mode with the undefined sentinel as origin, and every
/// inheriting node overwritten on its behalf receives the identical value —
/// the same mode and the same sentinel.
pub proof fn lemma_real_sentinel(pre: DepthTree, post: DepthTree, a: int, n: int)
    requires
        pre.wf(),
        pass_post(pre, post),
        0 <= a < pre.nodes@.len(),
        is_root(pre.nodes@, a),
        root_dirty(pre.nodes@, a),
        policy_of(pre.nodes@, a) == Some(SetOutlineDepth::Real),
        0 <= n < pre.nodes@.len(),
        overwritten(pre.nodes@, n),
        anchor_of(pre.nodes@, n) == a,
    ensures
        post.computed@[a].depth_mode == DepthMode::Real,
        post.computed@[a].world_origin == project_of(
            pre.nodes@[a].transform,
            the_undefined_point(),
        ),
        post.computed@[n] == post.computed@[a],
{
    lemma_pass_result(pre, post, a);
    lemma_pass_result(pre, post, n);
}

/// Child-list change triggers re-propagation: under a root whose own result
/// did not change but whose child list did, every reached inheriting node
/// anchored at it — a freshly attached child in particular — receives the
/// root's current value.
pub proof fn lemma_child_list_change(pre: DepthTree, post: DepthTree, a: int, n: int)
    requires
        pre.wf(),
        pass_post(pre, post),
        0 <= a < pre.nodes@.len(),
        is_root(pre.nodes@, a),
        !root_dirty(pre.nodes@, a),
        pre.nodes@[a].children_changed,
        0 <= n < pre.nodes@.len(),
        is_inheriting(pre.nodes@, n),
        reached_from_root(pre.nodes@, n),
        anchor_of(pre.nodes@, n) == a,
    ensures
        post.computed@[n] == pre.computed@[a],
        post.computed@[a] == pre.computed@[a],
{
    let nodes = pre.nodes@;
    assert(root_flag(nodes, a));
    lemma_anchor_flag(nodes, n);
    assert(overwritten(nodes, n));
    lemma_pass_result(pre, post, a);
    lemma_pass_result(pre, post, n);
}

} // verus!
