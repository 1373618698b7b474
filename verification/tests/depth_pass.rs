use bevy::math::Mat4;
use bevy::math::Vec3;
use outline_depth::compute_outline_depth;
use outline_depth::default_depth;
use outline_depth::resolve_depth;
use outline_depth::DepthMode;
use outline_depth::DepthTree;
use outline_depth::InheritOutlineDepth;
use outline_depth::NodeRole;
use outline_depth::SetOutlineDepth;

fn flat_root(origin: Vec3) -> NodeRole {
    NodeRole::Root { policy: Some(SetOutlineDepth::Flat { model_origin: origin }) }
}

fn plain_root() -> NodeRole {
    NodeRole::Root { policy: None }
}

fn real_root() -> NodeRole {
    NodeRole::Root { policy: Some(SetOutlineDepth::Real) }
}

fn inherit() -> NodeRole {
    NodeRole::Inherit(InheritOutlineDepth)
}

fn origin_bits(tree: &DepthTree, i: usize) -> (u32, u32, u32) {
    let v = tree.computed[i].world_origin;
    (v.x.to_bits(), v.y.to_bits(), v.z.to_bits())
}

#[test]
fn flat_policy_projects_model_origin() {
    let mut tree = DepthTree::new();
    let r = tree.push_node(
        Mat4::from_translation(Vec3::new(5.0, 0.0, 0.0)),
        flat_root(Vec3::new(1.0, 0.0, 0.0)),
    );
    let c = tree.push_node(Mat4::IDENTITY, inherit());
    tree.attach_child(r, c);
    compute_outline_depth(&mut tree);
    assert_eq!(tree.computed[r].world_origin, Vec3::new(6.0, 0.0, 0.0));
    assert_eq!(tree.computed[r].depth_mode, DepthMode::Flat);
    assert_eq!(tree.computed[c].world_origin, Vec3::new(6.0, 0.0, 0.0));
    assert_eq!(tree.computed[c].depth_mode, DepthMode::Flat);
}

#[test]
fn missing_policy_defaults_to_flat_at_local_origin() {
    let mut tree = DepthTree::new();
    let r = tree.push_node(Mat4::from_translation(Vec3::new(5.0, -2.0, 3.0)), plain_root());
    compute_outline_depth(&mut tree);
    assert_eq!(tree.computed[r].world_origin, Vec3::new(5.0, -2.0, 3.0));
    assert_eq!(tree.computed[r].depth_mode, DepthMode::Flat);
}

#[test]
fn real_policy_sets_sentinel_and_propagates_mode() {
    let mut tree = DepthTree::new();
    let r = tree.push_node(Mat4::from_translation(Vec3::new(1.0, 2.0, 3.0)), real_root());
    let c = tree.push_node(Mat4::IDENTITY, inherit());
    let g = tree.push_node(Mat4::IDENTITY, inherit());
    tree.attach_child(r, c);
    tree.attach_child(c, g);
    compute_outline_depth(&mut tree);
    assert_eq!(tree.computed[r].depth_mode, DepthMode::Real);
    assert_eq!(tree.computed[c].depth_mode, DepthMode::Real);
    assert_eq!(tree.computed[g].depth_mode, DepthMode::Real);
    assert!(tree.computed[r].world_origin.x.is_nan());
    assert!(tree.computed[c].world_origin.x.is_nan());
    assert!(tree.computed[g].world_origin.x.is_nan());
}

#[test]
fn second_pass_with_no_changes_is_bit_identical() {
    let mut tree = DepthTree::new();
    let r1 = tree.push_node(Mat4::from_translation(Vec3::new(4.0, 0.0, 0.0)), flat_root(Vec3::ZERO));
    let r2 = tree.push_node(Mat4::IDENTITY, real_root());
    let c1 = tree.push_node(Mat4::IDENTITY, inherit());
    let c2 = tree.push_node(Mat4::IDENTITY, inherit());
    tree.attach_child(r1, c1);
    tree.attach_child(r2, c2);
    compute_outline_depth(&mut tree);
    tree.clear_change_flags();
    let before: Vec<(u32, u32, u32)> = (0..tree.nodes.len()).map(|i| origin_bits(&tree, i)).collect();
    let modes: Vec<DepthMode> = (0..tree.nodes.len()).map(|i| tree.computed[i].depth_mode).collect();
    compute_outline_depth(&mut tree);
    for i in 0..tree.nodes.len() {
        assert_eq!(origin_bits(&tree, i), before[i]);
        assert_eq!(tree.computed[i].depth_mode, modes[i]);
    }
}

#[test]
fn new_child_under_settled_root_receives_value() {
    let mut tree = DepthTree::new();
    let r = tree.push_node(
        Mat4::from_translation(Vec3::new(7.0, 0.0, 0.0)),
        flat_root(Vec3::new(0.0, 1.0, 0.0)),
    );
    compute_outline_depth(&mut tree);
    tree.clear_change_flags();
    let c = tree.push_node(Mat4::IDENTITY, inherit());
    tree.attach_child(r, c);
    compute_outline_depth(&mut tree);
    assert_eq!(tree.computed[c].world_origin, Vec3::new(7.0, 1.0, 0.0));
    assert_eq!(tree.computed[c].depth_mode, DepthMode::Flat);
    assert_eq!(tree.computed[r].world_origin, Vec3::new(7.0, 1.0, 0.0));
}

#[test]
fn nested_root_is_not_overwritten_by_outer_root() {
    let mut tree = DepthTree::new();
    let outer = tree.push_node(Mat4::from_translation(Vec3::new(1.0, 0.0, 0.0)), plain_root());
    let nested = tree.push_node(
        Mat4::from_translation(Vec3::new(2.0, 0.0, 0.0)),
        flat_root(Vec3::new(0.0, 0.0, 4.0)),
    );
    let below = tree.push_node(Mat4::IDENTITY, inherit());
    tree.attach_child(outer, nested);
    tree.attach_child(nested, below);
    compute_outline_depth(&mut tree);
    tree.clear_change_flags();
    tree.nodes[outer].transform = Mat4::from_translation(Vec3::new(9.0, 9.0, 9.0));
    tree.nodes[outer].transform_changed = true;
    compute_outline_depth(&mut tree);
    assert_eq!(tree.computed[outer].world_origin, Vec3::new(9.0, 9.0, 9.0));
    assert_eq!(tree.computed[nested].world_origin, Vec3::new(2.0, 0.0, 4.0));
    assert_eq!(tree.computed[below].world_origin, Vec3::new(2.0, 0.0, 4.0));
}

#[test]
fn unrelated_subtree_is_untouched() {
    let mut tree = DepthTree::new();
    let r1 = tree.push_node(Mat4::IDENTITY, plain_root());
    let r2 = tree.push_node(Mat4::from_translation(Vec3::new(3.0, 0.0, 0.0)), plain_root());
    let c2 = tree.push_node(Mat4::IDENTITY, inherit());
    tree.attach_child(r2, c2);
    compute_outline_depth(&mut tree);
    tree.clear_change_flags();
    let r2_bits = origin_bits(&tree, r2);
    let c2_bits = origin_bits(&tree, c2);
    tree.nodes[r1].transform = Mat4::from_translation(Vec3::new(8.0, 8.0, 8.0));
    tree.nodes[r1].transform_changed = true;
    compute_outline_depth(&mut tree);
    assert_eq!(origin_bits(&tree, r2), r2_bits);
    assert_eq!(origin_bits(&tree, c2), c2_bits);
    assert_eq!(tree.computed[r1].world_origin, Vec3::new(8.0, 8.0, 8.0));
}

#[test]
fn inheriting_chain_equals_nearest_root() {
    let mut tree = DepthTree::new();
    let r = tree.push_node(
        Mat4::from_translation(Vec3::new(0.0, 0.0, 2.0)),
        flat_root(Vec3::new(1.0, 1.0, 1.0)),
    );
    let c1 = tree.push_node(Mat4::IDENTITY, inherit());
    let c2 = tree.push_node(Mat4::IDENTITY, inherit());
    tree.attach_child(r, c1);
    tree.attach_child(c1, c2);
    compute_outline_depth(&mut tree);
    assert_eq!(tree.computed[c1].world_origin, tree.computed[r].world_origin);
    assert_eq!(tree.computed[c2].world_origin, tree.computed[r].world_origin);
    assert_eq!(tree.computed[r].world_origin, Vec3::new(1.0, 1.0, 3.0));
}

#[test]
fn marker_change_refreshes_single_node() {
    let mut tree = DepthTree::new();
    let r = tree.push_node(Mat4::from_translation(Vec3::new(6.0, 0.0, 0.0)), plain_root());
    let c = tree.push_node(Mat4::IDENTITY, inherit());
    tree.attach_child(r, c);
    compute_outline_depth(&mut tree);
    tree.clear_change_flags();
    tree.computed[c] = default_depth();
    assert_ne!(tree.computed[c].world_origin, tree.computed[r].world_origin);
    tree.nodes[c].role_changed = true;
    compute_outline_depth(&mut tree);
    assert_eq!(tree.computed[c].world_origin, Vec3::new(6.0, 0.0, 0.0));
}

#[test]
fn policy_removal_recomputes_as_default() {
    let mut tree = DepthTree::new();
    let r = tree.push_node(
        Mat4::from_translation(Vec3::new(2.0, 0.0, 0.0)),
        flat_root(Vec3::new(5.0, 5.0, 5.0)),
    );
    compute_outline_depth(&mut tree);
    tree.clear_change_flags();
    tree.nodes[r].role = NodeRole::Root { policy: None };
    tree.nodes[r].role_changed = true;
    compute_outline_depth(&mut tree);
    assert_eq!(tree.computed[r].world_origin, Vec3::new(2.0, 0.0, 0.0));
    assert_eq!(tree.computed[r].depth_mode, DepthMode::Flat);
}

#[test]
fn dangling_child_edge_is_skipped() {
    let mut tree = DepthTree::new();
    let r = tree.push_node(Mat4::IDENTITY, flat_root(Vec3::new(1.0, 2.0, 3.0)));
    let c = tree.push_node(Mat4::IDENTITY, inherit());
    tree.attach_child(r, c);
    tree.nodes[r].children.push(42);
    compute_outline_depth(&mut tree);
    assert_eq!(tree.computed[c].world_origin, Vec3::new(1.0, 2.0, 3.0));
}

#[test]
fn empty_tree_pass_is_a_no_op() {
    let mut tree = DepthTree::new();
    compute_outline_depth(&mut tree);
    assert_eq!(tree.nodes.len(), 0);
}

#[test]
fn resolve_depth_matches_policy() {
    let m = Mat4::from_translation(Vec3::new(10.0, 0.0, 0.0));
    let flat = resolve_depth(&m, Some(SetOutlineDepth::Flat { model_origin: Vec3::new(0.5, 0.0, 0.0) }));
    assert_eq!(flat.world_origin, Vec3::new(10.5, 0.0, 0.0));
    assert_eq!(flat.depth_mode, DepthMode::Flat);
    let real = resolve_depth(&m, Some(SetOutlineDepth::Real));
    assert_eq!(real.depth_mode, DepthMode::Real);
    assert!(real.world_origin.x.is_nan());
    let none = resolve_depth(&m, None);
    assert_eq!(none.world_origin, Vec3::new(10.0, 0.0, 0.0));
    assert_eq!(none.depth_mode, DepthMode::Flat);
}

#[test]
fn default_depth_is_flat_at_world_zero() {
    let d = default_depth();
    assert_eq!(d.world_origin, Vec3::ZERO);
    assert_eq!(d.depth_mode, DepthMode::Flat);
}

#[test]
fn perspective_transform_applies_divide() {
    let m = Mat4::perspective_rh(std::f32::consts::FRAC_PI_2, 1.0, 0.1, 100.0);
    let p = Vec3::new(2.0, 2.0, -2.0);
    let r = resolve_depth(&m, Some(SetOutlineDepth::Flat { model_origin: p }));
    assert_eq!(r.world_origin, m.project_point3(p));
    assert_eq!(r.depth_mode, DepthMode::Flat);
}
