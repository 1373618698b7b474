//! Incremental computation of per-node outline depth values over a spatial
//! hierarchy: each root node derives its own world reference point and depth
//! mode from its world transform and an optional depth policy, and every
//! inheriting descendant receives a copy of the nearest ancestor root's value.

mod computed;
mod engine;
mod laws;
mod math;
mod tree;

pub use computed::ComputedOutlineDepth;
pub use computed::DepthMode;
pub use computed::InheritOutlineDepth;
pub use computed::SetOutlineDepth;
pub use computed::default_depth;
pub use computed::resolve_depth;
pub use computed::resolved_depth;
pub use engine::compute_outline_depth;
pub use engine::pass_post;
pub use engine::pass_written;
pub use engine::prop_flag;
pub use engine::prop_reached;
pub use engine::prop_written;
pub use laws::anchor_of;
pub use laws::lemma_child_list_change;
pub use laws::lemma_flat_default;
pub use laws::lemma_inheritance_nearest_root;
pub use laws::lemma_noop_stability;
pub use laws::lemma_pass_keeps_consistency;
pub use laws::lemma_real_sentinel;
pub use laws::lemma_root_independence;
pub use laws::lemma_shadowing;
pub use laws::in_subtree;
pub use laws::inherited_flag;
pub use laws::lemma_pass_result;
pub use laws::overwritten;
pub use laws::reached_from_root;
pub use laws::settled;
pub use tree::DepthTree;
pub use tree::Node;
pub use tree::NodeRole;
pub use tree::child_of;
pub use tree::has_parent;
pub use tree::is_inheriting;
pub use tree::is_root;
pub use tree::parent_of;
pub use tree::policy_of;
pub use tree::root_dirty;
pub use tree::root_flag;
pub use tree::root_result;
pub use tree::wf_nodes;
pub use math::is_undefined_point;
pub use math::is_zero_point;
pub use math::project_of;
pub use math::the_undefined_point;
pub use math::the_zero_point;
