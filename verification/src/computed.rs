//! The per-node data model: the cached depth value, the optional depth
//! policy, the inherit marker, and the resolution of a root node's depth
//! from its world transform and policy.

use vstd::prelude::*;
use bevy::math::Mat4;
use bevy::math::Vec3;
use crate::math::is_undefined_point;
use crate::math::is_zero_point;
use crate::math::project_of;
use crate::math::project_point;
use crate::math::the_undefined_point;
use crate::math::the_zero_point;
use crate::math::undefined_point;
use crate::math::zero_point;

verus! {

/// How the consumer of a computed depth value should derive depth.
#[derive(Clone, Copy, Debug, PartialEq, Eq, Structural)]
pub enum DepthMode {
    /// A single camera-facing plane through the stored world origin.
    Flat,
    /// True per-fragment depth; the stored world origin is unusable.
    Real,
}

/// The cached result of depth computation for one node: a world-space
/// reference point together with the mode that tells the consumer how to
/// interpret it. The two fields are always written together.
#[derive(Clone, Copy, Debug)]
pub struct ComputedOutlineDepth {
    /// World-space reference point. Meaningful only in `Flat` mode; in
    /// `Real` mode it carries the undefined sentinel and must be ignored.
    pub world_origin: Vec3,
    /// How the consumer should derive depth for this node.
    pub depth_mode: DepthMode,
}

/// Optional per-node annotation choosing how the node's own depth is
/// computed. A node without one (and without an inherit marker) defaults to
/// a flat plane through its own local origin.
#[derive(Clone, Copy, Debug)]
#[non_exhaustive]
pub enum SetOutlineDepth {
    /// A flat plane facing the camera through the given model-space point.
    Flat {
        /// The reference point, in the node's local model space.
        model_origin: Vec3,
    },
    /// Real model-space depth; no single reference point exists.
    Real,
}

/// Zero-sized marker: the node copies its depth from the nearest ancestor
/// that resolves its own depth.
#[derive(Clone, Copy, Debug, Default)]
pub struct InheritOutlineDepth;

/// The depth value a root node resolves to, as a function of its world
/// transform and its optional policy annotation:
/// - `Flat { model_origin }`: the model origin projected through the
///   transform, in `Flat` mode;
/// - `Real`: the undefined sentinel projected through the transform, in
///   `Real` mode;
/// - no annotation: the local zero point projected through the transform,
///   in `Flat` mode.
pub open spec fn resolved_depth(m: Mat4, policy: Option<SetOutlineDepth>) -> ComputedOutlineDepth {
    match policy {
        Some(SetOutlineDepth::Flat { model_origin }) => (ComputedOutlineDepth {
            world_origin: project_of(m, model_origin),
            depth_mode: DepthMode::Flat,
        }),
        Some(SetOutlineDepth::Real) => (ComputedOutlineDepth {
            world_origin: project_of(m, the_undefined_point()),
            depth_mode: DepthMode::Real,
        }),
        None => (ComputedOutlineDepth {
            world_origin: project_of(m, the_zero_point()),
            depth_mode: DepthMode::Flat,
        }),
    }
}

/// Resolves a root node's depth value from its world transform and its
/// optional policy annotation, exactly as `resolved_depth` states.
pub fn resolve_depth(transform: &Mat4, policy: Option<SetOutlineDepth>) -> (r:
    ComputedOutlineDepth)
    ensures
        r == resolved_depth(*transform, policy),
{
    match policy {
        Some(SetOutlineDepth::Flat { model_origin }) => {
            let w = project_point(transform, model_origin);
            ComputedOutlineDepth { world_origin: w, depth_mode: DepthMode::Flat }
        },
        Some(SetOutlineDepth::Real) => {
            let u = undefined_point();
            proof {
                assert(exists|v: Vec3| is_undefined_point(v));
                assert(is_undefined_point(the_undefined_point()));
                assert(the_undefined_point() == u);
            }
            let w = project_point(transform, u);
            ComputedOutlineDepth { world_origin: w, depth_mode: DepthMode::Real }
        },
        None => {
            let z = zero_point();
            proof {
                assert(exists|v: Vec3| is_zero_point(v));
                assert(is_zero_point(the_zero_point()));
                assert(the_zero_point() == z);
            }
            let w = project_point(transform, z);
            ComputedOutlineDepth { world_origin: w, depth_mode: DepthMode::Flat }
        },
    }
}

/// The depth value a node carries before any pass has visited it: the world
/// zero point in `Flat` mode.
pub fn default_depth() -> (r: ComputedOutlineDepth)
    ensures
        r.depth_mode == DepthMode::Flat,
        is_zero_point(r.world_origin),
{
    let z = zero_point();
    ComputedOutlineDepth { world_origin: z, depth_mode: DepthMode::Flat }
}

} // verus!
