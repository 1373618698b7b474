//! Trusted interface to the math crate: the point and matrix types and the
//! single projection operation the depth engine relies on.

use vstd::prelude::*;
use bevy::math::Mat4;
use bevy::math::Vec3;

verus! {

#[verifier::external_type_specification]
#[verifier::external_body]
pub struct ExVec3(Vec3);

#[verifier::external_type_specification]
#[verifier::external_body]
pub struct ExMat4(Mat4);

/// The point obtained by projecting `p` through `m`: a full affine (or
/// projective, including the perspective divide) application of the matrix.
/// The result is a function of the matrix and the point alone.
pub uninterp spec fn project_of(m: Mat4, p: Vec3) -> Vec3;

/// Relies on `bevy::math::Mat4::project_point3`: projects a point through the
/// matrix, translation and perspective divide included; deterministic in its
/// two arguments.
#[verifier::external_body]
pub fn project_point(m: &Mat4, p: Vec3) -> (r: Vec3)
    ensures
        r == project_of(*m, p),
{
    m.project_point3(p)
}

/// Holds exactly of the all-zero vector.
pub uninterp spec fn is_zero_point(v: Vec3) -> bool;

/// The all-zero vector, as a spec-level value.
pub open spec fn the_zero_point() -> Vec3 {
    choose|v: Vec3| is_zero_point(v)
}

/// Relies on `bevy::math::Vec3::ZERO`: a single constant value, the vector
/// with every component zero.
#[verifier::external_body]
pub fn zero_point() -> (r: Vec3)
    ensures
        is_zero_point(r),
        forall|v: Vec3| is_zero_point(v) ==> v == r,
{
    Vec3::ZERO
}

/// Holds exactly of the undefined-point sentinel.
pub uninterp spec fn is_undefined_point(v: Vec3) -> bool;

/// The undefined-point sentinel, as a spec-level value.
pub open spec fn the_undefined_point() -> Vec3 {
    choose|v: Vec3| is_undefined_point(v)
}

/// Relies on `bevy::math::Vec3::NAN`: a single constant value, the vector
/// with every component NaN, used as the "no meaningful point" sentinel.
#[verifier::external_body]
pub fn undefined_point() -> (r: Vec3)
    ensures
        is_undefined_point(r),
        forall|v: Vec3| is_undefined_point(v) ==> v == r,
{
    Vec3::NAN
}

} // verus!
