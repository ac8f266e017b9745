//! From a tracked device's pose matrix to a rotation and a position in the
//! convention of a target application.
//!
//! A pose is three rows of four single-precision numbers, each held as its
//! bit pattern: a rotation block in the first three columns and a translation
//! in the fourth, in a right-handed frame with Y up and lengths in meters.

use vstd::prelude::*;
use crate::binary32::{
    ZERO, NEG_ZERO, ONE, NEG_ONE, ONE_HALF, HUNDRED, is_nan, is_finite, is_negative, magnitude,
    value, negate, negate_spec, copy_sign, copy_sign_spec, maximum, maximum_spec,
};
use crate::product::{
    product, product_spec, lemma_product_by_hundred, lemma_product_by_minus_one,
};
use crate::rounding::rounded;
use crate::sum::{
    sum, sum_spec, difference, difference_spec, lemma_sum_negative_zero, lemma_difference_sign,
};
use crate::root::{square_root, square_root_spec};

verus! {

/// Target convention for axes, handedness and unit of length.
#[derive(Clone, Copy, Debug, PartialEq, Eq, Structural)]
pub enum CoordsSystem {
    /// Right-handed, Y up, one unit is one meter: the frame of the pose itself.
    Native,
    /// Right-handed, Z up, one unit is one meter.
    Blender,
    /// Left-handed, Y up, one unit is one meter.
    Unity,
    /// Left-handed, Z up, one unit is one centimeter.
    Unreal,
}

impl Default for CoordsSystem {
    fn default() -> (r: Self)
        ensures
            r == CoordsSystem::Native,
    {
        CoordsSystem::Native
    }
}

/// A rotation as a quaternion of four single-precision bit patterns.
#[derive(Clone, Copy, Debug)]
pub struct Quaternion {
    pub x: u32,
    pub y: u32,
    pub z: u32,
    pub w: u32,
}

/// A position as three single-precision bit patterns.
#[derive(Clone, Copy, Debug)]
pub struct Vector3 {
    pub x: u32,
    pub y: u32,
    pub z: u32,
}

/// The rotation and position of one device at one moment.
pub struct Transform {
    pub rotation: Quaternion,
    pub position: Vector3,
}

/// Half the square root of `t`, where a negative or missing `t` counts as
/// zero: the size of one quaternion component, from one plus or minus the
/// diagonal entries of the rotation. The half is taken as a product with one
/// half, which rounds as a division by two does.
pub open spec fn half_root_spec(t: u32) -> u32 {
    product_spec(square_root_spec(maximum_spec(t, ZERO)), ONE_HALF)
}

/// Computes half the square root of `t` clamped at zero.
#[verifier::when_used_as_spec(half_root_spec)]
pub fn half_root(t: u32) -> (r: u32)
    ensures
        r == half_root_spec(t),
        !is_nan(r),
{
    product(square_root(maximum(t, ZERO)), ONE_HALF)
}

impl Quaternion {
    /// Four times the square of `x`: `1 + m00 - m11 - m22`, summed from the left.
    pub open spec fn radicand_x(pose: [[u32; 4]; 3]) -> u32 {
        difference_spec(difference_spec(sum_spec(ONE, pose[0][0]), pose[1][1]), pose[2][2])
    }

    /// Four times the square of `y`: `1 - m00 + m11 - m22`, summed from the left.
    pub open spec fn radicand_y(pose: [[u32; 4]; 3]) -> u32 {
        difference_spec(sum_spec(difference_spec(ONE, pose[0][0]), pose[1][1]), pose[2][2])
    }

    /// Four times the square of `z`: `1 - m00 - m11 + m22`, summed from the left.
    pub open spec fn radicand_z(pose: [[u32; 4]; 3]) -> u32 {
        sum_spec(difference_spec(difference_spec(ONE, pose[0][0]), pose[1][1]), pose[2][2])
    }

    /// Four times the square of `w`: `1 + m00 + m11 + m22`, summed from the left.
    pub open spec fn radicand_w(pose: [[u32; 4]; 3]) -> u32 {
        sum_spec(sum_spec(sum_spec(ONE, pose[0][0]), pose[1][1]), pose[2][2])
    }

    /// The quaternion of a rotation block, before any change of axes. All four
    /// sizes are computed from the diagonal; the off-diagonal differences give
    /// `x`, `y` and `z` their signs.
    pub open spec fn extracted(pose: [[u32; 4]; 3]) -> Quaternion {
        Quaternion {
            x: copy_sign_spec(
                half_root_spec(Quaternion::radicand_x(pose)),
                difference_spec(pose[2][1], pose[1][2]),
            ),
            y: copy_sign_spec(
                half_root_spec(Quaternion::radicand_y(pose)),
                difference_spec(pose[0][2], pose[2][0]),
            ),
            z: copy_sign_spec(
                half_root_spec(Quaternion::radicand_z(pose)),
                difference_spec(pose[1][0], pose[0][1]),
            ),
            w: half_root_spec(Quaternion::radicand_w(pose)),
        }
    }

    /// This quaternion with its components permuted and negated for the
    /// target convention. No convention scales a rotation.
    pub open spec fn remapped(self, coords_system: Option<CoordsSystem>) -> Quaternion {
        match coords_system {
            Some(CoordsSystem::Unreal) => Quaternion {
                x: self.x,
                y: self.z,
                z: negate_spec(self.y),
                w: self.w,
            },
            Some(CoordsSystem::Unity) => Quaternion {
                x: self.z,
                y: self.y,
                z: self.x,
                w: negate_spec(self.w),
            },
            Some(CoordsSystem::Blender) => Quaternion {
                x: self.x,
                y: self.z,
                z: self.y,
                w: self.w,
            },
            _ => self,
        }
    }

    /// The square of the norm, exact, in squares of the unit 2^-149. It is
    /// meaningful where all four components are finite.
    pub open spec fn squared_norm(self) -> nat {
        magnitude(self.x) * magnitude(self.x) + magnitude(self.y) * magnitude(self.y) + magnitude(
            self.z,
        ) * magnitude(self.z) + magnitude(self.w) * magnitude(self.w)
    }

    /// No component is NaN.
    pub open spec fn is_numeric(self) -> bool {
        !is_nan(self.x) && !is_nan(self.y) && !is_nan(self.z) && !is_nan(self.w)
    }

    /// The quaternion with all components positive zero.
    pub fn new() -> (r: Self)
        ensures
            r == (Quaternion { x: ZERO, y: ZERO, z: ZERO, w: ZERO }),
    {
        Quaternion { x: ZERO, y: ZERO, z: ZERO, w: ZERO }
    }

    /// Extracts the quaternion of the rotation block of `pose`. Whatever the
    /// pose holds, the clamp at zero keeps every component a number.
    pub fn extract(pose: &[[u32; 4]; 3]) -> (r: Self)
        ensures
            r == Quaternion::extracted(*pose),
            r.is_numeric(),
    {
        let m00: u32 = pose[0][0];
        let m11: u32 = pose[1][1];
        let m22: u32 = pose[2][2];
        let w: u32 = half_root(sum(sum(sum(ONE, m00), m11), m22));
        let x: u32 = half_root(difference(difference(sum(ONE, m00), m11), m22));
        let y: u32 = half_root(difference(sum(difference(ONE, m00), m11), m22));
        let z: u32 = half_root(sum(difference(difference(ONE, m00), m11), m22));
        Quaternion {
            x: copy_sign(x, difference(pose[2][1], pose[1][2])),
            y: copy_sign(y, difference(pose[0][2], pose[2][0])),
            z: copy_sign(z, difference(pose[1][0], pose[0][1])),
            w,
        }
    }

    /// Permutes and negates the components for the target convention.
    pub fn remap(&self, coords_system: &Option<CoordsSystem>) -> (r: Self)
        ensures
            r == self.remapped(*coords_system),
            self.is_numeric() ==> r.is_numeric(),
    {
        match coords_system {
            Some(CoordsSystem::Unreal) => Quaternion {
                x: self.x,
                y: self.z,
                z: negate(self.y),
                w: self.w,
            },
            Some(CoordsSystem::Unity) => Quaternion {
                x: self.z,
                y: self.y,
                z: self.x,
                w: negate(self.w),
            },
            Some(CoordsSystem::Blender) => Quaternion {
                x: self.x,
                y: self.z,
                z: self.y,
                w: self.w,
            },
            _ => Quaternion { x: self.x, y: self.y, z: self.z, w: self.w },
        }
    }

    /// The rotation of `pose` in the target convention; the native one where
    /// none is named.
    pub fn from_pose_matrix(pose: &[[u32; 4]; 3], coords_system: &Option<CoordsSystem>) -> (r:
        Self)
        ensures
            r == Quaternion::extracted(*pose).remapped(*coords_system),
            r.is_numeric(),
    {
        Quaternion::extract(pose).remap(coords_system)
    }
}

impl Vector3 {
    /// The translation column of a pose.
    pub open spec fn extracted(pose: [[u32; 4]; 3]) -> Vector3 {
        Vector3 { x: pose[0][3], y: pose[1][3], z: pose[2][3] }
    }

    /// This position with its components permuted for the target convention,
    /// and multiplied by a hundred where the target counts in centimeters.
    pub open spec fn remapped(self, coords_system: Option<CoordsSystem>) -> Vector3 {
        match coords_system {
            Some(CoordsSystem::Unreal) => Vector3 {
                x: product_spec(self.z, HUNDRED),
                y: product_spec(self.x, HUNDRED),
                z: product_spec(self.y, HUNDRED),
            },
            Some(CoordsSystem::Unity) => Vector3 { x: self.z, y: self.y, z: self.x },
            Some(CoordsSystem::Blender) => Vector3 { x: self.x, y: self.z, z: self.y },
            _ => self,
        }
    }

    /// The position with all components positive zero.
    pub fn new() -> (r: Self)
        ensures
            r == (Vector3 { x: ZERO, y: ZERO, z: ZERO }),
    {
        Vector3 { x: ZERO, y: ZERO, z: ZERO }
    }

    /// Reads the translation column of `pose`.
    pub fn extract(pose: &[[u32; 4]; 3]) -> (r: Self)
        ensures
            r == Vector3::extracted(*pose),
    {
        Vector3 { x: pose[0][3], y: pose[1][3], z: pose[2][3] }
    }

    /// Permutes and scales the components for the target convention.
    pub fn remap(&self, coords_system: &Option<CoordsSystem>) -> (r: Self)
        ensures
            r == self.remapped(*coords_system),
    {
        match coords_system {
            Some(CoordsSystem::Unreal) => Vector3 {
                x: product(self.z, HUNDRED),
                y: product(self.x, HUNDRED),
                z: product(self.y, HUNDRED),
            },
            Some(CoordsSystem::Unity) => Vector3 { x: self.z, y: self.y, z: self.x },
            Some(CoordsSystem::Blender) => Vector3 { x: self.x, y: self.z, z: self.y },
            _ => Vector3 { x: self.x, y: self.y, z: self.z },
        }
    }

    /// The position of `pose` in the target convention; the native one where
    /// none is named.
    pub fn from_pose_matrix(pose: &[[u32; 4]; 3], coords_system: &Option<CoordsSystem>) -> (r:
        Self)
        ensures
            r == Vector3::extracted(*pose).remapped(*coords_system),
    {
        Vector3::extract(pose).remap(coords_system)
    }
}

impl Transform {
    /// The rotation and position of `pose` in the target convention.
    pub open spec fn of_pose(pose: [[u32; 4]; 3], coords_system: Option<CoordsSystem>) -> Transform {
        Transform {
            rotation: Quaternion::extracted(pose).remapped(coords_system),
            position: Vector3::extracted(pose).remapped(coords_system),
        }
    }

    /// The transform with every component positive zero.
    pub fn new() -> (r: Self)
        ensures
            r == (Transform {
                rotation: Quaternion { x: ZERO, y: ZERO, z: ZERO, w: ZERO },
                position: Vector3 { x: ZERO, y: ZERO, z: ZERO },
            }),
    {
        Transform { rotation: Quaternion::new(), position: Vector3::new() }
    }

    /// The rotation and position of `pose` in the target convention; the
    /// native one where none is named. Every pose has a transform: an
    /// all-zero translation is a position like any other.
    pub fn from_pose_matrix(pose: &[[u32; 4]; 3], coords_system: &Option<CoordsSystem>) -> (r:
        Self)
        ensures
            r == Transform::of_pose(*pose, *coords_system),
            r.rotation.is_numeric(),
    {
        Transform {
            rotation: Quaternion::from_pose_matrix(pose, coords_system),
            position: Vector3::from_pose_matrix(pose, coords_system),
        }
    }
}

/// Changing axes after a native extraction gives what the target convention
/// gives directly, for the rotation and for the position; and to name the
/// native convention is to name none.
pub proof fn lemma_remap_of_native(pose: [[u32; 4]; 3], coords_system: Option<CoordsSystem>)
    ensures
        Transform::of_pose(pose, coords_system).rotation == Transform::of_pose(
            pose,
            None,
        ).rotation.remapped(coords_system),
        Transform::of_pose(pose, coords_system).position == Transform::of_pose(
            pose,
            None,
        ).position.remapped(coords_system),
        Transform::of_pose(pose, Some(CoordsSystem::Native)) == Transform::of_pose(pose, None),
{
}

/// A change of axes moves the components and changes signs: it keeps the
/// norm, exactly, whatever the target.
pub proof fn lemma_remap_keeps_norm(q: Quaternion, coords_system: Option<CoordsSystem>)
    ensures
        q.remapped(coords_system).squared_norm() == q.squared_norm(),
{
}

/// The two negations of the table are what a product with minus one gives:
/// they change a sign and nothing else.
pub proof fn lemma_negation_is_a_product(q: Quaternion)
    requires
        q.is_numeric(),
    ensures
        q.remapped(Some(CoordsSystem::Unreal)).z == product_spec(q.y, NEG_ONE),
        q.remapped(Some(CoordsSystem::Unity)).w == product_spec(q.w, NEG_ONE),
{
    lemma_product_by_minus_one(q.y);
    lemma_product_by_minus_one(q.w);
}

/// `t` is not negative zero, so that the larger of `t` and zero is the same
/// number in whichever order the two are taken.
pub open spec fn clamps_alike(t: u32) -> bool {
    t != NEG_ZERO && maximum_spec(t, ZERO) == maximum_spec(ZERO, t)
}

/// A sum that starts from one never comes out as negative zero, so the clamp
/// never has to choose between the two zeros.
pub proof fn lemma_clamp_meets_no_negative_zero(pose: [[u32; 4]; 3])
    ensures
        clamps_alike(Quaternion::radicand_x(pose)),
        clamps_alike(Quaternion::radicand_y(pose)),
        clamps_alike(Quaternion::radicand_z(pose)),
        clamps_alike(Quaternion::radicand_w(pose)),
{
    let m00 = pose[0][0];
    let m11 = pose[1][1];
    let m22 = pose[2][2];
    let plus = sum_spec(ONE, m00);
    let minus = difference_spec(ONE, m00);
    if plus == NEG_ZERO {
        lemma_sum_negative_zero(ONE, m00);
    }
    if minus == NEG_ZERO {
        lemma_sum_negative_zero(ONE, negate_spec(m00));
    }
    let plus_plus = sum_spec(plus, m11);
    let plus_minus = difference_spec(plus, m11);
    let minus_plus = sum_spec(minus, m11);
    let minus_minus = difference_spec(minus, m11);
    if plus_plus == NEG_ZERO {
        lemma_sum_negative_zero(plus, m11);
    }
    if plus_minus == NEG_ZERO {
        lemma_sum_negative_zero(plus, negate_spec(m11));
    }
    if minus_plus == NEG_ZERO {
        lemma_sum_negative_zero(minus, m11);
    }
    if minus_minus == NEG_ZERO {
        lemma_sum_negative_zero(minus, negate_spec(m11));
    }
    if Quaternion::radicand_x(pose) == NEG_ZERO {
        lemma_sum_negative_zero(plus_minus, negate_spec(m22));
    }
    if Quaternion::radicand_y(pose) == NEG_ZERO {
        lemma_sum_negative_zero(minus_plus, negate_spec(m22));
    }
    if Quaternion::radicand_z(pose) == NEG_ZERO {
        lemma_sum_negative_zero(minus_minus, m22);
    }
    if Quaternion::radicand_w(pose) == NEG_ZERO {
        lemma_sum_negative_zero(plus_plus, m22);
    }
}

/// The first of two entries is the smaller, or they are negative zero and
/// positive zero in that order: what makes their difference negative.
pub open spec fn falls_short(first: u32, second: u32) -> bool {
    value(first) < value(second) || (first == NEG_ZERO && second == ZERO)
}

/// The signs of `x`, `y` and `z` before any change of axes are those of the
/// off-diagonal differences: each is negative exactly where the first entry
/// of its pair falls short of the second.
pub proof fn lemma_signs_follow_off_diagonal(pose: [[u32; 4]; 3])
    ensures
        is_finite(pose[2][1]) && is_finite(pose[1][2]) ==> is_negative(
            Quaternion::extracted(pose).x,
        ) == falls_short(pose[2][1], pose[1][2]),
        is_finite(pose[0][2]) && is_finite(pose[2][0]) ==> is_negative(
            Quaternion::extracted(pose).y,
        ) == falls_short(pose[0][2], pose[2][0]),
        is_finite(pose[1][0]) && is_finite(pose[0][1]) ==> is_negative(
            Quaternion::extracted(pose).z,
        ) == falls_short(pose[1][0], pose[0][1]),
{
    if is_finite(pose[2][1]) && is_finite(pose[1][2]) {
        lemma_difference_sign(pose[2][1], pose[1][2]);
    }
    if is_finite(pose[0][2]) && is_finite(pose[2][0]) {
        lemma_difference_sign(pose[0][2], pose[2][0]);
    }
    if is_finite(pose[1][0]) && is_finite(pose[0][1]) {
        lemma_difference_sign(pose[1][0], pose[0][1]);
    }
}

/// The target that counts in centimeters holds, on each axis, the number
/// nearest to a hundred times the native coordinate that the axis takes; the
/// other targets hold the native coordinates unchanged, in their own order.
pub proof fn lemma_position_scale(pose: [[u32; 4]; 3])
    ensures
        ({
            let native = Transform::of_pose(pose, None).position;
            let unreal = Transform::of_pose(pose, Some(CoordsSystem::Unreal)).position;
            let unity = Transform::of_pose(pose, Some(CoordsSystem::Unity)).position;
            let blender = Transform::of_pose(pose, Some(CoordsSystem::Blender)).position;
            &&& native == (Vector3 { x: pose[0][3], y: pose[1][3], z: pose[2][3] })
            &&& unity == (Vector3 { x: native.z, y: native.y, z: native.x })
            &&& blender == (Vector3 { x: native.x, y: native.z, z: native.y })
            &&& unreal.x == product_spec(native.z, HUNDRED)
            &&& unreal.y == product_spec(native.x, HUNDRED)
            &&& unreal.z == product_spec(native.y, HUNDRED)
            &&& is_finite(native.z) ==> unreal.x == rounded(
                is_negative(native.z),
                100 * magnitude(native.z),
                0,
            )
            &&& is_finite(native.x) ==> unreal.y == rounded(
                is_negative(native.x),
                100 * magnitude(native.x),
                0,
            )
            &&& is_finite(native.y) ==> unreal.z == rounded(
                is_negative(native.y),
                100 * magnitude(native.y),
                0,
            )
        }),
{
    let native = Transform::of_pose(pose, None).position;
    if is_finite(native.x) {
        lemma_product_by_hundred(native.x);
    }
    if is_finite(native.y) {
        lemma_product_by_hundred(native.y);
    }
    if is_finite(native.z) {
        lemma_product_by_hundred(native.z);
    }
}

} // verus!
