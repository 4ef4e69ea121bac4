//! Which face of a surface a ray hits.

use vstd::prelude::*;

use crate::scalar::Scalar;

verus! {

/// The face direction of a hittable object.
#[derive(Debug, Clone, Copy, PartialEq, Eq, Hash, Structural)]
pub enum Face {
    Front,
    Back,
}

/// The face hit by a ray whose direction has the given dot product with the
/// surface's outward normal: the front face when the dot product is below zero.
pub open spec fn face_spec(direction_dot_normal: Scalar) -> Face {
    if direction_dot_normal.less_than(Scalar { bits: 0 }) {
        Face::Front
    } else {
        Face::Back
    }
}

/// Determines whether a ray is hitting the front or back face of an object, and
/// produces the normal vector for that face.
///
/// `direction_dot_normal` is the dot product of the ray's direction with
/// `outward_normal`, the normal that points out of the object's front face. The
/// returned normal always points against the ray: it is `outward_normal` for
/// the front face and its negation (each coordinate's sign flipped) for the back
/// face.
pub fn face_normal(direction_dot_normal: Scalar, outward_normal: [Scalar; 3]) -> (r: (
    Face,
    [Scalar; 3],
))
    ensures
        r.0 == face_spec(direction_dot_normal),
        r.0 == Face::Front <==> (direction_dot_normal.is_negative_spec()
            && !direction_dot_normal.is_zero_spec() && !direction_dot_normal.is_nan_spec()),
        r.0 == Face::Front ==> r.1@ == outward_normal@,
        r.0 == Face::Back ==> r.1@ == seq![
            outward_normal@[0].negated_spec(),
            outward_normal@[1].negated_spec(),
            outward_normal@[2].negated_spec(),
        ],
{
    let is_front_face = direction_dot_normal.lt(&Scalar::zero());
    if is_front_face {
        (Face::Front, outward_normal)
    } else {
        let flipped = [
            outward_normal[0].negated(),
            outward_normal[1].negated(),
            outward_normal[2].negated(),
        ];
        assert(flipped@ =~= seq![
            outward_normal@[0].negated_spec(),
            outward_normal@[1].negated_spec(),
            outward_normal@[2].negated_spec(),
        ]);
        (Face::Back, flipped)
    }
}

/// A ray hits the front face exactly when the dot product of its direction with
/// the outward normal is a negative number: sign bit set, neither zero nor
/// NaN. Any such number, however far below zero, gives the front face; zero of
/// either sign, positive numbers and NaNs give the back face.
pub proof fn lemma_face_by_sign(direction_dot_normal: Scalar)
    ensures
        face_spec(direction_dot_normal) == Face::Front <==> (direction_dot_normal.bits
            > crate::scalar::SIGN_BIT && direction_dot_normal.bits <= crate::scalar::NEG_INFINITY_BITS),
        face_spec(direction_dot_normal) == Face::Back <==> (direction_dot_normal.bits
            <= crate::scalar::SIGN_BIT || direction_dot_normal.bits > crate::scalar::NEG_INFINITY_BITS),
{
}

} // verus!
