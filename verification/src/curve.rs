//! The pallas elliptic-curve group and its scalar field, as the contracts
//! see them.
//!
//! The pallas group is cyclic of prime order, so every point of the group is
//! a unique multiple of the fixed generator; `point_log` names that multiple,
//! and `scalar_int` names the residue a scalar-field element stands for.
//! Field elements keep exactly one machine representation per residue, and
//! affine coordinates are canonical, so equality of values coincides with
//! equality of the named residues.  The point contracts are read under the
//! assumption that every `pallas::Affine` handled is a group element: all
//! constructors this crate uses, and every checked constructor of the
//! outside crate, yield only such values.  The outside crate also exposes an
//! unchecked affine constructor whose off-curve results it documents as
//! meaningless; nothing in this crate or its callers may use it on values
//! that reach these wrappers.  Every operation below is a thin call into
//! `pasta_curves`, trusted to match its textbook contract over the two
//! names.

use vstd::prelude::*;

verus! {

use pasta_curves::group::Curve;
use pasta_curves::group::CurveAffine;
use pasta_curves::group::ff::Field;
use pasta_curves::group::ff::PrimeField;
use pasta_curves::pallas;

#[verifier::external_type_specification]
#[verifier::external_body]
pub struct ExScalar(pallas::Scalar);

#[verifier::external_type_specification]
#[verifier::external_body]
pub struct ExAffine(pallas::Affine);

/// The order of the pallas group, equally the modulus of its scalar field
/// `Fq`.
pub open spec fn scalar_order() -> int {
    0x40000000000000000000000000000000224698fc0994a8dd8c46eb2100000001int
}

/// The residue in `[0, scalar_order())` that a scalar-field element stands
/// for.
pub uninterp spec fn scalar_int(s: pallas::Scalar) -> int;

/// The discrete logarithm of a point with respect to the fixed generator,
/// in `[0, scalar_order())`.
pub uninterp spec fn point_log(p: pallas::Affine) -> int;

/// Relies on `ff::PrimeField::from_u128` for `Fq`: the argument is reduced
/// into the field, and every `u128` already lies below the modulus.
#[verifier::external_body]
pub fn scalar_from_u128(x: u128) -> (r: pallas::Scalar)
    ensures
        scalar_int(r) == x as int,
{
    <pallas::Scalar as PrimeField>::from_u128(x)
}

/// Relies on `Fq`'s field addition: addition of residues modulo the order.
#[verifier::external_body]
pub fn scalar_add(a: &pallas::Scalar, b: &pallas::Scalar) -> (r: pallas::Scalar)
    ensures
        scalar_int(r) == (scalar_int(*a) + scalar_int(*b)) % scalar_order(),
        0 <= scalar_int(r) < scalar_order(),
{
    *a + *b
}

/// Relies on `Fq`'s field subtraction: subtraction of residues modulo the
/// order.
#[verifier::external_body]
pub fn scalar_sub(a: &pallas::Scalar, b: &pallas::Scalar) -> (r: pallas::Scalar)
    ensures
        scalar_int(r) == (scalar_int(*a) - scalar_int(*b)) % scalar_order(),
        0 <= scalar_int(r) < scalar_order(),
{
    *a - *b
}

/// Relies on `Fq`'s field multiplication: multiplication of residues modulo
/// the order.
#[verifier::external_body]
pub fn scalar_mul(a: &pallas::Scalar, b: &pallas::Scalar) -> (r: pallas::Scalar)
    ensures
        scalar_int(r) == (scalar_int(*a) * scalar_int(*b)) % scalar_order(),
        0 <= scalar_int(r) < scalar_order(),
{
    *a * *b
}

/// Relies on `Fq`'s field negation.
#[verifier::external_body]
pub fn scalar_neg(a: &pallas::Scalar) -> (r: pallas::Scalar)
    ensures
        scalar_int(r) == (scalar_order() - scalar_int(*a)) % scalar_order(),
        0 <= scalar_int(r) < scalar_order(),
{
    -*a
}

/// Relies on `ff::Field::invert` for `Fq`: the multiplicative inverse, absent
/// exactly for the zero element.
#[verifier::external_body]
pub fn scalar_invert(a: &pallas::Scalar) -> (r: Option<pallas::Scalar>)
    ensures
        r is Some <==> scalar_int(*a) != 0,
        match r {
            Some(v) => (scalar_int(*a) * scalar_int(v)) % scalar_order() == 1 && 0 <= scalar_int(v)
                < scalar_order(),
            None => true,
        },
{
    let inv = a.invert();
    if inv.is_some().into() {
        Some(inv.unwrap())
    } else {
        None
    }
}

/// Relies on `group::CurveAffine::generator` for pallas: the fixed generator.
#[verifier::external_body]
pub fn point_generator() -> (r: pallas::Affine)
    ensures
        point_log(r) == 1,
{
    pallas::Affine::generator()
}

/// Relies on `group::CurveAffine::identity` for pallas: the group identity.
#[verifier::external_body]
pub fn point_identity() -> (r: pallas::Affine)
    ensures
        point_log(r) == 0,
{
    pallas::Affine::identity()
}

/// Relies on pallas point addition: logarithms add modulo the group order.
#[verifier::external_body]
pub fn point_add(a: &pallas::Affine, b: &pallas::Affine) -> (r: pallas::Affine)
    ensures
        point_log(r) == (point_log(*a) + point_log(*b)) % scalar_order(),
        0 <= point_log(r) < scalar_order(),
{
    (*a + *b).to_affine()
}

/// Relies on pallas scalar multiplication: the logarithm is multiplied by
/// the scalar's residue modulo the group order.
#[verifier::external_body]
pub fn point_mul(p: &pallas::Affine, s: &pallas::Scalar) -> (r: pallas::Affine)
    ensures
        point_log(r) == (point_log(*p) * scalar_int(*s)) % scalar_order(),
        0 <= point_log(r) < scalar_order(),
{
    (*p * *s).to_affine()
}

/// Relies on `EpAffine`'s `PartialEq`: affine coordinates are canonical, so
/// equality of values is equality of discrete logarithms.
#[verifier::external_body]
pub fn point_eq(a: &pallas::Affine, b: &pallas::Affine) -> (r: bool)
    ensures
        r == (point_log(*a) == point_log(*b)),
{
    a == b
}

} // verus!
