//! The trusted boundary to the arkworks curve arithmetic.
//!
//! The engine treats the BLS12-381 group as an opaque, correct collaborator:
//! points are never inspected, only combined through the handful of wrapped
//! operations below.  Everything the engine itself decides — which operations
//! run, on which operands, in which order — is verified on top of these
//! wrappers through the ghost coefficient vectors of `point`.
//!
//! The three carrier types hold the collaborator's values.  Verus sees them
//! as opaque; the `inner` fields are public so that unverified callers (the
//! benchmark harness, the tests) can move values across the boundary.

use vstd::prelude::*;

use crate::scalar::Scalar;
use ark_bls12_381::{Fr, G1Affine, G1Projective};
use ark_ec::Group;
use ark_ff::BigInteger;
use ark_ff::PrimeField;

verus! {

/// An affine point of the collaborator's group: a base of an MSM instance.
#[verifier::external_body]
pub struct BasePoint {
    /// The collaborator's affine representation.
    pub inner: G1Affine,
}

/// A projective point of the collaborator's group: the accumulator-friendly
/// representation every evaluator computes in.
#[verifier::external_body]
pub struct CurvePoint {
    /// The collaborator's projective representation.
    pub inner: G1Projective,
}

/// An element of the collaborator's scalar field.
#[verifier::external_body]
pub struct FieldElement {
    /// The collaborator's field representation.
    pub inner: Fr,
}

/// Whether a point is the group's additive identity — the one value
/// `Zero::zero` returns.
pub uninterp spec fn is_identity(p: CurvePoint) -> bool;

/// The sum of two points under the collaborator's group addition.
pub uninterp spec fn pt_add_of(a: CurvePoint, b: CurvePoint) -> CurvePoint;

/// A point added to itself under the collaborator's doubling.
pub uninterp spec fn pt_double_of(a: CurvePoint) -> CurvePoint;

/// The projective form of an affine point: the same group element.
pub uninterp spec fn pt_of_affine(b: BasePoint) -> CurvePoint;

/// The canonical 32-byte little-endian encoding of a field element.
pub uninterp spec fn fr_bytes_of(f: FieldElement) -> Seq<u8>;

/// The field element a 64-bit integer embeds to.
pub uninterp spec fn fr_of_u64(x: u64) -> FieldElement;

/// Relies on `Zero::zero` for short Weierstrass projective points: the
/// additive identity of the group, the same value on every call.
#[verifier::external_body]
pub(crate) fn pt_identity() -> (r: CurvePoint)
    ensures
        is_identity(r),
        forall|x: CurvePoint| is_identity(x) ==> x == r,
{
    CurvePoint { inner: ark_std::Zero::zero() }
}

/// Relies on `Add` for projective points: the group addition, a function of
/// the two operands alone.
#[verifier::external_body]
pub(crate) fn pt_add(a: &CurvePoint, b: &CurvePoint) -> (r: CurvePoint)
    ensures
        r == pt_add_of(*a, *b),
{
    CurvePoint { inner: a.inner + b.inner }
}

/// Relies on `ark_ec::Group::double`: adds the point to itself, a function
/// of the operand alone.
#[verifier::external_body]
pub(crate) fn pt_double(a: &CurvePoint) -> (r: CurvePoint)
    ensures
        r == pt_double_of(*a),
{
    CurvePoint { inner: a.inner.double() }
}

/// Relies on `From<Affine>` for projective points: a change of coordinates
/// only, a function of the operand alone.
#[verifier::external_body]
pub(crate) fn pt_from_affine(a: &BasePoint) -> (r: CurvePoint)
    ensures
        r == pt_of_affine(*a),
{
    CurvePoint { inner: G1Projective::from(a.inner) }
}

/// Relies on `PrimeField::into_bigint` and `BigInteger::to_bytes_le`: the
/// canonical representative of the field element as 4 limbs of 8 bytes each,
/// little-endian — 32 bytes, a function of the element alone.
#[verifier::external_body]
fn fr_to_bytes_le(fr: &FieldElement) -> (r: Vec<u8>)
    ensures
        r@ == fr_bytes_of(*fr),
        r@.len() == 32,
{
    fr.inner.into_bigint().to_bytes_le()
}

/// Relies on `From<u64>` for field elements: a function of the integer alone.
#[verifier::external_body]
pub(crate) fn fr_from_u64(x: u64) -> (r: FieldElement)
    ensures
        r == fr_of_u64(x),
{
    FieldElement { inner: Fr::from(x) }
}

impl Scalar {
    /// Captures a field element's canonical 32-byte little-endian encoding.
    pub fn from_fr(fr: &FieldElement) -> (s: Scalar)
        ensures
            s.wf(),
            s.bytes@ == fr_bytes_of(*fr),
    {
        let bytes = fr_to_bytes_le(fr);
        Scalar { bytes }
    }
}

} // verus!
