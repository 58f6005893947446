//! The naive MSM evaluator: double-and-add for every pair, summed up.
//!
//! This is the correctness baseline the windowed evaluator is validated
//! against; both prove the same coefficient vector, and the tests check the
//! computed points agree.

use vstd::prelude::*;

use crate::curve::{is_identity, pt_add_of, BasePoint, CurvePoint};
use crate::point::{
    msm_add, msm_zero, range_values, scalar_mul_at, spec_scalar_mul, zero_coeffs, MsmPoint,
};
use crate::scalar::{scalar_values, wf_scalars, Scalar};
use crate::MsmError;

verus! {

/// The point of the naive evaluation of the pairs in [lo, hi): the per-pair
/// double-and-add results, added up first to last onto the identity e.
pub open spec fn spec_naive_range(
    bases: Seq<BasePoint>,
    scalars: Seq<Scalar>,
    lo: int,
    hi: int,
    e: CurvePoint,
) -> CurvePoint
    decreases hi - lo,
{
    if hi <= lo {
        e
    } else {
        pt_add_of(
            spec_naive_range(bases, scalars, lo, hi - 1, e),
            spec_scalar_mul(bases[hi - 1], scalars[hi - 1], e),
        )
    }
}

/// Evaluates the pairs with indices in [lo, hi): per pair a double-and-add
/// scalar multiplication, the partial results summed by group addition.
/// The result represents each in-range scalar's value and 0 elsewhere, and
/// its point is exactly that sum of per-pair multiplications.
pub(crate) fn evaluate_naive_range(
    bases: &Vec<BasePoint>,
    scalars: &Vec<Scalar>,
    lo: usize,
    hi: usize,
) -> (r: MsmPoint)
    requires
        bases@.len() == scalars@.len(),
        wf_scalars(scalars@),
        lo <= hi <= scalars@.len(),
    ensures
        r.coeffs() == range_values(scalars@, lo as int, hi as int),
        exists|e: CurvePoint| is_identity(e),
        forall|e: CurvePoint|
            is_identity(e) ==> r.pt() == spec_naive_range(
                bases@,
                scalars@,
                lo as int,
                hi as int,
                e,
            ),
{
    let ghost n = scalars@.len();
    let mut acc = msm_zero(Ghost(n));
    let ghost e0 = acc.pt();
    proof {
        assert(zero_coeffs(n) =~= range_values(scalars@, lo as int, lo as int));
    }
    let mut i: usize = lo;
    while i < hi
        invariant
            bases@.len() == scalars@.len(),
            wf_scalars(scalars@),
            n == scalars@.len(),
            lo <= i <= hi <= scalars@.len(),
            acc.coeffs() == range_values(scalars@, lo as int, i as int),
            is_identity(e0),
            forall|x: CurvePoint| is_identity(x) ==> x == e0,
            acc.pt() == spec_naive_range(bases@, scalars@, lo as int, i as int, e0),
        decreases hi - i,
    {
        let p = scalar_mul_at(&bases[i], &scalars[i], Ghost(n), Ghost(i as nat));
        acc = msm_add(&acc, &p);
        proof {
            assert(acc.coeffs() =~= range_values(scalars@, lo as int, i as int + 1));
            assert(p.pt() == spec_scalar_mul(bases@[i as int], scalars@[i as int], e0));
        }
        i = i + 1;
    }
    proof {
        assert forall|e: CurvePoint| is_identity(e) implies acc.pt() == spec_naive_range(
            bases@,
            scalars@,
            lo as int,
            hi as int,
            e,
        ) by {
            assert(e == e0);
        }
    }
    acc
}

/// The naive evaluator: requires equally many bases and scalars, and returns
/// the point adding up one double-and-add scalar multiplication per pair —
/// representing exactly the input scalars as coefficients.
/// Fails with `DimensionMismatch` — before any computation — if and only if
/// the lengths differ.
pub fn evaluate_naive(bases: &Vec<BasePoint>, scalars: &Vec<Scalar>) -> (r: Result<
    MsmPoint,
    MsmError,
>)
    requires
        wf_scalars(scalars@),
    ensures
        bases@.len() == scalars@.len() ==> (r matches Ok(p) && p.coeffs() == scalar_values(
            scalars@,
        ) && (exists|e: CurvePoint| is_identity(e)) && (forall|e: CurvePoint|
            is_identity(e) ==> p.pt() == spec_naive_range(
                bases@,
                scalars@,
                0,
                scalars@.len() as int,
                e,
            ))),
        bases@.len() != scalars@.len() ==> r == Err::<MsmPoint, MsmError>(
            MsmError::DimensionMismatch,
        ),
{
    if bases.len() != scalars.len() {
        return Err(MsmError::DimensionMismatch);
    }
    let r = evaluate_naive_range(bases, scalars, 0, scalars.len());
    proof {
        assert(range_values(scalars@, 0, scalars@.len() as int) =~= scalar_values(scalars@));
    }
    Ok(r)
}

} // verus!
