//! The reduction layer: splits an instance into size-balanced contiguous
//! slices, evaluates each slice with the chosen algorithm, and reduces the
//! partial results by group addition.
//!
//! Because the contract pins the coefficient vector of the result to the
//! input scalars for every worker count, the outcome is independent of the
//! split — the property a fork-join driver relies on when it runs the slices
//! concurrently: slices touch disjoint indices and the reduction is a fold
//! over the group's commutative, associative addition.

use vstd::arithmetic::div_mod::{lemma_fundamental_div_mod, lemma_mod_bound};
use vstd::arithmetic::mul::lemma_mul_inequality;
use vstd::prelude::*;

use crate::curve::{is_identity, pt_add_of, BasePoint, CurvePoint};
use crate::naive::{evaluate_naive_range, spec_naive_range};
use crate::pippenger::evaluate_bucketed_range;
use crate::point::{msm_add, msm_zero, range_values, zero_coeffs, MsmPoint};
use crate::scalar::{scalar_values, wf_scalars, Scalar, SCALAR_BITS};
use crate::MsmError;

verus! {

/// The evaluator a slice runs.
#[derive(Clone, Copy, Debug, PartialEq, Eq, Structural)]
pub enum MsmAlgorithm {
    /// Double-and-add per pair.
    Naive,
    /// The bucket method with the given window width.
    Bucketed(usize),
}

/// Whether the algorithm's window width is inside the scalar bit width.
pub open spec fn width_ok(algorithm: MsmAlgorithm) -> bool {
    match algorithm {
        MsmAlgorithm::Naive => true,
        MsmAlgorithm::Bucketed(c) => 1 <= c <= SCALAR_BITS,
    }
}

/// The first index of slice w when n pairs are split over `workers` slices:
/// the first n % workers slices take one extra pair.
pub open spec fn slice_lo(n: int, workers: int, w: int) -> int {
    w * (n / workers) + if w <= n % workers {
        w
    } else {
        n % workers
    }
}

/// The point of the sliced naive run over the first w of `workers` slices:
/// each slice's naive evaluation, added slice by slice onto the identity e.
pub open spec fn spec_sliced_naive(
    bases: Seq<BasePoint>,
    scalars: Seq<Scalar>,
    workers: int,
    w: int,
    e: CurvePoint,
) -> CurvePoint
    decreases w,
{
    if w <= 0 {
        e
    } else {
        pt_add_of(
            spec_sliced_naive(bases, scalars, workers, w - 1, e),
            spec_naive_range(
                bases,
                scalars,
                slice_lo(scalars.len() as int, workers, w - 1),
                slice_lo(scalars.len() as int, workers, w),
                e,
            ),
        )
    }
}

/// The reduction layer: splits [0, n) into `workers` balanced contiguous
/// slices, evaluates each with the chosen algorithm, and sums the partial
/// results.  The result represents exactly the input scalars, for every
/// worker count — worker-count invariance.  Fails with `DimensionMismatch`
/// if and only if the lengths differ, and — lengths equal — with
/// `InvalidWindowWidth` if and only if a bucketed width is 0 or above 256.
///
/// Bucketed widths in [32, 256] are rejected by the precondition, as in
/// `evaluate_bucketed`.
pub fn evaluate_parallel(
    bases: &Vec<BasePoint>,
    scalars: &Vec<Scalar>,
    algorithm: MsmAlgorithm,
    workers: usize,
) -> (r: Result<MsmPoint, MsmError>)
    requires
        wf_scalars(scalars@),
        workers >= 1,
        algorithm matches MsmAlgorithm::Bucketed(c) ==> (c <= 31 || c > SCALAR_BITS),
    ensures
        bases@.len() != scalars@.len() ==> r == Err::<MsmPoint, MsmError>(
            MsmError::DimensionMismatch,
        ),
        bases@.len() == scalars@.len() && !width_ok(algorithm) ==> r == Err::<MsmPoint, MsmError>(
            MsmError::InvalidWindowWidth,
        ),
        bases@.len() == scalars@.len() && width_ok(algorithm) ==> (r matches Ok(p) && p.coeffs()
            == scalar_values(scalars@)),
        bases@.len() == scalars@.len() && algorithm == MsmAlgorithm::Naive ==> (r matches Ok(p)
            && (exists|e: CurvePoint| is_identity(e)) && (forall|e: CurvePoint|
            is_identity(e) ==> p.pt() == spec_sliced_naive(
                bases@,
                scalars@,
                workers as int,
                workers as int,
                e,
            ))),
{
    if bases.len() != scalars.len() {
        return Err(MsmError::DimensionMismatch);
    }
    match algorithm {
        MsmAlgorithm::Naive => {},
        MsmAlgorithm::Bucketed(c) => {
            if c < 1 || c > SCALAR_BITS {
                return Err(MsmError::InvalidWindowWidth);
            }
        },
    }
    let n = scalars.len();
    let ghost gn = scalars@.len();
    let chunk = n / workers;
    let rem = n % workers;
    let mut total = msm_zero(Ghost(gn));
    let ghost e0 = total.pt();
    proof {
        assert(zero_coeffs(gn) =~= range_values(scalars@, 0, 0));
        lemma_mod_bound(n as int, workers as int);
        lemma_fundamental_div_mod(n as int, workers as int);
    }
    let mut lo: usize = 0;
    let mut w: usize = 0;
    while w < workers
        invariant
            bases@.len() == scalars@.len(),
            gn == scalars@.len(),
            wf_scalars(scalars@),
            n == scalars@.len(),
            workers >= 1,
            chunk == n as int / workers as int,
            rem == n as int % workers as int,
            rem < workers,
            n == workers * chunk + rem,
            w <= workers,
            lo == slice_lo(n as int, workers as int, w as int),
            lo <= n,
            algorithm matches MsmAlgorithm::Bucketed(c) ==> 1 <= c <= 31,
            total.coeffs() == range_values(scalars@, 0, lo as int),
            is_identity(e0),
            forall|x: CurvePoint| is_identity(x) ==> x == e0,
            algorithm == MsmAlgorithm::Naive ==> total.pt() == spec_sliced_naive(
                bases@,
                scalars@,
                workers as int,
                w as int,
                e0,
            ),
        decreases workers - w,
    {
        proof {
            if w < rem {
                assert(workers >= 2);
                assert(2 * chunk <= workers * chunk) by (nonlinear_arith)
                    requires
                        workers >= 2,
                        chunk >= 0,
                ;
                assert(chunk + 1 <= n || chunk == 0);
            }
        }
        let size = if w < rem {
            chunk + 1
        } else {
            chunk
        };
        proof {
            assert((w as int + 1) * chunk == w as int * chunk + chunk) by (nonlinear_arith);
            lemma_mul_inequality(w as int + 1, workers as int, chunk as int);
            assert(slice_lo(n as int, workers as int, w as int + 1) <= n);
        }
        let hi = lo + size;
        proof {
            assert(hi == slice_lo(n as int, workers as int, w as int + 1));
        }
        let partial = match algorithm {
            MsmAlgorithm::Naive => evaluate_naive_range(bases, scalars, lo, hi),
            MsmAlgorithm::Bucketed(c) => evaluate_bucketed_range(bases, scalars, c, lo, hi),
        };
        total = msm_add(&total, &partial);
        proof {
            assert(total.coeffs() =~= range_values(scalars@, 0, hi as int));
            if algorithm == MsmAlgorithm::Naive {
                assert(partial.pt() == spec_naive_range(
                    bases@,
                    scalars@,
                    lo as int,
                    hi as int,
                    e0,
                ));
            }
        }
        lo = hi;
        w = w + 1;
    }
    proof {
        assert(lo == n);
        assert(range_values(scalars@, 0, gn as int) =~= scalar_values(scalars@));
        if algorithm == MsmAlgorithm::Naive {
            assert forall|e: CurvePoint| is_identity(e) implies total.pt() == spec_sliced_naive(
                bases@,
                scalars@,
                workers as int,
                workers as int,
                e,
            ) by {
                assert(e == e0);
            }
        }
    }
    Ok(total)
}

} // verus!
