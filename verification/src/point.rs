//! Curve points paired with the ghost linear combination they represent.
//!
//! Every evaluator builds its result exclusively out of the operations below.
//! Each operation performs one group operation of the collaborator and, in
//! the same step, updates a ghost vector holding the coefficient of every
//! base of the instance in the accumulated sum.  Both fields are private:
//! outside this module no code can pair a point with a vector it did not
//! earn through these operations, so a coefficient vector always describes
//! the very group operations that built the point beside it.  The point
//! itself is pinned through the named results of the collaborator's
//! operations (`pt_add_of`, `pt_double_of`, `pt_of_affine`, `is_identity`).

use vstd::arithmetic::power2::*;
use vstd::prelude::*;

use crate::curve::{is_identity, pt_add_of, pt_double_of, pt_of_affine};
use crate::curve::{pt_add, pt_double, pt_from_affine, pt_identity};
use crate::curve::{BasePoint, CurvePoint};
use crate::scalar::{bits_value, lemma_bits_value_take_succ, Scalar};
use crate::scalar::SCALAR_BITS;

verus! {

/// The all-zero coefficient vector of length n.
pub open spec fn zero_coeffs(n: nat) -> Seq<nat> {
    Seq::new(n, |i: int| 0nat)
}

/// Pointwise sum of two coefficient vectors of equal length.
pub open spec fn coeff_add(a: Seq<nat>, b: Seq<nat>) -> Seq<nat> {
    Seq::new(a.len(), |i: int| a[i] + b[i])
}

/// A coefficient vector scaled by k.
pub open spec fn coeff_scale(k: nat, a: Seq<nat>) -> Seq<nat> {
    Seq::new(a.len(), |i: int| k * a[i])
}

/// The vector of length n holding w at position i and 0 elsewhere.
pub open spec fn unit_coeffs(n: nat, i: nat, w: nat) -> Seq<nat> {
    Seq::new(n, |j: int| if j == i { w } else { 0nat })
}

/// The coefficients of a partial evaluation covering indices [lo, hi) of an
/// instance: each scalar's value inside the range, 0 outside it.
pub open spec fn range_values(scalars: Seq<crate::scalar::Scalar>, lo: int, hi: int) -> Seq<nat> {
    Seq::new(
        scalars.len(),
        |i: int|
            if lo <= i < hi {
                scalars[i].value()
            } else {
                0nat
            },
    )
}

/// The point of the double-and-add sweep from bit k on, given the partial
/// sum so far and the running power of the base: at each remaining bit the
/// running point is added in if the bit is set, then doubled.
pub open spec fn spec_double_add(
    bits: Seq<bool>,
    k: int,
    acc: CurvePoint,
    running: CurvePoint,
) -> CurvePoint
    decreases bits.len() - k,
{
    if k < 0 || k >= bits.len() {
        acc
    } else {
        spec_double_add(
            bits,
            k + 1,
            if bits[k] {
                pt_add_of(acc, running)
            } else {
                acc
            },
            pt_double_of(running),
        )
    }
}

/// The point multiplying one base by one scalar: the full 256-bit
/// double-and-add sweep started from the identity e and the base itself.
pub open spec fn spec_scalar_mul(base: BasePoint, s: Scalar, e: CurvePoint) -> CurvePoint {
    spec_double_add(s.bits(), 0, e, pt_of_affine(base))
}

/// A curve point carrying the ghost coefficient vector it represents over
/// the bases of the instance being evaluated: the point is the sum of
/// `coeffs()[i] * bases[i]`, because it can only be assembled out of the
/// operations below, each of which updates the vector beside its one group
/// operation.
pub struct MsmPoint {
    point: CurvePoint,
    rep: Ghost<Seq<nat>>,
}

impl MsmPoint {
    /// The coefficient each base of the instance has in the sum.
    pub closed spec fn coeffs(&self) -> Seq<nat> {
        self.rep@
    }

    /// The accumulated curve point.
    pub closed spec fn pt(&self) -> CurvePoint {
        self.point
    }

    /// Hands the accumulated point out, for the caller that compares or
    /// converts it.
    pub fn point(&self) -> (r: &CurvePoint)
        ensures
            *r == self.pt(),
    {
        &self.point
    }
}

/// The identity element, representing the empty combination of n bases.
pub(crate) fn msm_zero(Ghost(n): Ghost<nat>) -> (r: MsmPoint)
    ensures
        r.coeffs() == zero_coeffs(n),
        is_identity(r.pt()),
        forall|x: CurvePoint| is_identity(x) ==> x == r.pt(),
{
    MsmPoint { point: pt_identity(), rep: Ghost(zero_coeffs(n)) }
}

/// Group addition: the coefficient vectors add pointwise.
pub(crate) fn msm_add(a: &MsmPoint, b: &MsmPoint) -> (r: MsmPoint)
    requires
        a.coeffs().len() == b.coeffs().len(),
    ensures
        r.coeffs() == coeff_add(a.coeffs(), b.coeffs()),
        r.pt() == pt_add_of(a.pt(), b.pt()),
{
    MsmPoint { point: pt_add(&a.point, &b.point), rep: Ghost(coeff_add(a.coeffs(), b.coeffs())) }
}

/// Doubling: every coefficient doubles.
pub(crate) fn msm_double(a: &MsmPoint) -> (r: MsmPoint)
    ensures
        r.coeffs() == coeff_scale(2, a.coeffs()),
        r.pt() == pt_double_of(a.pt()),
{
    MsmPoint { point: pt_double(&a.point), rep: Ghost(coeff_scale(2, a.coeffs())) }
}

/// Base i of the instance itself: the unit combination.
pub(crate) fn msm_base(base: &BasePoint, Ghost(n): Ghost<nat>, Ghost(i): Ghost<nat>) -> (r:
    MsmPoint)
    requires
        i < n,
    ensures
        r.coeffs() == unit_coeffs(n, i, 1),
        r.pt() == pt_of_affine(*base),
{
    MsmPoint { point: pt_from_affine(base), rep: Ghost(unit_coeffs(n, i, 1)) }
}

/// Double-and-add over all 256 bits, least-significant first, for the base
/// standing at position idx of an instance of n bases: the result represents
/// the scalar's value at idx and 0 everywhere else, and its point is the
/// double-and-add sweep itself.
pub(crate) fn scalar_mul_at(
    base: &BasePoint,
    scalar: &Scalar,
    Ghost(n): Ghost<nat>,
    Ghost(idx): Ghost<nat>,
) -> (r: MsmPoint)
    requires
        scalar.wf(),
        idx < n,
    ensures
        r.coeffs() == unit_coeffs(n, idx, scalar.value()),
        exists|e: CurvePoint| is_identity(e),
        forall|e: CurvePoint| is_identity(e) ==> r.pt() == spec_scalar_mul(*base, *scalar, e),
{
    let bits = scalar.to_bits();
    let mut acc = msm_zero(Ghost(n));
    let ghost e0 = acc.pt();
    let mut running = msm_base(base, Ghost(n), Ghost(idx));
    proof {
        assert(zero_coeffs(n) =~= unit_coeffs(n, idx, bits_value(bits@.take(0))));
        lemma2_to64();
        assert(unit_coeffs(n, idx, 1) =~= unit_coeffs(n, idx, pow2(0)));
    }
    let mut k: usize = 0;
    while k < SCALAR_BITS
        invariant
            scalar.wf(),
            bits@ == scalar.bits(),
            bits@.len() == SCALAR_BITS,
            bits_value(bits@) == scalar.value(),
            k <= SCALAR_BITS,
            idx < n,
            acc.coeffs() == unit_coeffs(n, idx, bits_value(bits@.take(k as int))),
            running.coeffs() == unit_coeffs(n, idx, pow2(k as nat)),
            is_identity(e0),
            spec_double_add(bits@, k as int, acc.pt(), running.pt()) == spec_double_add(
                bits@,
                0,
                e0,
                pt_of_affine(*base),
            ),
        decreases SCALAR_BITS - k,
    {
        proof {
            lemma_bits_value_take_succ(bits@, k as int);
        }
        if bits[k] {
            acc = msm_add(&acc, &running);
            proof {
                assert(acc.coeffs() =~= unit_coeffs(n, idx, bits_value(bits@.take(k as int + 1))));
            }
        } else {
            proof {
                assert(bits_value(bits@.take(k as int + 1)) == bits_value(bits@.take(k as int)));
            }
        }
        running = msm_double(&running);
        proof {
            lemma_pow2_unfold(k as nat + 1);
            assert(running.coeffs() =~= unit_coeffs(n, idx, pow2(k as nat + 1)));
        }
        k = k + 1;
    }
    proof {
        assert(bits@.take(SCALAR_BITS as int) =~= bits@);
        assert(spec_double_add(bits@, SCALAR_BITS as int, acc.pt(), running.pt()) == acc.pt());
        assert forall|e: CurvePoint| is_identity(e) implies acc.pt() == spec_scalar_mul(
            *base,
            *scalar,
            e,
        ) by {
            assert(e == e0);
        }
    }
    acc
}

/// Direct scalar multiplication of one base by one scalar, the reference
/// point for a single-pair instance: the result represents the combination
/// `[scalar.value()]` over the one base, and its point is the 256-bit
/// double-and-add sweep over the scalar's bits.
pub fn scalar_mul(base: &BasePoint, scalar: &Scalar) -> (r: MsmPoint)
    requires
        scalar.wf(),
    ensures
        r.coeffs() == seq![scalar.value()],
        exists|e: CurvePoint| is_identity(e),
        forall|e: CurvePoint| is_identity(e) ==> r.pt() == spec_scalar_mul(*base, *scalar, e),
{
    let r = scalar_mul_at(base, scalar, Ghost(1), Ghost(0));
    proof {
        assert(unit_coeffs(1, 0, scalar.value()) =~= seq![scalar.value()]);
    }
    r
}

} // verus!
