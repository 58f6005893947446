//! The engine's laws, written down once over the spec vocabulary that the
//! evaluators' contracts use.

use vstd::prelude::*;

use crate::point::zero_coeffs;
use crate::scalar::{
    bits_value, digit_of, digits_value, lemma_bytes_value_injective, lemma_digits_reconstruct,
    lemma_expand_bits_len,
    lemma_expand_bits_value, scalar_values, Scalar, SCALAR_BITS,
};

verus! {

/// Cross-algorithm agreement: the naive and the bucketed evaluator both
/// promise the coefficient vector `scalar_values(scalars)`, so two successful
/// evaluations of one instance represent the same linear combination of its
/// bases, whatever the window width.
pub proof fn lemma_cross_algorithm_agreement(a: Seq<nat>, b: Seq<nat>, scalars: Seq<Scalar>)
    requires
        a == scalar_values(scalars),
        b == scalar_values(scalars),
    ensures
        a == b,
{
}

/// Parallel invariance: the reduction layer promises the coefficient vector
/// `scalar_values(scalars)` for every worker count, so the results of any two
/// counts represent the same linear combination.
pub proof fn lemma_parallel_invariance(
    with_k1: Seq<nat>,
    with_k2: Seq<nat>,
    scalars: Seq<Scalar>,
)
    requires
        with_k1 == scalar_values(scalars),
        with_k2 == scalar_values(scalars),
    ensures
        with_k1 == with_k2,
{
}

/// Identity on empty input: the empty instance represents the empty
/// combination — the group identity.
pub proof fn lemma_empty_instance(scalars: Seq<Scalar>)
    requires
        scalars.len() == 0,
    ensures
        scalar_values(scalars) == Seq::<nat>::empty(),
{
    assert(scalar_values(scalars) =~= Seq::<nat>::empty());
}

/// Identity on zero scalars: all-zero scalars yield the all-zero coefficient
/// vector, whatever the bases — every base enters the sum zero times.
pub proof fn lemma_zero_scalars(scalars: Seq<Scalar>)
    requires
        forall|i: int| 0 <= i < scalars.len() ==> scalars[i].value() == 0,
    ensures
        scalar_values(scalars) == zero_coeffs(scalars.len()),
{
    assert(scalar_values(scalars) =~= zero_coeffs(scalars.len()));
}

/// Single-pair correctness: on a one-pair instance the evaluators' promised
/// coefficient vector equals that of the direct scalar multiplication
/// `scalar_mul`.
pub proof fn lemma_single_pair(s: Scalar)
    ensures
        scalar_values(seq![s]) == seq![s.value()],
{
    assert(scalar_values(seq![s]) =~= seq![s.value()]);
}

/// Bit round trip: the 256-bit expansion of a scalar encodes the scalar's
/// value exactly — reconstructing from `to_bits` gives the scalar back.
pub proof fn lemma_bit_round_trip(s: Scalar)
    requires
        s.wf(),
    ensures
        bits_value(s.bits()) == s.value(),
{
    lemma_expand_bits_value(s.bytes@);
}

/// Bit round trip, exactness: a well-formed scalar whose value is read back
/// from another scalar's 256 bits — what `from_bits` of `to_bits` builds —
/// is that scalar, byte for byte.
pub proof fn lemma_bit_round_trip_exact(s: Scalar, t: Scalar)
    requires
        s.wf(),
        t.wf(),
        t.value() == bits_value(s.bits()),
    ensures
        t.bytes@ == s.bytes@,
{
    lemma_expand_bits_value(s.bytes@);
    lemma_bytes_value_injective(t.bytes@, s.bytes@);
}

/// Digit round trip: a digit sequence holding every window of a scalar for
/// width c — what `to_digits` returns — reconstructs the scalar's value as
/// the sum of digit_j * 2^(c*j).
pub proof fn lemma_digit_round_trip(s: Scalar, digits: Seq<nat>, c: nat)
    requires
        s.wf(),
        1 <= c,
        SCALAR_BITS <= c * digits.len(),
        forall|j: int| 0 <= j < digits.len() ==> digits[j] == digit_of(s.bits(), c, j as nat),
    ensures
        digits_value(digits, c) == s.value(),
{
    lemma_expand_bits_len(s.bytes@);
    lemma_digits_reconstruct(digits, s.bits(), c);
    lemma_expand_bits_value(s.bytes@);
}

} // verus!
