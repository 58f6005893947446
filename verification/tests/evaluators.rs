use ark_bls12_381::{Fr, G1Affine, G1Projective};
use ark_ec::scalar_mul::variable_base::VariableBaseMSM;
use ark_ec::Group;
use ark_msm::curve::{BasePoint, FieldElement};
use ark_msm::naive::evaluate_naive;
use ark_msm::parallel::{evaluate_parallel, MsmAlgorithm};
use ark_msm::pippenger::evaluate_bucketed;
use ark_msm::point::scalar_mul;
use ark_msm::scalar::Scalar;
use ark_msm::MsmError;
use ark_std::UniformRand;
use ark_std::Zero;
use std::ops::Mul;

fn make_instance(n: usize) -> (Vec<BasePoint>, Vec<Scalar>, Vec<G1Affine>, Vec<Fr>) {
    let mut rng = ark_std::test_rng();
    let mut bases = Vec::with_capacity(n);
    let mut scalars = Vec::with_capacity(n);
    let mut ark_bases = Vec::with_capacity(n);
    let mut ark_scalars = Vec::with_capacity(n);
    for _ in 0..n {
        let p = G1Affine::rand(&mut rng);
        let f = Fr::rand(&mut rng);
        bases.push(BasePoint { inner: p });
        scalars.push(Scalar::from_fr(&FieldElement { inner: f }));
        ark_bases.push(p);
        ark_scalars.push(f);
    }
    (bases, scalars, ark_bases, ark_scalars)
}

fn ark_reference(ark_bases: &[G1Affine], ark_scalars: &[Fr]) -> G1Projective {
    if ark_bases.is_empty() {
        G1Projective::zero()
    } else {
        G1Projective::msm(ark_bases, ark_scalars).unwrap()
    }
}

#[test]
fn cross_agreement_small() {
    for n in [0usize, 1, 2, 17] {
        let (bases, scalars, ark_bases, ark_scalars) = make_instance(n);
        let expected = ark_reference(&ark_bases, &ark_scalars);
        let naive = evaluate_naive(&bases, &scalars).unwrap();
        assert_eq!(naive.point().inner, expected);
        for c in [1usize, 4] {
            let bucketed = evaluate_bucketed(&bases, &scalars, c).unwrap();
            assert_eq!(bucketed.point().inner, expected);
        }
    }
}

#[test]
fn cross_agreement_window_15() {
    let (bases, scalars, ark_bases, ark_scalars) = make_instance(2);
    let expected = ark_reference(&ark_bases, &ark_scalars);
    let bucketed = evaluate_bucketed(&bases, &scalars, 15).unwrap();
    assert_eq!(bucketed.point().inner, expected);
}

#[test]
fn cross_agreement_window_16() {
    let (bases, scalars, ark_bases, ark_scalars) = make_instance(2);
    let expected = ark_reference(&ark_bases, &ark_scalars);
    let bucketed = evaluate_bucketed(&bases, &scalars, 16).unwrap();
    assert_eq!(bucketed.point().inner, expected);
}

#[test]
fn cross_agreement_large_naive() {
    let (bases, scalars, ark_bases, ark_scalars) = make_instance(1024);
    let expected = ark_reference(&ark_bases, &ark_scalars);
    let naive = evaluate_naive(&bases, &scalars).unwrap();
    assert_eq!(naive.point().inner, expected);
}

#[test]
fn cross_agreement_large_bucketed() {
    let (bases, scalars, ark_bases, ark_scalars) = make_instance(1024);
    let expected = ark_reference(&ark_bases, &ark_scalars);
    for c in [4usize, 8] {
        let bucketed = evaluate_bucketed(&bases, &scalars, c).unwrap();
        assert_eq!(bucketed.point().inner, expected);
    }
}

#[test]
fn cross_agreement_large_window_15() {
    let (bases, scalars, ark_bases, ark_scalars) = make_instance(1024);
    let expected = ark_reference(&ark_bases, &ark_scalars);
    let bucketed = evaluate_bucketed(&bases, &scalars, 15).unwrap();
    assert_eq!(bucketed.point().inner, expected);
}

#[test]
fn parallel_worker_invariance() {
    let (bases, scalars, ark_bases, ark_scalars) = make_instance(17);
    let expected = ark_reference(&ark_bases, &ark_scalars);
    for k in [1usize, 2, 3, 5, 16, 17, 31] {
        let r = evaluate_parallel(&bases, &scalars, MsmAlgorithm::Naive, k).unwrap();
        assert_eq!(r.point().inner, expected);
    }
}

#[test]
fn parallel_bucketed_matches() {
    let (bases, scalars, ark_bases, ark_scalars) = make_instance(17);
    let expected = ark_reference(&ark_bases, &ark_scalars);
    for k in [1usize, 3, 5] {
        let r = evaluate_parallel(&bases, &scalars, MsmAlgorithm::Bucketed(4), k).unwrap();
        assert_eq!(r.point().inner, expected);
    }
}

#[test]
fn identity_on_empty_input() {
    let bases: Vec<BasePoint> = Vec::new();
    let scalars: Vec<Scalar> = Vec::new();
    assert_eq!(evaluate_naive(&bases, &scalars).unwrap().point().inner, G1Projective::zero());
    assert_eq!(evaluate_bucketed(&bases, &scalars, 4).unwrap().point().inner, G1Projective::zero());
    let r = evaluate_parallel(&bases, &scalars, MsmAlgorithm::Naive, 3).unwrap();
    assert_eq!(r.point().inner, G1Projective::zero());
}

#[test]
fn identity_on_zero_scalars() {
    let (bases, _, _, _) = make_instance(5);
    let scalars: Vec<Scalar> = (0..5).map(|_| Scalar::zero()).collect();
    assert_eq!(evaluate_naive(&bases, &scalars).unwrap().point().inner, G1Projective::zero());
    assert_eq!(evaluate_bucketed(&bases, &scalars, 4).unwrap().point().inner, G1Projective::zero());
}

#[test]
fn identity_on_zero_bases() {
    let (_, scalars, _, _) = make_instance(5);
    let bases: Vec<BasePoint> = (0..5).map(|_| BasePoint { inner: G1Affine::identity() }).collect();
    assert_eq!(evaluate_naive(&bases, &scalars).unwrap().point().inner, G1Projective::zero());
    assert_eq!(evaluate_bucketed(&bases, &scalars, 15).unwrap().point().inner, G1Projective::zero());
}

#[test]
fn single_pair_correctness() {
    let (bases, scalars, ark_bases, ark_scalars) = make_instance(1);
    // Independent reference: double-and-add from the most significant bit down.
    let bits = scalars[0].to_bits();
    let mut reference = G1Projective::zero();
    for i in (0..256).rev() {
        reference = reference.double();
        if bits[i] {
            reference += G1Projective::from(ark_bases[0]);
        }
    }
    assert_eq!(reference, ark_bases[0].mul(ark_scalars[0]));
    assert_eq!(evaluate_naive(&bases, &scalars).unwrap().point().inner, reference);
    assert_eq!(evaluate_bucketed(&bases, &scalars, 4).unwrap().point().inner, reference);
    assert_eq!(scalar_mul(&bases[0], &scalars[0]).point().inner, reference);
}

#[test]
fn dimension_mismatch_every_evaluator() {
    let (bases, mut scalars, _, _) = make_instance(5);
    scalars.pop();
    assert_eq!(evaluate_naive(&bases, &scalars).err().unwrap(), MsmError::DimensionMismatch);
    assert_eq!(evaluate_bucketed(&bases, &scalars, 4).err().unwrap(), MsmError::DimensionMismatch);
    assert_eq!(
        evaluate_parallel(&bases, &scalars, MsmAlgorithm::Naive, 2).err().unwrap(),
        MsmError::DimensionMismatch
    );
    assert_eq!(
        evaluate_parallel(&bases, &scalars, MsmAlgorithm::Bucketed(4), 2).err().unwrap(),
        MsmError::DimensionMismatch
    );
}

#[test]
fn invalid_window_width() {
    let (bases, scalars, _, _) = make_instance(3);
    for c in [0usize, 257, 1000] {
        assert_eq!(evaluate_bucketed(&bases, &scalars, c).err().unwrap(), MsmError::InvalidWindowWidth);
        assert_eq!(
            evaluate_parallel(&bases, &scalars, MsmAlgorithm::Bucketed(c), 2).err().unwrap(),
            MsmError::InvalidWindowWidth
        );
    }
}

#[test]
fn final_window_top_bit() {
    // Bit 255 lands in the final, one-bit window of width 15 (17 * 15 = 255).
    let mut bytes = vec![0u8; 32];
    bytes[31] = 0x80;
    let s = Scalar::from_bytes_le(bytes).unwrap();
    let digits = s.to_digits(15);
    assert_eq!(digits.len(), 18);
    assert!(digits[..17].iter().all(|d| *d == 0));
    assert_eq!(digits[17], 1);

    let mut rng = ark_std::test_rng();
    let p = G1Affine::rand(&mut rng);
    let mut reference = G1Projective::from(p);
    for _ in 0..255 {
        reference = reference.double();
    }
    let bases = vec![BasePoint { inner: p }];
    let scalars = vec![s];
    assert_eq!(evaluate_naive(&bases, &scalars).unwrap().point().inner, reference);
    assert_eq!(evaluate_bucketed(&bases, &scalars, 15).unwrap().point().inner, reference);
    assert_eq!(evaluate_bucketed(&bases, &scalars, 16).unwrap().point().inner, reference);
}

#[test]
fn scenario_scalar_eight_window_four() {
    // Scalar 8 with width 4: digits [8, 0, ..., 0]; a single base P gives 8*P.
    let s = Scalar::from_u64(8);
    let digits = s.to_digits(4);
    assert_eq!(digits.len(), 64);
    assert_eq!(digits[0], 8);
    assert!(digits[1..].iter().all(|d| *d == 0));

    let mut rng = ark_std::test_rng();
    let p = G1Affine::rand(&mut rng);
    let bases = vec![BasePoint { inner: p }];
    let scalars = vec![s];
    let pp = G1Projective::from(p);
    let naive_sum = pp + pp + pp + pp + pp + pp + pp + pp;
    let three_doublings = pp.double().double().double();
    assert_eq!(naive_sum, three_doublings);
    assert_eq!(evaluate_bucketed(&bases, &scalars, 4).unwrap().point().inner, naive_sum);
    assert_eq!(evaluate_naive(&bases, &scalars).unwrap().point().inner, naive_sum);
}
