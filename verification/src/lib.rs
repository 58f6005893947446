//! A multi-scalar multiplication (MSM) engine over the BLS12-381 curve.
//!
//! Given n curve points (bases) and n scalars, the engine computes the single
//! point equal to the sum of each base multiplied by its paired scalar.  Three
//! evaluators are offered: a naive double-and-add evaluator, a windowed bucket
//! (Pippenger) evaluator, and a slice-splitting reduction layer over either.
//!
//! The curve arithmetic itself comes from the arkworks crates and is treated
//! as an opaque, correct collaborator; each wrapped operation's result is
//! pinned to a named function of its operands.  What is verified here is
//! everything the engine decides on its own: the bit and digit decomposition
//! of scalars, and the exact linear combination of the input bases that every
//! evaluator assembles out of the collaborator's group operations.  Each
//! evaluator result carries a sealed ghost coefficient vector that only the
//! group operations themselves can build, and the evaluators prove that this
//! vector equals the input scalars — for every window width, slice split and
//! worker count.  The naive evaluator's point is additionally pinned, over
//! the named operations, to the double-and-add sum its contract writes out.

pub mod curve;
pub mod laws;
pub mod naive;
pub mod parallel;
pub mod pippenger;
pub mod point;
pub mod scalar;

use vstd::prelude::*;

verus! {

/// Everything that can go wrong inside an evaluator.
#[derive(Debug, Clone, Copy, PartialEq, Eq, Structural)]
pub enum MsmError {
    /// The bases and the scalars differ in length; detected before any work.
    DimensionMismatch,
    /// A slice of a fork-join run failed.  The verified reduction layer
    /// proves its slices well-formed and never produces this; it is part of
    /// the error taxonomy for outside fork-join drivers of the engine.
    WorkerFailure,
    /// The window width is zero or exceeds the scalar bit width.
    InvalidWindowWidth,
}

} // verus!
