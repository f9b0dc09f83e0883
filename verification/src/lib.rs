//! In-place discrete Fourier transform for power-of-two-length sequences.
//!
//! The crate verifies the index-level machinery of the iterative radix-2
//! Cooley–Tukey algorithm: the bit-reversal permutation, the butterfly
//! pairing schedule, the twiddle-factor plan layout, and the packing and
//! unpacking of real-data spectra. Complex samples are carried as the raw
//! IEEE-754 bit patterns of their two double-precision parts, so every
//! data movement is exact and provable; the floating-point arithmetic that
//! combines samples is left to the (unverified) driver around the crate.
//!
//! There are three transform operations: forward, backward, and inverse.
//! The desired operation is recorded in a [`Plan`] together with the
//! precomputed rotation factors that every butterfly stage consumes; the
//! plan is immutable after construction and may be reused for any number
//! of transforms of the same size.

pub mod bitrev;
pub mod complex;
pub mod spectrum;

pub use spectrum::unpack;

use crate::bitrev::is_power_of_two;
use crate::complex::Complex;
use vstd::prelude::*;

verus! {

/// A transform operation.
#[derive(Clone, Copy, Debug, Eq, PartialEq, Structural)]
pub enum Operation {
    /// The forward transform.
    Forward,
    /// The backward transform.
    Backward,
    /// The inverse transform.
    Inverse,
}

/// A transform plan: the length and operation of a transform together with
/// the precomputed rotation factors the butterfly network consumes, one per
/// merge position across all stages and laid out stage by stage, so that
/// stage `s` reads factors `pow2(s) - 1 .. 2 * pow2(s) - 1`.
///
/// A plan never changes after construction, which is what makes reusing it
/// across many transforms of one size safe.
#[derive(Clone, Debug)]
pub struct Plan {
    n: usize,
    factors: Vec<Complex>,
    operation: Operation,
}

impl Plan {
    /// The transform length the plan was built for.
    pub closed spec fn size_spec(self) -> nat {
        self.n as nat
    }

    /// The stored factor table, as bit-pattern samples.
    pub closed spec fn factors_spec(self) -> Seq<Complex> {
        self.factors@
    }

    /// The operation the plan was built for.
    pub closed spec fn operation_spec(self) -> Operation {
        self.operation
    }

    /// The plan invariant: the length is a power of two and the factor
    /// table holds exactly one entry per non-trivial merge position, that
    /// is `size - 1` entries over all `log2(size)` stages.
    pub open spec fn wf(self) -> bool {
        is_power_of_two(self.size_spec()) && self.factors_spec().len() == self.size_spec() - 1
    }

    /// Create a plan for a specific operation and specific number of
    /// points, from the factor table the caller precomputed for that
    /// operation: stage by stage, `exp(sign * i * pi * t / step)` for each
    /// `t < step`, with the rotation sign negative exactly for the forward
    /// operation. The number of points must be a power of two.
    pub fn new(operation: Operation, n: usize, factors: Vec<Complex>) -> (p: Plan)
        requires
            is_power_of_two(n as nat),
            factors@.len() == n - 1,
        ensures
            p.wf(),
            p.size_spec() == n,
            p.operation_spec() == operation,
            p.factors_spec() == factors@,
    {
        Plan { n, factors, operation }
    }

    /// The transform length the plan was built for.
    pub fn size(&self) -> (r: usize)
        ensures
            r == self.size_spec(),
    {
        self.n
    }

    /// The operation the plan was built for.
    pub fn operation(&self) -> (r: Operation)
        ensures
            r == self.operation_spec(),
    {
        self.operation
    }

    /// The number of stored factors.
    pub fn factor_count(&self) -> (r: usize)
        ensures
            r == self.factors_spec().len(),
    {
        self.factors.len()
    }

    /// The stored factor at index `k`.
    pub fn factor(&self, k: usize) -> (r: Complex)
        requires
            k < self.factors_spec().len(),
        ensures
            r == self.factors_spec()[k as int],
    {
        self.factors[k]
    }
}

} // verus!
