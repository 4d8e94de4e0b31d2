//! Exact amplitude values: a discrete phase times a power of `1/sqrt(2)`.

use vstd::prelude::*;
use crate::phase_factor::{PhaseFactor, pk_mul};

verus! {

/// A scalar of the form `phase * 2^(-r/2)`, or zero.
///
/// Amplitudes and inner products of stabilizer states always have this shape,
/// so they are carried exactly; nothing in the library rounds.
#[derive(Debug, Clone, Copy, PartialEq, Eq, Structural)]
pub enum Scalar {
    Zero,
    NonZero { phase: PhaseFactor, r: usize },
}

impl Scalar {
    /// The phase exponent is reduced modulo 8.
    pub open spec fn inv(self) -> bool {
        match self {
            Scalar::Zero => true,
            Scalar::NonZero { phase, r } => phase.inv(),
        }
    }

    /// The sum of the `1/sqrt(2)` exponents stays within the machine range.
    pub open spec fn mul_fits(self, rhs: Self) -> bool {
        match (self, rhs) {
            (Scalar::NonZero { phase: p1, r: r1 }, Scalar::NonZero { phase: p2, r: r2 }) => r1
                + r2 <= usize::MAX,
            _ => true,
        }
    }

    /// Multiplies two scalars: phases multiply, the `1/sqrt(2)` exponents add.
    pub fn mul(self, rhs: Self) -> (res: Self)
        requires
            self.inv(),
            rhs.inv(),
            self.mul_fits(rhs),
        ensures
            res.inv(),
            res == scalar_mul(self, rhs),
    {
        match (self, rhs) {
            (Scalar::Zero, _) => Scalar::Zero,
            (_, Scalar::Zero) => Scalar::Zero,
            (Scalar::NonZero { phase: p1, r: r1 }, Scalar::NonZero { phase: p2, r: r2 }) => {
                let p = p1.mul(p2);
                proof {
                    crate::phase_factor::lemma_from_k_spec(pk_mul(p1.spec_k(), p2.spec_k()));
                    crate::phase_factor::lemma_phase_eq(
                        p,
                        PhaseFactor::from_k_spec(pk_mul(p1.spec_k(), p2.spec_k())),
                    );
                }
                Scalar::NonZero { phase: p, r: r1 + r2 }
            },
        }
    }

    /// Multiplies the scalar by a unit phase; zero stays zero.
    pub fn mul_phase(self, rhs: PhaseFactor) -> (res: Self)
        requires
            self.inv(),
            rhs.inv(),
        ensures
            res.inv(),
            res == scalar_mul_phase(self, rhs),
    {
        match self {
            Scalar::Zero => Scalar::Zero,
            Scalar::NonZero { phase, r } => {
                let p = phase.mul(rhs);
                proof {
                    crate::phase_factor::lemma_from_k_spec(pk_mul(phase.spec_k(), rhs.spec_k()));
                    crate::phase_factor::lemma_phase_eq(
                        p,
                        PhaseFactor::from_k_spec(pk_mul(phase.spec_k(), rhs.spec_k())),
                    );
                }
                Scalar::NonZero { phase: p, r }
            },
        }
    }
}

/// What `Scalar::mul` returns.
pub open spec fn scalar_mul(a: Scalar, b: Scalar) -> Scalar {
    match (a, b) {
        (Scalar::Zero, _) => Scalar::Zero,
        (_, Scalar::Zero) => Scalar::Zero,
        (Scalar::NonZero { phase: p1, r: r1 }, Scalar::NonZero { phase: p2, r: r2 }) => {
            Scalar::NonZero {
                phase: PhaseFactor::from_k_spec(pk_mul(p1.spec_k(), p2.spec_k())),
                r: (r1 + r2) as usize,
            }
        },
    }
}

/// What `Scalar::mul_phase` returns.
pub open spec fn scalar_mul_phase(a: Scalar, b: PhaseFactor) -> Scalar {
    match a {
        Scalar::Zero => Scalar::Zero,
        Scalar::NonZero { phase, r } => Scalar::NonZero {
            phase: PhaseFactor::from_k_spec(pk_mul(phase.spec_k(), b.spec_k())),
            r,
        },
    }
}

} // verus!
