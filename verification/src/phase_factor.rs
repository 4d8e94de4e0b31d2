//! Discrete phases: eighth roots of unity.

use vstd::prelude::*;

verus! {

/// A phase of the form `e^(i * k * pi / 4)` for `k` in `0..8`, stored as `k`.
///
/// The four canonical phases `1, i, -1, -i` are the even values of `k`; the
/// odd values arise only as overall phases collected during superposition
/// resolution.
#[derive(Debug, Clone, Copy, PartialEq, Eq, Structural)]
pub struct PhaseFactor {
    k: u8,
}

/// Addition of phase exponents modulo 8.
pub open spec fn pk_mul(a: int, b: int) -> int {
    (a + b) % 8
}

/// Negation of a phase exponent modulo 8: the complex conjugate.
pub open spec fn pk_conj(a: int) -> int {
    (8 - a) % 8
}

impl PhaseFactor {
    /// The exponent `k`, as a spec-level integer.
    pub closed spec fn spec_k(self) -> int {
        self.k as int
    }

    /// The phase with exponent `k`, at the spec level.
    pub closed spec fn from_k_spec(k: int) -> PhaseFactor {
        PhaseFactor { k: k as u8 }
    }

    /// Every phase in the library keeps its exponent reduced modulo 8.
    pub open spec fn inv(self) -> bool {
        0 <= self.spec_k() < 8
    }

    /// The phase is one of the four canonical values `1, i, -1, -i`.
    pub open spec fn is_fourth_root(self) -> bool {
        self.inv() && self.spec_k() % 2 == 0
    }

    /// Builds the phase `e^(i * k * pi / 4)`; `k` is reduced modulo 8.
    pub fn new(k: u8) -> (r: Self)
        ensures
            r.spec_k() == k as int % 8,
            r.inv(),
    {
        PhaseFactor { k: k % 8 }
    }

    /// The phase `+1`.
    pub fn plus_one() -> (r: Self)
        ensures
            r.spec_k() == 0,
            r.inv(),
    {
        PhaseFactor { k: 0 }
    }

    /// The phase `+i`.
    pub fn plus_i() -> (r: Self)
        ensures
            r.spec_k() == 2,
            r.inv(),
    {
        PhaseFactor { k: 2 }
    }

    /// The phase `e^(i * pi / 4)`.
    pub fn exp_i_pi_4() -> (r: Self)
        ensures
            r.spec_k() == 1,
            r.inv(),
    {
        PhaseFactor { k: 1 }
    }

    /// The phase `e^(i * 7 * pi / 4)`.
    pub fn exp_i_7pi_4() -> (r: Self)
        ensures
            r.spec_k() == 7,
            r.inv(),
    {
        PhaseFactor { k: 7 }
    }

    /// The phase `-1`.
    pub fn minus_one() -> (r: Self)
        ensures
            r.spec_k() == 4,
            r.inv(),
    {
        PhaseFactor { k: 4 }
    }

    /// The phase `-i`.
    pub fn minus_i() -> (r: Self)
        ensures
            r.spec_k() == 6,
            r.inv(),
    {
        PhaseFactor { k: 6 }
    }

    /// Multiplies two phases: exponents add modulo 8.
    pub fn mul(self, rhs: Self) -> (r: Self)
        requires
            self.inv(),
            rhs.inv(),
        ensures
            r.spec_k() == pk_mul(self.spec_k(), rhs.spec_k()),
            r.inv(),
    {
        PhaseFactor { k: (self.k + rhs.k) % 8 }
    }

    /// The complex conjugate: the exponent is negated modulo 8.
    pub fn conjugated(&self) -> (r: Self)
        requires
            self.inv(),
        ensures
            r.spec_k() == pk_conj(self.spec_k()),
            r.inv(),
    {
        PhaseFactor { k: (8 - self.k) % 8 }
    }

    /// In-place version of `conjugated`.
    pub fn conjugate_mut(&mut self)
        requires
            old(self).inv(),
        ensures
            final(self).spec_k() == pk_conj(old(self).spec_k()),
            final(self).inv(),
    {
        *self = self.conjugated();
    }

    /// The phase multiplied by `-1`: adds 4 to the exponent modulo 8.
    pub fn flipped(&self) -> (r: Self)
        requires
            self.inv(),
        ensures
            r.spec_k() == pk_mul(self.spec_k(), 4),
            r.inv(),
    {
        PhaseFactor { k: (self.k + 4) % 8 }
    }

    /// In-place version of `flipped`.
    pub fn flip_sign(&mut self)
        requires
            old(self).inv(),
        ensures
            final(self).spec_k() == pk_mul(old(self).spec_k(), 4),
            final(self).inv(),
    {
        *self = self.flipped();
    }

    /// The exponent `k` as an integer in `0..8`.
    pub fn to_int(&self) -> (r: u8)
        ensures
            r as int == self.spec_k(),
    {
        self.k
    }
}

/// A phase built from an exponent already in `0..8` has that exponent.
pub broadcast proof fn lemma_from_k_spec(k: int)
    requires
        0 <= k < 8,
    ensures
        (#[trigger] PhaseFactor::from_k_spec(k)).spec_k() == k,
        PhaseFactor::from_k_spec(k).inv(),
{
}

/// Two phases with the same exponent are the same phase.
pub broadcast proof fn lemma_phase_eq(a: PhaseFactor, b: PhaseFactor)
    requires
        #[trigger] a.spec_k() == #[trigger] b.spec_k(),
    ensures
        a == b,
{
}

} // verus!
