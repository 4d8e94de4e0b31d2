//! Amplitudes in the computational basis, and the exact statevector.
//!
//! Every value is an exact [`Scalar`]; turning one into a floating complex
//! number is the caller's final step and no business of the library.

use vstd::prelude::*;
use vstd::arithmetic::power2::pow2;
use crate::error::SimError;
use crate::model::{amp0_spec, amp_basis_spec, apply_x_fold, bits_of, count_true};
use crate::phase_factor::PhaseFactor;
use crate::scalar::{scalar_mul_phase, Scalar};
use crate::state::{lemma_view, lemma_wf_dims, StabilizerCHForm};

verus! {

broadcast use lemma_view;

impl StabilizerCHForm {
    /// The amplitude `<0...0|phi>`, excluding the free global phase
    /// `omega`.
    pub fn amplitude_at_zero(&self) -> (res: Scalar)
        requires
            self.wf(),
        ensures
            res == amp0_spec(self@),
            res.inv(),
    {
        proof {
            lemma_wf_dims(*self);
        }
        let ghost c = self@;
        let n = self.n;
        let mut i: usize = 0;
        while i < n
            invariant
                i <= n,
                n as nat == c.n,
                c == self@,
                self.wf(),
                self.vec_v@ == c.v,
                self.vec_v@.len() == n,
                self.vec_s@ == c.s,
                self.vec_s@.len() == n,
                forall|k: int| 0 <= k < i ==> !(!c.v[k] && #[trigger] c.s[k]),
            decreases n - i,
        {
            if !self.vec_v[i] && self.vec_s[i] {
                proof {
                    assert(!c.v[i as int] && c.s[i as int]);
                }
                return Scalar::Zero;
            }
            i = i + 1;
        }
        let mut weight: usize = 0;
        let mut k: usize = 0;
        while k < n
            invariant
                k <= n,
                n as nat == c.n,
                c == self@,
                self.wf(),
                self.vec_v@ == c.v,
                self.vec_v@.len() == n,
                weight as int == count_true(c.v.take(k as int)),
                weight <= k,
            decreases n - k,
        {
            if self.vec_v[k] {
                weight = weight + 1;
            }
            proof {
                assert(c.v.take(k + 1).drop_last() =~= c.v.take(k as int));
                assert(c.v.take(k + 1).last() == c.v[k as int]);
            }
            k = k + 1;
        }
        proof {
            assert(c.v.take(n as int) =~= c.v);
            assert(!(exists|j: int| 0 <= j < c.n && !c.v[j] && c.s[j]));
            crate::phase_factor::lemma_from_k_spec(c.pf);
            crate::phase_factor::lemma_phase_eq(
                self.phase_factor,
                PhaseFactor::from_k_spec(c.pf),
            );
        }
        Scalar::NonZero { phase: self.phase_factor, r: weight }
    }

    /// The amplitude `<bits|phi>`, excluding `omega`, for a basis string of
    /// the right length.
    pub(crate) fn _amplitude_at_computational_basis(&self, bits: &Vec<bool>) -> (res: Scalar)
        requires
            self.wf(),
            bits@.len() == self@.n,
        ensures
            res == amp_basis_spec(self@, bits@),
            res.inv(),
    {
        proof {
            lemma_wf_dims(*self);
        }
        let ghost c = self@;
        let n = self.n;
        let mut scratch = self.clone();
        let mut i: usize = 0;
        while i < n
            invariant
                i <= n,
                n as nat == c.n,
                bits@.len() == n,
                scratch.wf(),
                scratch@.n == c.n,
                scratch@ == apply_x_fold(c, bits@, i as int),
            decreases n - i,
        {
            if bits[i] {
                scratch._left_multiply_x(i);
            }
            i = i + 1;
        }
        scratch.amplitude_at_zero()
    }

    /// The amplitude `<bits|phi>`, excluding `omega`.  The basis string
    /// must name every qubit.
    pub fn amplitude_at_computational_basis(&self, bits: &Vec<bool>) -> (res: Result<
        Scalar,
        SimError,
    >)
        requires
            self.wf(),
        ensures
            bits@.len() == self@.n ==> res == Result::<Scalar, SimError>::Ok(
                amp_basis_spec(self@, bits@),
            ),
            bits@.len() != self@.n ==> res == Result::<Scalar, SimError>::Err(
                SimError::InvalidArgument,
            ),
    {
        proof {
            lemma_wf_dims(*self);
        }
        if bits.len() != self.n {
            return Err(SimError::InvalidArgument);
        }
        Ok(self._amplitude_at_computational_basis(bits))
    }

    /// The full statevector as exact amplitudes, including `omega`: entry
    /// `i` is the amplitude of the basis string whose bit `j` is digit `j`
    /// of `i`, little-endian.  Exponential in the qubit count; meant for
    /// tests and debugging.
    pub fn to_statevector(&self) -> (res: Vec<Scalar>)
        requires
            self.wf(),
            pow2(self@.n) <= usize::MAX,
        ensures
            res@.len() == pow2(self@.n),
            forall|i: int|
                0 <= i < res@.len() ==> #[trigger] res@[i] == scalar_mul_phase(
                    amp_basis_spec(self@, bits_of(i, self@.n)),
                    PhaseFactor::from_k_spec(self@.omega),
                ),
    {
        proof {
            lemma_wf_dims(*self);
        }
        let ghost c = self@;
        let n = self.n;
        proof {
            vstd::arithmetic::power2::lemma2_to64();
        }
        let mut dim: usize = 1;
        let mut e: usize = 0;
        while e < n
            invariant
                e <= n,
                n as nat == c.n,
                pow2(c.n) <= usize::MAX,
                dim as nat == pow2(e as nat),
            decreases n - e,
        {
            proof {
                vstd::arithmetic::power2::lemma_pow2_unfold((e + 1) as nat);
                if ((e + 1) as nat) < c.n {
                    vstd::arithmetic::power2::lemma_pow2_strictly_increases(
                        (e + 1) as nat,
                        c.n,
                    );
                }
                assert(pow2((e + 1) as nat) <= pow2(c.n));
            }
            dim = dim * 2;
            e = e + 1;
        }
        let ghost om = PhaseFactor::from_k_spec(c.omega);
        let omega = self.global_phase();
        proof {
            crate::phase_factor::lemma_from_k_spec(c.omega);
            crate::phase_factor::lemma_phase_eq(omega, om);
        }
        let mut res: Vec<Scalar> = Vec::new();
        let mut i: usize = 0;
        while i < dim
            invariant
                i <= dim,
                n as nat == c.n,
                c == self@,
                self.wf(),
                dim as nat == pow2(c.n),
                omega == om,
                omega.inv(),
                om.spec_k() == c.omega,
                res@.len() == i,
                forall|k: int|
                    0 <= k < i ==> #[trigger] res@[k] == scalar_mul_phase(
                        amp_basis_spec(c, bits_of(k, c.n)),
                        om,
                    ),
            decreases dim - i,
        {
            let mut bits: Vec<bool> = Vec::new();
            let mut rem: usize = i;
            proof {
                vstd::arithmetic::power2::lemma2_to64();
            }
            let mut j: usize = 0;
            while j < n
                invariant
                    j <= n,
                    n as nat == c.n,
                    rem as int == i as int / pow2(j as nat) as int,
                    bits@ =~= bits_of(i as int, c.n).take(j as int),
                decreases n - j,
            {
                bits.push(rem % 2 == 1);
                proof {
                    vstd::arithmetic::power2::lemma_pow2_unfold((j + 1) as nat);
                    vstd::arithmetic::power2::lemma_pow2_pos(j as nat);
                    vstd::arithmetic::div_mod::lemma_div_denominator(
                        i as int,
                        pow2(j as nat) as int,
                        2,
                    );
                    assert(bits@ =~= bits_of(i as int, c.n).take(j + 1));
                }
                rem = rem / 2;
                j = j + 1;
            }
            proof {
                assert(bits_of(i as int, c.n).take(n as int) =~= bits_of(i as int, c.n));
            }
            let amp = self._amplitude_at_computational_basis(&bits);
            res.push(amp.mul_phase(omega));
            i = i + 1;
        }
        res
    }
}

} // verus!
