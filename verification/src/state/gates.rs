//! Left multiplication: applying a Clifford generator to the state.

use vstd::prelude::*;
use crate::error::SimError;
use crate::model::{
    alpha_spec, beta_spec, h_delta_spec, h_ok, h_t_spec, h_u_spec, left_cx_spec, left_cz_spec,
    left_h_spec, left_s_spec, left_sdg_spec, left_sqrt_x_spec, left_sqrt_xdg_spec, left_x_spec,
    left_y_spec, left_z_spec, pk_mul_k, row_xor, sqrt_x_ok, sqrt_xdg_ok, x_u_spec,
};
use crate::phase_factor::PhaseFactor;
use crate::state::{
    clone_bits, lemma_view, lemma_wf_dims, mat_sv, negate_bits, parity_and2, parity_and3,
    phases_sv, xor_rows, StabilizerCHForm,
};

verus! {

broadcast use lemma_view;

impl StabilizerCHForm {
    /// The update rule of S: `M[j,:] ^= G[j,:]`, `gamma[j] *= -i`.
    pub(crate) fn _left_multiply_s(&mut self, qarg: usize)
        requires
            old(self).wf(),
            (qarg as nat) < old(self)@.n,
        ensures
            final(self).wf(),
            final(self)@ == left_s_spec(old(self)@, qarg as int),
    {
        proof {
            lemma_wf_dims(*self);
        }
        let new_row = xor_rows(&self.mat_m[qarg], &self.mat_g[qarg]);
        self.mat_m[qarg] = new_row;
        self.gamma[qarg] = self.gamma[qarg].mul(PhaseFactor::minus_i());
        proof {
            let c = old(self)@;
            let j = qarg as int;
            assert forall|p: int| 0 <= p < c.n implies mat_sv(self.mat_m@)[p] =~= c.m.update(
                j,
                row_xor(c.m[j], c.g[j]),
            )[p] by {
                assert(mat_sv(self.mat_m@)[p] == self.mat_m@[p]@);
            }
            assert(mat_sv(self.mat_m@) =~~= c.m.update(j, row_xor(c.m[j], c.g[j])));
            assert(phases_sv(self.gamma@) =~= c.gamma.update(j, pk_mul_k(c.gamma[j], 6)));
            assert(self@ == left_s_spec(c, j));
        }
    }

    /// The update rule of S-dagger: `M[j,:] ^= G[j,:]`, `gamma[j] *= +i`.
    pub(crate) fn _left_multiply_sdg(&mut self, qarg: usize)
        requires
            old(self).wf(),
            (qarg as nat) < old(self)@.n,
        ensures
            final(self).wf(),
            final(self)@ == left_sdg_spec(old(self)@, qarg as int),
    {
        proof {
            lemma_wf_dims(*self);
        }
        let new_row = xor_rows(&self.mat_m[qarg], &self.mat_g[qarg]);
        self.mat_m[qarg] = new_row;
        self.gamma[qarg] = self.gamma[qarg].mul(PhaseFactor::plus_i());
        proof {
            let c = old(self)@;
            let j = qarg as int;
            assert forall|p: int| 0 <= p < c.n implies mat_sv(self.mat_m@)[p] =~= c.m.update(
                j,
                row_xor(c.m[j], c.g[j]),
            )[p] by {
                assert(mat_sv(self.mat_m@)[p] == self.mat_m@[p]@);
            }
            assert(mat_sv(self.mat_m@) =~~= c.m.update(j, row_xor(c.m[j], c.g[j])));
            assert(phases_sv(self.gamma@) =~= c.gamma.update(j, pk_mul_k(c.gamma[j], 2)));
            assert(self@ == left_sdg_spec(c, j));
        }
    }

    /// The update rule of Z: `gamma[j] *= -1`.
    pub(crate) fn _left_multiply_z(&mut self, qarg: usize)
        requires
            old(self).wf(),
            (qarg as nat) < old(self)@.n,
        ensures
            final(self).wf(),
            final(self)@ == left_z_spec(old(self)@, qarg as int),
    {
        proof {
            lemma_wf_dims(*self);
        }
        self.gamma[qarg] = self.gamma[qarg].flipped();
        proof {
            let c = old(self)@;
            let j = qarg as int;
            assert(phases_sv(self.gamma@) =~= c.gamma.update(j, pk_mul_k(c.gamma[j], 4)));
            assert(self@ == left_z_spec(c, j));
        }
    }

    /// The update rule of X: a new basis string and a phase fix-up.
    pub(crate) fn _left_multiply_x(&mut self, qarg: usize)
        requires
            old(self).wf(),
            (qarg as nat) < old(self)@.n,
        ensures
            final(self).wf(),
            final(self)@ == left_x_spec(old(self)@, qarg as int),
    {
        proof {
            lemma_wf_dims(*self);
        }
        let ghost c = old(self)@;
        let ghost j = qarg as int;
        let n = self.n;
        let f_row = clone_bits(&self.mat_f[qarg]);
        let m_row = clone_bits(&self.mat_m[qarg]);
        let not_v = negate_bits(&self.vec_v);

        let mut u: Vec<bool> = Vec::new();
        let mut i: usize = 0;
        while i < n
            invariant
                i <= n,
                *self == *old(self),
                self.wf(),
                n as nat == c.n,
                c == self@,
                f_row@ == c.f[j],
                m_row@ == c.m[j],
                0 <= j < c.n,
                u@ =~= x_u_spec(c, j).take(i as int),
            decreases n - i,
        {
            proof {
                lemma_wf_dims(*self);
            }
            u.push((self.vec_s[i] != (f_row[i] && !self.vec_v[i])) != (m_row[i] && self.vec_v[i]));
            proof {
                assert(u@ =~= x_u_spec(c, j).take(i + 1));
            }
            i = i + 1;
        }
        proof {
            assert(x_u_spec(c, j).take(n as int) =~= x_u_spec(c, j));
        }

        let t1 = parity_and3(&m_row, &not_v, &self.vec_s);
        let t2 = parity_and3(&f_row, &self.vec_v, &m_row);
        let t3 = parity_and3(&f_row, &self.vec_v, &self.vec_s);
        let beta = (t1 != t2) != t3;
        proof {
            assert(Seq::new(m_row@.len(), |i: int| m_row@[i] && not_v@[i] && self.vec_s@[i]) =~= Seq::new(
                c.n,
                |i: int| c.m[j][i] && !c.v[i] && c.s[i],
            ));
            assert(Seq::new(f_row@.len(), |i: int| f_row@[i] && self.vec_v@[i] && m_row@[i]) =~= Seq::new(
                c.n,
                |i: int| c.f[j][i] && c.v[i] && c.m[j][i],
            ));
            assert(Seq::new(f_row@.len(), |i: int| f_row@[i] && self.vec_v@[i] && self.vec_s@[i])
                =~= Seq::new(c.n, |i: int| c.f[j][i] && c.v[i] && c.s[i]));
            assert(beta == beta_spec(c, j));
        }

        if beta {
            self.phase_factor = self.phase_factor.flipped();
        }
        self.phase_factor = self.phase_factor.mul(self.gamma[qarg]);
        self.vec_s = u;
        proof {
            assert(self@.s =~= x_u_spec(c, j));
            assert(self@ == left_x_spec(c, j));
        }
    }

    /// The update rule of Y: `Z`, then `X`, then a global factor of `+i`.
    pub(crate) fn _left_multiply_y(&mut self, qarg: usize)
        requires
            old(self).wf(),
            (qarg as nat) < old(self)@.n,
        ensures
            final(self).wf(),
            final(self)@ == left_y_spec(old(self)@, qarg as int),
    {
        self._left_multiply_z(qarg);
        self._left_multiply_x(qarg);
        self.phase_factor = self.phase_factor.mul(PhaseFactor::plus_i());
        proof {
            assert(self@ == left_y_spec(old(self)@, qarg as int));
        }
    }

    /// The update rule of CX: a phase fix-up from the rows before the
    /// update, then three row sums.
    pub(crate) fn _left_multiply_cx(&mut self, control: usize, target: usize)
        requires
            old(self).wf(),
            (control as nat) < old(self)@.n,
            (target as nat) < old(self)@.n,
            control != target,
        ensures
            final(self).wf(),
            final(self)@ == left_cx_spec(old(self)@, control as int, target as int),
    {
        proof {
            lemma_wf_dims(*self);
        }
        let ghost c = old(self)@;
        let ghost ci = control as int;
        let ghost ti = target as int;

        let dot = parity_and2(&self.mat_m[control], &self.mat_f[target]);
        let mut val = self.gamma[control].mul(self.gamma[target]);
        if dot {
            val = val.flipped();
        }
        self.gamma[control] = val;

        let g_new = xor_rows(&self.mat_g[target], &self.mat_g[control]);
        self.mat_g[target] = g_new;
        let f_new = xor_rows(&self.mat_f[control], &self.mat_f[target]);
        self.mat_f[control] = f_new;
        let m_new = xor_rows(&self.mat_m[control], &self.mat_m[target]);
        self.mat_m[control] = m_new;

        proof {
            let tgt = left_cx_spec(c, ci, ti);
            assert(phases_sv(self.gamma@) =~= tgt.gamma);
            assert forall|p: int| 0 <= p < c.n implies mat_sv(self.mat_g@)[p] =~= tgt.g[p] by {
                assert(mat_sv(self.mat_g@)[p] == self.mat_g@[p]@);
            }
            assert(mat_sv(self.mat_g@) =~~= tgt.g);
            assert forall|p: int| 0 <= p < c.n implies mat_sv(self.mat_f@)[p] =~= tgt.f[p] by {
                assert(mat_sv(self.mat_f@)[p] == self.mat_f@[p]@);
            }
            assert(mat_sv(self.mat_f@) =~~= tgt.f);
            assert forall|p: int| 0 <= p < c.n implies mat_sv(self.mat_m@)[p] =~= tgt.m[p] by {
                assert(mat_sv(self.mat_m@)[p] == self.mat_m@[p]@);
            }
            assert(mat_sv(self.mat_m@) =~~= tgt.m);
            assert(self@ == tgt);
        }
    }

    /// The update rule of CZ: two row sums into `M`.
    pub(crate) fn _left_multiply_cz(&mut self, qarg1: usize, qarg2: usize)
        requires
            old(self).wf(),
            (qarg1 as nat) < old(self)@.n,
            (qarg2 as nat) < old(self)@.n,
            qarg1 != qarg2,
        ensures
            final(self).wf(),
            final(self)@ == left_cz_spec(old(self)@, qarg1 as int, qarg2 as int),
    {
        proof {
            lemma_wf_dims(*self);
        }
        let ghost c = old(self)@;
        let m1 = xor_rows(&self.mat_m[qarg1], &self.mat_g[qarg2]);
        self.mat_m[qarg1] = m1;
        let m2 = xor_rows(&self.mat_m[qarg2], &self.mat_g[qarg1]);
        self.mat_m[qarg2] = m2;
        proof {
            let tgt = left_cz_spec(c, qarg1 as int, qarg2 as int);
            assert forall|p: int| 0 <= p < c.n implies mat_sv(self.mat_m@)[p] =~= tgt.m[p] by {
                assert(mat_sv(self.mat_m@)[p] == self.mat_m@[p]@);
            }
            assert(mat_sv(self.mat_m@) =~~= tgt.m);
            assert(self@ == tgt);
        }
    }

    /// The branches, sign exponents and relative phase that H on `qarg`
    /// hands to superposition resolution.
    pub(crate) fn _prepare_h_superposition_args(&self, qarg: usize) -> (res: (
        Vec<bool>,
        Vec<bool>,
        bool,
        bool,
    ))
        requires
            self.wf(),
            (qarg as nat) < self@.n,
        ensures
            res.0@ == h_t_spec(self@, qarg as int),
            res.1@ == h_u_spec(self@, qarg as int),
            res.2 == alpha_spec(self@, qarg as int),
            res.3 == beta_spec(self@, qarg as int),
    {
        proof {
            lemma_wf_dims(*self);
        }
        let ghost c = self@;
        let ghost j = qarg as int;
        let n = self.n;
        let g_row = clone_bits(&self.mat_g[qarg]);
        let f_row = clone_bits(&self.mat_f[qarg]);
        let m_row = clone_bits(&self.mat_m[qarg]);
        let not_v = negate_bits(&self.vec_v);

        let mut t: Vec<bool> = Vec::new();
        let mut u: Vec<bool> = Vec::new();
        let mut i: usize = 0;
        while i < n
            invariant
                i <= n,
                n as nat == c.n,
                c == self@,
                self.wf(),
                self.vec_s@ == c.s,
                self.vec_v@ == c.v,
                self.vec_s@.len() == n,
                self.vec_v@.len() == n,
                g_row@ == c.g[j],
                f_row@ == c.f[j],
                m_row@ == c.m[j],
                g_row@.len() == n,
                f_row@.len() == n,
                m_row@.len() == n,
                0 <= j < c.n,
                t@ =~= h_t_spec(c, j).take(i as int),
                u@ =~= h_u_spec(c, j).take(i as int),
            decreases n - i,
        {
            t.push(self.vec_s[i] != (g_row[i] && self.vec_v[i]));
            u.push((self.vec_s[i] != (f_row[i] && !self.vec_v[i])) != (m_row[i] && self.vec_v[i]));
            proof {
                assert(t@ =~= h_t_spec(c, j).take(i + 1));
                assert(u@ =~= h_u_spec(c, j).take(i + 1));
            }
            i = i + 1;
        }
        proof {
            assert(h_t_spec(c, j).take(n as int) =~= h_t_spec(c, j));
            assert(h_u_spec(c, j).take(n as int) =~= h_u_spec(c, j));
        }

        let alpha = parity_and3(&g_row, &not_v, &self.vec_s);
        let t1 = parity_and3(&m_row, &not_v, &self.vec_s);
        let t2 = parity_and3(&f_row, &self.vec_v, &m_row);
        let t3 = parity_and3(&f_row, &self.vec_v, &self.vec_s);
        let beta = (t1 != t2) != t3;
        proof {
            assert(Seq::new(g_row@.len(), |i: int| g_row@[i] && not_v@[i] && self.vec_s@[i]) =~= Seq::new(
                c.n,
                |i: int| c.g[j][i] && !c.v[i] && c.s[i],
            ));
            assert(Seq::new(m_row@.len(), |i: int| m_row@[i] && not_v@[i] && self.vec_s@[i]) =~= Seq::new(
                c.n,
                |i: int| c.m[j][i] && !c.v[i] && c.s[i],
            ));
            assert(Seq::new(f_row@.len(), |i: int| f_row@[i] && self.vec_v@[i] && m_row@[i]) =~= Seq::new(
                c.n,
                |i: int| c.f[j][i] && c.v[i] && c.m[j][i],
            ));
            assert(Seq::new(f_row@.len(), |i: int| f_row@[i] && self.vec_v@[i] && self.vec_s@[i])
                =~= Seq::new(c.n, |i: int| c.f[j][i] && c.v[i] && c.s[i]));
            assert(alpha == alpha_spec(c, j));
            assert(beta == beta_spec(c, j));
        }
        (t, u, alpha, beta)
    }

    /// The update rule of H: computes the two branches and their relative
    /// phase, then resolves the superposition.
    pub(crate) fn _left_multiply_h(&mut self, qarg: usize) -> (res: Result<(), SimError>)
        requires
            old(self).wf(),
            (qarg as nat) < old(self)@.n,
        ensures
            final(self).wf(),
            final(self)@.n == old(self)@.n,
            h_ok(old(self)@, qarg as int) ==> res is Ok && final(self)@ == left_h_spec(
                old(self)@,
                qarg as int,
            ),
            !h_ok(old(self)@, qarg as int) ==> res == Result::<(), SimError>::Err(
                SimError::InvalidState,
            ) && final(self)@ == old(self)@,
    {
        proof {
            lemma_wf_dims(*self);
        }
        let ghost c = old(self)@;
        let ghost j = qarg as int;
        let (t, u, alpha, beta) = self._prepare_h_superposition_args(qarg);
        let delta = if alpha != beta {
            self.gamma[qarg].flipped()
        } else {
            self.gamma[qarg]
        };
        proof {
            assert(delta.spec_k() == h_delta_spec(c, j));
            assert(delta.is_fourth_root());
        }
        if crate::state::resolve::vecs_equal(&t, &u) && delta.to_int() == 4 {
            return Err(SimError::InvalidState);
        }
        if alpha {
            self.phase_factor = self.phase_factor.flipped();
        }
        let res = self._resolve_superposition(&t, &u, delta);
        proof {
            assert(h_ok(c, j));
        }
        res
    }

    /// The update rule of the square root of X: `H`, `S`, `H`.
    pub(crate) fn _left_multiply_sqrt_x(&mut self, qarg: usize) -> (res: Result<(), SimError>)
        requires
            old(self).wf(),
            (qarg as nat) < old(self)@.n,
        ensures
            final(self).wf(),
            final(self)@.n == old(self)@.n,
            sqrt_x_ok(old(self)@, qarg as int) ==> res is Ok && final(self)@ == left_sqrt_x_spec(
                old(self)@,
                qarg as int,
            ),
            !sqrt_x_ok(old(self)@, qarg as int) ==> res == Result::<(), SimError>::Err(
                SimError::InvalidState,
            ),
    {
        let r1 = self._left_multiply_h(qarg);
        if let Err(e) = r1 {
            return Err(e);
        }
        self._left_multiply_s(qarg);
        self._left_multiply_h(qarg)
    }

    /// The update rule of the inverse square root of X: `H`, `S`-dagger,
    /// `H`.
    pub(crate) fn _left_multiply_sqrt_xdg(&mut self, qarg: usize) -> (res: Result<(), SimError>)
        requires
            old(self).wf(),
            (qarg as nat) < old(self)@.n,
        ensures
            final(self).wf(),
            final(self)@.n == old(self)@.n,
            sqrt_xdg_ok(old(self)@, qarg as int) ==> res is Ok && final(self)@
                == left_sqrt_xdg_spec(old(self)@, qarg as int),
            !sqrt_xdg_ok(old(self)@, qarg as int) ==> res == Result::<(), SimError>::Err(
                SimError::InvalidState,
            ),
    {
        let r1 = self._left_multiply_h(qarg);
        if let Err(e) = r1 {
            return Err(e);
        }
        self._left_multiply_sdg(qarg);
        self._left_multiply_h(qarg)
    }

    /// Applies the H gate to the qubit at `qarg`.
    pub fn apply_h(&mut self, qarg: usize) -> (res: Result<(), SimError>)
        requires
            old(self).wf(),
        ensures
            final(self).wf(),
            final(self)@.n == old(self)@.n,
            ((qarg as nat) < old(self)@.n && h_ok(old(self)@, qarg as int)) ==> res is Ok
                && final(self)@ == left_h_spec(old(self)@, qarg as int),
            (qarg as nat) >= old(self)@.n ==> res == Result::<(), SimError>::Err(
                SimError::InvalidArgument,
            ) && final(self)@ == old(self)@,
            ((qarg as nat) < old(self)@.n && !h_ok(old(self)@, qarg as int)) ==> res
                == Result::<(), SimError>::Err(SimError::InvalidState) && final(self)@
                == old(self)@,
    {
        if qarg >= self.n {
            return Err(SimError::InvalidArgument);
        }
        self._left_multiply_h(qarg)
    }

    /// Applies the square root of X to the qubit at `qarg`.
    pub fn apply_sqrt_x(&mut self, qarg: usize) -> (res: Result<(), SimError>)
        requires
            old(self).wf(),
        ensures
            final(self).wf(),
            final(self)@.n == old(self)@.n,
            ((qarg as nat) < old(self)@.n && sqrt_x_ok(old(self)@, qarg as int)) ==> res is Ok
                && final(self)@ == left_sqrt_x_spec(old(self)@, qarg as int),
            (qarg as nat) >= old(self)@.n ==> res == Result::<(), SimError>::Err(
                SimError::InvalidArgument,
            ) && final(self)@ == old(self)@,
            ((qarg as nat) < old(self)@.n && !sqrt_x_ok(old(self)@, qarg as int)) ==> res
                == Result::<(), SimError>::Err(SimError::InvalidState),
    {
        if qarg >= self.n {
            return Err(SimError::InvalidArgument);
        }
        self._left_multiply_sqrt_x(qarg)
    }

    /// Applies the inverse square root of X to the qubit at `qarg`.
    pub fn apply_sqrt_xdg(&mut self, qarg: usize) -> (res: Result<(), SimError>)
        requires
            old(self).wf(),
        ensures
            final(self).wf(),
            final(self)@.n == old(self)@.n,
            ((qarg as nat) < old(self)@.n && sqrt_xdg_ok(old(self)@, qarg as int)) ==> res is Ok
                && final(self)@ == left_sqrt_xdg_spec(old(self)@, qarg as int),
            (qarg as nat) >= old(self)@.n ==> res == Result::<(), SimError>::Err(
                SimError::InvalidArgument,
            ) && final(self)@ == old(self)@,
            ((qarg as nat) < old(self)@.n && !sqrt_xdg_ok(old(self)@, qarg as int)) ==> res
                == Result::<(), SimError>::Err(SimError::InvalidState),
    {
        if qarg >= self.n {
            return Err(SimError::InvalidArgument);
        }
        self._left_multiply_sqrt_xdg(qarg)
    }

    /// Applies the S gate to the qubit at `qarg`.
    pub fn apply_s(&mut self, qarg: usize) -> (res: Result<(), SimError>)
        requires
            old(self).wf(),
        ensures
            final(self).wf(),
            (qarg as nat) < old(self)@.n ==> res is Ok && final(self)@ == left_s_spec(
                old(self)@,
                qarg as int,
            ),
            (qarg as nat) >= old(self)@.n ==> res == Result::<(), SimError>::Err(
                SimError::InvalidArgument,
            ) && final(self)@ == old(self)@,
    {
        if qarg >= self.n {
            return Err(SimError::InvalidArgument);
        }
        self._left_multiply_s(qarg);
        Ok(())
    }

    /// Applies the S-dagger gate to the qubit at `qarg`.
    pub fn apply_sdg(&mut self, qarg: usize) -> (res: Result<(), SimError>)
        requires
            old(self).wf(),
        ensures
            final(self).wf(),
            (qarg as nat) < old(self)@.n ==> res is Ok && final(self)@ == left_sdg_spec(
                old(self)@,
                qarg as int,
            ),
            (qarg as nat) >= old(self)@.n ==> res == Result::<(), SimError>::Err(
                SimError::InvalidArgument,
            ) && final(self)@ == old(self)@,
    {
        if qarg >= self.n {
            return Err(SimError::InvalidArgument);
        }
        self._left_multiply_sdg(qarg);
        Ok(())
    }

    /// Applies the Z gate to the qubit at `qarg`.
    pub fn apply_z(&mut self, qarg: usize) -> (res: Result<(), SimError>)
        requires
            old(self).wf(),
        ensures
            final(self).wf(),
            (qarg as nat) < old(self)@.n ==> res is Ok && final(self)@ == left_z_spec(
                old(self)@,
                qarg as int,
            ),
            (qarg as nat) >= old(self)@.n ==> res == Result::<(), SimError>::Err(
                SimError::InvalidArgument,
            ) && final(self)@ == old(self)@,
    {
        if qarg >= self.n {
            return Err(SimError::InvalidArgument);
        }
        self._left_multiply_z(qarg);
        Ok(())
    }

    /// Applies the X gate to the qubit at `qarg`.
    pub fn apply_x(&mut self, qarg: usize) -> (res: Result<(), SimError>)
        requires
            old(self).wf(),
        ensures
            final(self).wf(),
            (qarg as nat) < old(self)@.n ==> res is Ok && final(self)@ == left_x_spec(
                old(self)@,
                qarg as int,
            ),
            (qarg as nat) >= old(self)@.n ==> res == Result::<(), SimError>::Err(
                SimError::InvalidArgument,
            ) && final(self)@ == old(self)@,
    {
        if qarg >= self.n {
            return Err(SimError::InvalidArgument);
        }
        self._left_multiply_x(qarg);
        Ok(())
    }

    /// Applies the Y gate to the qubit at `qarg`.
    pub fn apply_y(&mut self, qarg: usize) -> (res: Result<(), SimError>)
        requires
            old(self).wf(),
        ensures
            final(self).wf(),
            (qarg as nat) < old(self)@.n ==> res is Ok && final(self)@ == left_y_spec(
                old(self)@,
                qarg as int,
            ),
            (qarg as nat) >= old(self)@.n ==> res == Result::<(), SimError>::Err(
                SimError::InvalidArgument,
            ) && final(self)@ == old(self)@,
    {
        if qarg >= self.n {
            return Err(SimError::InvalidArgument);
        }
        self._left_multiply_y(qarg);
        Ok(())
    }

    /// Applies the CX gate with the given control and target qubits.
    pub fn apply_cx(&mut self, control: usize, target: usize) -> (res: Result<(), SimError>)
        requires
            old(self).wf(),
        ensures
            final(self).wf(),
            ((control as nat) < old(self)@.n && (target as nat) < old(self)@.n && control
                != target) ==> res is Ok && final(self)@ == left_cx_spec(
                old(self)@,
                control as int,
                target as int,
            ),
            !((control as nat) < old(self)@.n && (target as nat) < old(self)@.n && control
                != target) ==> res == Result::<(), SimError>::Err(SimError::InvalidArgument)
                && final(self)@ == old(self)@,
    {
        if control >= self.n || target >= self.n || control == target {
            return Err(SimError::InvalidArgument);
        }
        self._left_multiply_cx(control, target);
        Ok(())
    }

    /// Applies the CZ gate between the two given qubits.
    pub fn apply_cz(&mut self, qarg1: usize, qarg2: usize) -> (res: Result<(), SimError>)
        requires
            old(self).wf(),
        ensures
            final(self).wf(),
            ((qarg1 as nat) < old(self)@.n && (qarg2 as nat) < old(self)@.n && qarg1 != qarg2)
                ==> res is Ok && final(self)@ == left_cz_spec(
                old(self)@,
                qarg1 as int,
                qarg2 as int,
            ),
            !((qarg1 as nat) < old(self)@.n && (qarg2 as nat) < old(self)@.n && qarg1 != qarg2)
                ==> res == Result::<(), SimError>::Err(SimError::InvalidArgument) && final(self)@
                == old(self)@,
    {
        if qarg1 >= self.n || qarg2 >= self.n || qarg1 == qarg2 {
            return Err(SimError::InvalidArgument);
        }
        self._left_multiply_cz(qarg1, qarg2);
        Ok(())
    }
}

} // verus!
