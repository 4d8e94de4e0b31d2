//! Right multiplication: column-wise reparametrizations of the generator
//! layer that leave the represented state unchanged.

use vstd::prelude::*;
use crate::model::{pk_mul_k, right_cx_spec, right_cz_spec, right_s_spec};
use crate::phase_factor::PhaseFactor;
use crate::state::{lemma_view, lemma_wf_dims, mat_sv, phases_sv, StabilizerCHForm};

verus! {

broadcast use lemma_view;

impl StabilizerCHForm {
    /// Right CX: `G[:,ctl] ^= G[:,tgt]`, `F[:,tgt] ^= F[:,ctl]`,
    /// `M[:,ctl] ^= M[:,tgt]`.
    pub(crate) fn _right_multiply_cx(&mut self, control: usize, target: usize)
        requires
            old(self).wf(),
            (control as nat) < old(self)@.n,
            (target as nat) < old(self)@.n,
            control != target,
        ensures
            final(self).wf(),
            final(self)@ == right_cx_spec(old(self)@, control as int, target as int),
    {
        proof {
            lemma_wf_dims(*self);
        }
        let ghost c = old(self)@;
        let ghost ci = control as int;
        let ghost ti = target as int;
        let n = self.n;

        let mut p: usize = 0;
        while p < n
            invariant
                p <= n,
                n as nat == c.n,
                self.n == n,
                c.v.len() == n,
                self.mat_g@.len() == n,
                self.mat_f@.len() == n,
                self.mat_m@.len() == n,
                ci == control as int,
                ti == target as int,
                0 <= ci < n,
                0 <= ti < n,
                ci != ti,
                forall|q: int| 0 <= q < n ==> (#[trigger] self.mat_g@[q])@.len() == n,
                forall|q: int| 0 <= q < n ==> (#[trigger] self.mat_f@[q])@.len() == n,
                forall|q: int| 0 <= q < n ==> (#[trigger] self.mat_m@[q])@.len() == n,
                mat_sv(self.mat_g@).len() == n,
                c.g.len() == n,
                forall|q: int| 0 <= q < n ==> (#[trigger] c.g[q]).len() == n,
                forall|q: int| p <= q < n ==> #[trigger] self.mat_g@[q]@ == c.g[q],
                forall|q: int|
                    0 <= q < p ==> #[trigger] self.mat_g@[q]@ == c.g[q].update(
                        ci,
                        c.g[q][ci] != c.g[q][ti],
                    ),
                c.f.len() == n,
                forall|q: int| 0 <= q < n ==> (#[trigger] c.f[q]).len() == n,
                forall|q: int| p <= q < n ==> #[trigger] self.mat_f@[q]@ == c.f[q],
                forall|q: int|
                    0 <= q < p ==> #[trigger] self.mat_f@[q]@ == c.f[q].update(
                        ti,
                        c.f[q][ti] != c.f[q][ci],
                    ),
                c.m.len() == n,
                forall|q: int| 0 <= q < n ==> (#[trigger] c.m[q]).len() == n,
                forall|q: int| p <= q < n ==> #[trigger] self.mat_m@[q]@ == c.m[q],
                forall|q: int|
                    0 <= q < p ==> #[trigger] self.mat_m@[q]@ == c.m[q].update(
                        ci,
                        c.m[q][ci] != c.m[q][ti],
                    ),
                phases_sv(self.gamma@) == c.gamma,
                self.vec_v@ == c.v,
                self.vec_s@ == c.s,
                self.omega.spec_k() == c.omega,
                self.phase_factor.spec_k() == c.pf,
            decreases n - p,
        {
            let gv = self.mat_g[p][control] != self.mat_g[p][target];
            self.mat_g[p][control] = gv;
            let fv = self.mat_f[p][target] != self.mat_f[p][control];
            self.mat_f[p][target] = fv;
            let mv = self.mat_m[p][control] != self.mat_m[p][target];
            self.mat_m[p][control] = mv;
            proof {
                assert(self.mat_g@[p as int]@ =~= c.g[p as int].update(
                    ci,
                    c.g[p as int][ci] != c.g[p as int][ti],
                ));
                assert(self.mat_f@[p as int]@ =~= c.f[p as int].update(
                    ti,
                    c.f[p as int][ti] != c.f[p as int][ci],
                ));
                assert(self.mat_m@[p as int]@ =~= c.m[p as int].update(
                    ci,
                    c.m[p as int][ci] != c.m[p as int][ti],
                ));
            }
            p = p + 1;
        }
        proof {
            let tgt = right_cx_spec(c, ci, ti);
            assert forall|q: int| 0 <= q < c.n implies mat_sv(self.mat_g@)[q] =~= tgt.g[q] by {
                assert(mat_sv(self.mat_g@)[q] == self.mat_g@[q]@);
            }
            assert(mat_sv(self.mat_g@) =~~= tgt.g);
            assert forall|q: int| 0 <= q < c.n implies mat_sv(self.mat_f@)[q] =~= tgt.f[q] by {
                assert(mat_sv(self.mat_f@)[q] == self.mat_f@[q]@);
            }
            assert(mat_sv(self.mat_f@) =~~= tgt.f);
            assert forall|q: int| 0 <= q < c.n implies mat_sv(self.mat_m@)[q] =~= tgt.m[q] by {
                assert(mat_sv(self.mat_m@)[q] == self.mat_m@[q]@);
            }
            assert(mat_sv(self.mat_m@) =~~= tgt.m);
            assert(self@ == tgt);
        }
    }

    /// Right CZ: `M[:,q1] ^= F[:,q2]`, `M[:,q2] ^= F[:,q1]`, and a `-1` on
    /// `gamma[p]` for every row with `F[p,q1]` and `F[p,q2]`.
    pub(crate) fn _right_multiply_cz(&mut self, qarg1: usize, qarg2: usize)
        requires
            old(self).wf(),
            (qarg1 as nat) < old(self)@.n,
            (qarg2 as nat) < old(self)@.n,
            qarg1 != qarg2,
        ensures
            final(self).wf(),
            final(self)@ == right_cz_spec(old(self)@, qarg1 as int, qarg2 as int),
    {
        proof {
            lemma_wf_dims(*self);
        }
        let ghost c = old(self)@;
        let ghost q1 = qarg1 as int;
        let ghost q2 = qarg2 as int;
        let n = self.n;

        let mut p: usize = 0;
        while p < n
            invariant
                p <= n,
                n as nat == c.n,
                self.n == n,
                self.mat_m@.len() == n,
                self.mat_f@.len() == n,
                self.gamma@.len() == n,
                q1 == qarg1 as int,
                q2 == qarg2 as int,
                0 <= q1 < n,
                0 <= q2 < n,
                q1 != q2,
                forall|q: int| 0 <= q < n ==> (#[trigger] self.mat_m@[q])@.len() == n,
                forall|q: int| 0 <= q < n ==> #[trigger] self.mat_f@[q]@ == c.f[q],
                c.f.len() == n,
                forall|q: int| 0 <= q < n ==> (#[trigger] c.f[q]).len() == n,
                c.m.len() == n,
                forall|q: int| 0 <= q < n ==> (#[trigger] c.m[q]).len() == n,
                c.gamma.len() == n,
                forall|q: int| 0 <= q < n ==> 0 <= #[trigger] c.gamma[q] < 8 && c.gamma[q] % 2
                    == 0,
                forall|q: int| p <= q < n ==> #[trigger] self.mat_m@[q]@ == c.m[q],
                forall|q: int|
                    0 <= q < p ==> #[trigger] self.mat_m@[q]@ == c.m[q].update(
                        q1,
                        c.m[q][q1] != c.f[q][q2],
                    ).update(q2, c.m[q][q2] != c.f[q][q1]),
                forall|q: int| p <= q < n ==> (#[trigger] self.gamma@[q]).spec_k() == c.gamma[q],
                forall|q: int|
                    0 <= q < p ==> (#[trigger] self.gamma@[q]).spec_k() == (if c.f[q][q1]
                        && c.f[q][q2] {
                        pk_mul_k(c.gamma[q], 4)
                    } else {
                        c.gamma[q]
                    }),
                forall|q: int| 0 <= q < n ==> (#[trigger] self.gamma@[q]).inv(),
                mat_sv(self.mat_g@) == c.g,
                self.vec_v@ == c.v,
                self.vec_s@ == c.s,
                self.omega.spec_k() == c.omega,
                self.phase_factor.spec_k() == c.pf,
            decreases n - p,
        {
            let f1 = self.mat_f[p][qarg1];
            let f2 = self.mat_f[p][qarg2];
            let m1 = self.mat_m[p][qarg1] != f2;
            self.mat_m[p][qarg1] = m1;
            let m2 = self.mat_m[p][qarg2] != f1;
            self.mat_m[p][qarg2] = m2;
            if f1 && f2 {
                self.gamma[p] = self.gamma[p].flipped();
            }
            proof {
                assert(self.mat_m@[p as int]@ =~= c.m[p as int].update(
                    q1,
                    c.m[p as int][q1] != c.f[p as int][q2],
                ).update(q2, c.m[p as int][q2] != c.f[p as int][q1]));
            }
            p = p + 1;
        }
        proof {
            let tgt = right_cz_spec(c, q1, q2);
            assert forall|q: int| 0 <= q < c.n implies mat_sv(self.mat_m@)[q] =~= tgt.m[q] by {
                assert(mat_sv(self.mat_m@)[q] == self.mat_m@[q]@);
            }
            assert(mat_sv(self.mat_m@) =~~= tgt.m);
            assert forall|q: int| 0 <= q < c.n implies mat_sv(self.mat_f@)[q] =~= c.f[q] by {
                assert(mat_sv(self.mat_f@)[q] == self.mat_f@[q]@);
            }
            assert(mat_sv(self.mat_f@) =~~= c.f);
            assert(phases_sv(self.gamma@) =~= tgt.gamma);
            assert(self@ == tgt);
        }
    }

    /// Right S: `M[:,q] ^= F[:,q]`, and a `-i` on `gamma[p]` for every row
    /// with `F[p,q]`.
    pub(crate) fn _right_multiply_s(&mut self, qarg: usize)
        requires
            old(self).wf(),
            (qarg as nat) < old(self)@.n,
        ensures
            final(self).wf(),
            final(self)@ == right_s_spec(old(self)@, qarg as int),
    {
        proof {
            lemma_wf_dims(*self);
        }
        let ghost c = old(self)@;
        let ghost qq = qarg as int;
        let n = self.n;

        let mut p: usize = 0;
        while p < n
            invariant
                p <= n,
                n as nat == c.n,
                self.n == n,
                self.mat_m@.len() == n,
                self.mat_f@.len() == n,
                self.gamma@.len() == n,
                qq == qarg as int,
                0 <= qq < n,
                forall|q: int| 0 <= q < n ==> (#[trigger] self.mat_m@[q])@.len() == n,
                forall|q: int| 0 <= q < n ==> #[trigger] self.mat_f@[q]@ == c.f[q],
                c.f.len() == n,
                forall|q: int| 0 <= q < n ==> (#[trigger] c.f[q]).len() == n,
                c.m.len() == n,
                forall|q: int| 0 <= q < n ==> (#[trigger] c.m[q]).len() == n,
                c.gamma.len() == n,
                forall|q: int| 0 <= q < n ==> 0 <= #[trigger] c.gamma[q] < 8 && c.gamma[q] % 2
                    == 0,
                forall|q: int| p <= q < n ==> #[trigger] self.mat_m@[q]@ == c.m[q],
                forall|q: int|
                    0 <= q < p ==> #[trigger] self.mat_m@[q]@ == c.m[q].update(
                        qq,
                        c.m[q][qq] != c.f[q][qq],
                    ),
                forall|q: int| p <= q < n ==> (#[trigger] self.gamma@[q]).spec_k() == c.gamma[q],
                forall|q: int|
                    0 <= q < p ==> (#[trigger] self.gamma@[q]).spec_k() == (if c.f[q][qq] {
                        pk_mul_k(c.gamma[q], 6)
                    } else {
                        c.gamma[q]
                    }),
                forall|q: int| 0 <= q < n ==> (#[trigger] self.gamma@[q]).inv(),
                mat_sv(self.mat_g@) == c.g,
                self.vec_v@ == c.v,
                self.vec_s@ == c.s,
                self.omega.spec_k() == c.omega,
                self.phase_factor.spec_k() == c.pf,
            decreases n - p,
        {
            let fq = self.mat_f[p][qarg];
            let mv = self.mat_m[p][qarg] != fq;
            self.mat_m[p][qarg] = mv;
            if fq {
                self.gamma[p] = self.gamma[p].mul(PhaseFactor::minus_i());
            }
            proof {
                assert(self.mat_m@[p as int]@ =~= c.m[p as int].update(
                    qq,
                    c.m[p as int][qq] != c.f[p as int][qq],
                ));
            }
            p = p + 1;
        }
        proof {
            let tgt = right_s_spec(c, qq);
            assert forall|q: int| 0 <= q < c.n implies mat_sv(self.mat_m@)[q] =~= tgt.m[q] by {
                assert(mat_sv(self.mat_m@)[q] == self.mat_m@[q]@);
            }
            assert(mat_sv(self.mat_m@) =~~= tgt.m);
            assert forall|q: int| 0 <= q < c.n implies mat_sv(self.mat_f@)[q] =~= c.f[q] by {
                assert(mat_sv(self.mat_f@)[q] == self.mat_f@[q]@);
            }
            assert(mat_sv(self.mat_f@) =~~= c.f);
            assert(phases_sv(self.gamma@) =~= tgt.gamma);
            assert(self@ == tgt);
        }
    }
}

} // verus!
