//! Superposition resolution: the algorithm that brings an unnormalized
//! two-branch superposition `|t> + delta |u>` back into canonical CH form.

use vstd::prelude::*;
use crate::error::SimError;
use crate::model::{
    basis_transform_spec, diff_seq, fold_rcx_from_pivot, fold_rcx_into_pivot, fold_rcz_with_pivot,
    lemma_diff_seq, pivot_spec, resolve_branch_spec, resolve_ok, resolve_spec, ChState,
};
use crate::phase_factor::PhaseFactor;
use crate::state::{clone_bits, lemma_view, lemma_wf_dims, StabilizerCHForm};

verus! {

broadcast use lemma_view;

/// A sequence of indices, as spec-level integers.
pub open spec fn idx_sv(s: Seq<usize>) -> Seq<int> {
    Seq::new(s.len(), |i: int| s[i] as int)
}

impl StabilizerCHForm {
    /// Resolves `|t> + delta |u>` into canonical form.  Fails only on the
    /// unreachable breach `t == u` with `delta == -1`, which would denote
    /// the zero vector.
    pub(crate) fn _resolve_superposition(
        &mut self,
        vec_t: &Vec<bool>,
        vec_u: &Vec<bool>,
        delta: PhaseFactor,
    ) -> (res: Result<(), SimError>)
        requires
            old(self).wf(),
            vec_t@.len() == old(self)@.n,
            vec_u@.len() == old(self)@.n,
            delta.is_fourth_root(),
        ensures
            final(self).wf(),
            final(self)@.n == old(self)@.n,
            resolve_ok(vec_t@, vec_u@, delta.spec_k()) ==> res is Ok && final(self)@
                == resolve_spec(old(self)@, vec_t@, vec_u@, delta.spec_k()),
            !resolve_ok(vec_t@, vec_u@, delta.spec_k()) ==> res == Result::<(), SimError>::Err(
                SimError::InvalidState,
            ) && final(self)@ == old(self)@,
    {
        proof {
            lemma_wf_dims(*self);
        }
        let ghost c = old(self)@;
        if vecs_equal(vec_t, vec_u) {
            return self._handle_same_vecs_case(delta, vec_t);
        }
        let (d0, d1) = self._get_differing_indices(vec_t, vec_u);
        proof {
            lemma_diff_seq(vec_t@, vec_u@, c.v, false, c.n as int);
            lemma_diff_seq(vec_t@, vec_u@, c.v, true, c.n as int);
            assert(idx_sv(d0@).len() + idx_sv(d1@).len() > 0) by {
                lemma_unequal_diff(vec_t@, vec_u@);
                let i = diff_index(vec_t@, vec_u@);
                if c.v[i] {
                    lemma_diff_member(vec_t@, vec_u@, c.v, true, c.n as int, i);
                } else {
                    lemma_diff_member(vec_t@, vec_u@, c.v, false, c.n as int, i);
                }
            }
        }
        let pivot = self._apply_basis_transform_circuit(
            &d0,
            &d1,
            Ghost(vec_t@),
            Ghost(vec_u@),
        );
        let ghost c1 = self@;
        let ghost keep = if vec_t@[pivot as int] {
            vec_u@
        } else {
            vec_t@
        };

        let tp = vec_t[pivot];
        if tp {
            self.vec_s = clone_bits(vec_u);
        } else {
            self.vec_s = clone_bits(vec_t);
        }
        let dk = delta.to_int();
        if dk == 0 {
            self.vec_s[pivot] = false;
            let nv = !self.vec_v[pivot];
            self.vec_v[pivot] = nv;
        } else if dk == 4 {
            self.vec_s[pivot] = true;
            let nv = !self.vec_v[pivot];
            self.vec_v[pivot] = nv;
            if tp {
                self.phase_factor = self.phase_factor.flipped();
            }
        } else if dk == 2 {
            if self.vec_v[pivot] {
                self.phase_factor = self.phase_factor.mul(PhaseFactor::exp_i_pi_4());
                self.vec_s[pivot] = !tp;
                self._right_multiply_s(pivot);
            } else {
                self.vec_s[pivot] = tp;
                self.vec_v[pivot] = true;
                self._right_multiply_s(pivot);
                if tp {
                    self.phase_factor = self.phase_factor.mul(PhaseFactor::plus_i());
                }
            }
        } else {
            if self.vec_v[pivot] {
                self.phase_factor = self.phase_factor.mul(PhaseFactor::exp_i_7pi_4());
                self.vec_s[pivot] = tp;
                self._right_multiply_s(pivot);
            } else {
                self.vec_s[pivot] = !tp;
                self.vec_v[pivot] = true;
                self._right_multiply_s(pivot);
                if tp {
                    self.phase_factor = self.phase_factor.mul(PhaseFactor::minus_i());
                }
            }
        }
        proof {
            assert(self@.s =~= resolve_branch_spec(
                c1,
                pivot as int,
                vec_t@[pivot as int],
                keep,
                delta.spec_k(),
            ).s);
            assert(self@ == resolve_branch_spec(
                c1,
                pivot as int,
                vec_t@[pivot as int],
                keep,
                delta.spec_k(),
            ));
            assert(self@ == resolve_spec(c, vec_t@, vec_u@, delta.spec_k()));
        }
        Ok(())
    }

    /// The degenerate case `t == u`: the superposition is a single branch,
    /// possibly with a global phase of `(1 +/- i)/sqrt(2)`.
    fn _handle_same_vecs_case(&mut self, delta: PhaseFactor, vec_t: &Vec<bool>) -> (res: Result<
        (),
        SimError,
    >)
        requires
            old(self).wf(),
            vec_t@.len() == old(self)@.n,
            delta.is_fourth_root(),
        ensures
            final(self).wf(),
            final(self)@.n == old(self)@.n,
            delta.spec_k() != 4 ==> res is Ok && final(self)@ == resolve_spec(
                old(self)@,
                vec_t@,
                vec_t@,
                delta.spec_k(),
            ),
            delta.spec_k() == 4 ==> res == Result::<(), SimError>::Err(SimError::InvalidState)
                && final(self)@ == old(self)@,
    {
        proof {
            lemma_wf_dims(*self);
        }
        let dk = delta.to_int();
        if dk == 4 {
            return Err(SimError::InvalidState);
        }
        self.vec_s = clone_bits(vec_t);
        if dk == 2 {
            self.phase_factor = self.phase_factor.mul(PhaseFactor::exp_i_pi_4());
        } else if dk == 6 {
            self.phase_factor = self.phase_factor.mul(PhaseFactor::exp_i_7pi_4());
        }
        proof {
            assert(self@.s =~= vec_t@);
            assert(self@ == resolve_spec(old(self)@, vec_t@, vec_t@, delta.spec_k()));
        }
        Ok(())
    }

    /// The indices where `t` and `u` differ, split by the `v` flag.
    fn _get_differing_indices(&self, vec_t: &Vec<bool>, vec_u: &Vec<bool>) -> (res: (
        Vec<usize>,
        Vec<usize>,
    ))
        requires
            self.wf(),
            vec_t@.len() == self@.n,
            vec_u@.len() == self@.n,
        ensures
            idx_sv(res.0@) == diff_seq(vec_t@, vec_u@, self@.v, false, self@.n as int),
            idx_sv(res.1@) == diff_seq(vec_t@, vec_u@, self@.v, true, self@.n as int),
    {
        proof {
            lemma_wf_dims(*self);
        }
        let n = self.n;
        let mut d0: Vec<usize> = Vec::new();
        let mut d1: Vec<usize> = Vec::new();
        let mut i: usize = 0;
        while i < n
            invariant
                i <= n,
                n as nat == self@.n,
                self.wf(),
                vec_t@.len() == n,
                vec_u@.len() == n,
                self.vec_v@.len() == n,
                self.vec_v@ == self@.v,
                idx_sv(d0@) =~= diff_seq(vec_t@, vec_u@, self@.v, false, i as int),
                idx_sv(d1@) =~= diff_seq(vec_t@, vec_u@, self@.v, true, i as int),
            decreases n - i,
        {
            if vec_t[i] != vec_u[i] {
                if self.vec_v[i] {
                    d1.push(i);
                } else {
                    d0.push(i);
                }
            }
            proof {
                assert(idx_sv(d0@) =~= diff_seq(vec_t@, vec_u@, self@.v, false, i + 1));
                assert(idx_sv(d1@) =~= diff_seq(vec_t@, vec_u@, self@.v, true, i + 1));
            }
            i = i + 1;
        }
        (d0, d1)
    }

    /// Contracts the differing indices onto the pivot with right CX and
    /// right CZ, and returns the pivot.
    fn _apply_basis_transform_circuit(
        &mut self,
        d0: &Vec<usize>,
        d1: &Vec<usize>,
        Ghost(t): Ghost<Seq<bool>>,
        Ghost(u): Ghost<Seq<bool>>,
    ) -> (pivot: usize)
        requires
            old(self).wf(),
            t.len() == old(self)@.n,
            u.len() == old(self)@.n,
            idx_sv(d0@) == diff_seq(t, u, old(self)@.v, false, old(self)@.n as int),
            idx_sv(d1@) == diff_seq(t, u, old(self)@.v, true, old(self)@.n as int),
            d0@.len() + d1@.len() > 0,
        ensures
            final(self).wf(),
            pivot as int == pivot_spec(idx_sv(d0@), idx_sv(d1@)),
            final(self)@ == basis_transform_spec(old(self)@, idx_sv(d0@), idx_sv(d1@)),
            final(self)@.n == old(self)@.n,
            final(self)@.v == old(self)@.v,
            final(self)@.s == old(self)@.s,
            final(self)@.pf == old(self)@.pf,
            final(self)@.omega == old(self)@.omega,
    {
        proof {
            lemma_wf_dims(*self);
            lemma_diff_seq(t, u, old(self)@.v, false, old(self)@.n as int);
            lemma_diff_seq(t, u, old(self)@.v, true, old(self)@.n as int);
        }
        let ghost c = old(self)@;
        let ghost d0s = idx_sv(d0@);
        let ghost d1s = idx_sv(d1@);
        let n = self.n;
        if d0.len() == 0 {
            let pivot = d1[0];
            proof {
                assert(d1s[0] == diff_seq(t, u, c.v, true, c.n as int)[0]);
                assert(0 <= d1s[0] < c.n && c.v[d1s[0]] == true);
            }
            let mut k: usize = 1;
            while k < d1.len()
                invariant
                    1 <= k <= d1@.len(),
                    n as nat == c.n,
                    self.n == n,
                    pivot == d1@[0],
                    d1s == idx_sv(d1@),
                    forall|j: int|
                        0 <= j < d1s.len() ==> 0 <= #[trigger] d1s[j] < c.n && c.v[d1s[j]]
                            == true,
                    forall|j1: int, j2: int|
                        0 <= j1 < j2 < d1s.len() ==> #[trigger] d1s[j1] < #[trigger] d1s[j2],
                    self.wf(),
                    self@.n == c.n && self@.v == c.v && self@.s == c.s && self@.pf == c.pf
                        && self@.omega == c.omega,
                    self@ == fold_rcx_into_pivot(c, pivot as int, d1s.subrange(1, k as int)),
                decreases d1@.len() - k,
            {
                let i = d1[k];
                proof {
                    assert(d1s[k as int] == i as int);
                    assert(d1s[0] < d1s[k as int]);
                }
                self._right_multiply_cx(i, pivot);
                proof {
                    assert(d1s.subrange(1, k + 1).drop_last() =~= d1s.subrange(1, k as int));
                    assert(d1s.subrange(1, k + 1).last() == d1s[k as int]);
                }
                k = k + 1;
            }
            proof {
                assert(d1s.subrange(1, d1s.len() as int) =~= d1s.subrange(1, d1@.len() as int));
                assert(self@ == basis_transform_spec(c, d0s, d1s)) by {
                    assert(d0s.len() == 0);
                }
            }
            pivot
        } else {
            let pivot = d0[0];
            proof {
                assert(d0s[0] == diff_seq(t, u, c.v, false, c.n as int)[0]);
                assert(0 <= d0s[0] < c.n && c.v[d0s[0]] == false);
            }
            let mut k: usize = 1;
            while k < d0.len()
                invariant
                    1 <= k <= d0@.len(),
                    n as nat == c.n,
                    self.n == n,
                    pivot == d0@[0],
                    d0s == idx_sv(d0@),
                    forall|j: int|
                        0 <= j < d0s.len() ==> 0 <= #[trigger] d0s[j] < c.n,
                    forall|j1: int, j2: int|
                        0 <= j1 < j2 < d0s.len() ==> #[trigger] d0s[j1] < #[trigger] d0s[j2],
                    self.wf(),
                    self@.n == c.n && self@.v == c.v && self@.s == c.s && self@.pf == c.pf
                        && self@.omega == c.omega,
                    self@ == fold_rcx_from_pivot(c, pivot as int, d0s.subrange(1, k as int)),
                decreases d0@.len() - k,
            {
                let i = d0[k];
                proof {
                    assert(d0s[k as int] == i as int);
                    assert(d0s[0] < d0s[k as int]);
                }
                self._right_multiply_cx(pivot, i);
                proof {
                    assert(d0s.subrange(1, k + 1).drop_last() =~= d0s.subrange(1, k as int));
                    assert(d0s.subrange(1, k + 1).last() == d0s[k as int]);
                }
                k = k + 1;
            }
            let ghost cmid = fold_rcx_from_pivot(c, pivot as int, d0s.subrange(1, d0s.len() as int));
            proof {
                assert(d0s.subrange(1, d0@.len() as int) =~= d0s.subrange(1, d0s.len() as int));
                assert(self@ == cmid);
            }
            let mut k2: usize = 0;
            while k2 < d1.len()
                invariant
                    0 <= k2 <= d1@.len(),
                    n as nat == c.n,
                    self.n == n,
                    pivot == d0@[0],
                    d0s == idx_sv(d0@),
                    d1s == idx_sv(d1@),
                    d0s.len() > 0,
                    pivot == d0s[0],
                    cmid == fold_rcx_from_pivot(c, pivot as int, d0s.subrange(1, d0s.len() as int)),
                    0 <= pivot < c.n,
                    c.v.len() == c.n,
                    !c.v[pivot as int],
                    forall|j: int|
                        0 <= j < d1s.len() ==> 0 <= #[trigger] d1s[j] < c.n && c.v[d1s[j]]
                            == true,
                    self.wf(),
                    self@.n == c.n && self@.v == c.v && self@.s == c.s && self@.pf == c.pf
                        && self@.omega == c.omega,
                    self@ == fold_rcz_with_pivot(cmid, pivot as int, d1s.subrange(0, k2 as int)),
                decreases d1@.len() - k2,
            {
                let i = d1[k2];
                proof {
                    assert(d1s[k2 as int] == i as int);
                    assert(c.v[d1s[k2 as int]] == true && !c.v[pivot as int]);
                }
                self._right_multiply_cz(pivot, i);
                proof {
                    assert(d1s.subrange(0, k2 + 1).drop_last() =~= d1s.subrange(0, k2 as int));
                    assert(d1s.subrange(0, k2 + 1).last() == d1s[k2 as int]);
                }
                k2 = k2 + 1;
            }
            proof {
                assert(d1s.subrange(0, d1@.len() as int) =~= d1s);
                assert(self@ == basis_transform_spec(c, d0s, d1s));
            }
            pivot
        }
    }
}

/// Whether two boolean vectors of equal length are equal.
pub(crate) fn vecs_equal(a: &Vec<bool>, b: &Vec<bool>) -> (r: bool)
    requires
        a@.len() == b@.len(),
    ensures
        r == (a@ == b@),
{
    let n = a.len();
    let mut i: usize = 0;
    while i < n
        invariant
            i <= n,
            n == a@.len(),
            n == b@.len(),
            forall|k: int| 0 <= k < i ==> a@[k] == b@[k],
        decreases n - i,
    {
        if a[i] != b[i] {
            return false;
        }
        i = i + 1;
    }
    proof {
        assert(a@ =~= b@);
    }
    true
}

/// An index where two unequal vectors differ.
pub open spec fn diff_index(t: Seq<bool>, u: Seq<bool>) -> int {
    choose|i: int| 0 <= i < t.len() && t[i] != u[i]
}

/// Two unequal vectors of one length differ somewhere, and `diff_index`
/// names such a place.
proof fn lemma_unequal_diff(t: Seq<bool>, u: Seq<bool>)
    requires
        t.len() == u.len(),
        t != u,
    ensures
        0 <= diff_index(t, u) < t.len(),
        t[diff_index(t, u)] != u[diff_index(t, u)],
{
    if !(exists|i: int| 0 <= i < t.len() && t[i] != u[i]) {
        assert forall|i: int| 0 <= i < t.len() implies t[i] == u[i] by {
            assert(!(0 <= i < t.len() && t[i] != u[i]));
        }
        assert(t =~= u);
    }
}

/// A differing index with the matching `v` flag appears in the differing
/// index list.
proof fn lemma_diff_member(t: Seq<bool>, u: Seq<bool>, v: Seq<bool>, want: bool, n: int, i: int)
    requires
        0 <= i < n,
        t[i] != u[i],
        v[i] == want,
    ensures
        diff_seq(t, u, v, want, n).len() > 0,
    decreases n,
{
    if i < n - 1 {
        lemma_diff_member(t, u, v, want, n - 1, i);
    }
}

} // verus!
