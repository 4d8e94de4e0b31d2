//! Discarding a qubit: the partial trace over one qubit that was already
//! measured and disentangled.
//!
//! The qubit is first brought to `v = s = false` and its `G` and `M` row
//! and column are cleared, all by reparametrizations that do not change the
//! represented state; then row, column and entries are deleted.

use vstd::prelude::*;
use crate::error::SimError;
use crate::model::{
    left_cx_spec, left_sdg_spec, right_cx_spec, right_cz_spec, wf_state, ChState,
};
use crate::state::{lemma_view, lemma_wf_dims, mat_sv, phases_sv, StabilizerCHForm};

verus! {

broadcast use lemma_view;

/// The first index at or after `i`, other than `q`, whose `v` and `s` bits
/// match `wv` and `ws`; the length of `v` when there is none.
pub open spec fn find_vs(c: ChState, q: int, wv: bool, ws: bool, i: int) -> int
    decreases c.n - i,
{
    if i < 0 || i >= c.n {
        c.n as int
    } else if i != q && c.v[i] == wv && c.s[i] == ws {
        i
    } else {
        find_vs(c, q, wv, ws, i + 1)
    }
}

/// The first index at or after `i` whose `v` and `s` bits match `wv` and
/// `ws`, the discarded qubit included; the length of `v` when there is
/// none.
pub open spec fn find_vs_any(c: ChState, wv: bool, ws: bool, i: int) -> int
    decreases c.n - i,
{
    if i < 0 || i >= c.n {
        c.n as int
    } else if c.v[i] == wv && c.s[i] == ws {
        i
    } else {
        find_vs_any(c, wv, ws, i + 1)
    }
}

/// Swaps the bookkeeping of qubits `q` and `i`: three right CX, then the
/// `v` and `s` entries exchanged.
pub open spec fn swap_path_spec(c: ChState, q: int, i: int) -> ChState {
    let c3 = right_cx_spec(right_cx_spec(right_cx_spec(c, i, q), q, i), i, q);
    ChState {
        v: c3.v.update(q, c3.v[i]).update(i, c3.v[q]),
        s: c3.s.update(q, c3.s[i]).update(i, c3.s[q]),
        ..c3
    }
}

/// Whether `v[q]` and `s[q]` can be cleared: they already are, or some
/// other qubit has both clear, or two qubits (possibly including `q`
/// itself) carry `v = false, s = true` and cancel.
pub open spec fn set_sv_ok(c: ChState, q: int) -> bool {
    (!c.v[q] && !c.s[q]) || find_vs(c, q, false, false, 0) < c.n || {
        let first = find_vs_any(c, false, true, 0);
        first < c.n && find_vs_any(c, false, true, first + 1) < c.n
    }
}

/// The state after clearing `v[q]` and `s[q]`, when possible.
pub open spec fn set_sv_spec(c: ChState, q: int) -> ChState {
    if !c.v[q] && !c.s[q] {
        c
    } else {
        let ok = find_vs(c, q, false, false, 0);
        if ok < c.n {
            swap_path_spec(c, q, ok)
        } else {
            let first = find_vs_any(c, false, true, 0);
            let second = find_vs_any(c, false, true, first + 1);
            let c1 = right_cx_spec(c, first, second);
            let c2 = ChState { s: c1.s.update(second, false), ..c1 };
            if second == q {
                c2
            } else {
                swap_path_spec(c2, q, second)
            }
        }
    }
}

/// The first column index at or after `i`, other than `q`, set in row `q`
/// of `G`; the length when there is none.
pub open spec fn find_g_row(c: ChState, q: int, i: int) -> int
    decreases c.n - i,
{
    if i < 0 || i >= c.n {
        c.n as int
    } else if i != q && c.g[q][i] {
        i
    } else {
        find_g_row(c, q, i + 1)
    }
}

/// Clears column `q` of `G` below and above the diagonal with left CX,
/// row by row.
pub open spec fn g_col_fold(c: ChState, q: int, i: int) -> ChState
    decreases i,
{
    if i <= 0 {
        c
    } else {
        let prev = g_col_fold(c, q, i - 1);
        if i - 1 != q && prev.g[i - 1][q] {
            left_cx_spec(prev, q, i - 1)
        } else {
            prev
        }
    }
}

/// Clears row `q` of `G` off the diagonal with right CX; fails on a column
/// whose `v` flag is set.
pub open spec fn g_row_fold(c: ChState, q: int, i: int) -> (ChState, bool)
    decreases i,
{
    if i <= 0 {
        (c, true)
    } else {
        let (prev, ok) = g_row_fold(c, q, i - 1);
        if !ok {
            (prev, false)
        } else if i - 1 != q && prev.g[q][i - 1] {
            if prev.v[i - 1] {
                (prev, false)
            } else {
                (right_cx_spec(prev, i - 1, q), true)
            }
        } else {
            (prev, true)
        }
    }
}

/// The pivot fix plus both clearing passes over `G`.
pub open spec fn transform_g_spec(c: ChState, q: int) -> (ChState, bool) {
    let c0 = if !c.g[q][q] {
        let piv = find_g_row(c, q, 0);
        if piv < c.n {
            right_cx_spec(c, q, piv)
        } else {
            c
        }
    } else {
        c
    };
    let c1 = g_col_fold(c0, q, c.n as int);
    g_row_fold(c1, q, c.n as int)
}

/// Clears column `q` of `M` with left CX, row by row.
pub open spec fn m_col_fold(c: ChState, q: int, i: int) -> ChState
    decreases i,
{
    if i <= 0 {
        c
    } else {
        let prev = m_col_fold(c, q, i - 1);
        if i - 1 != q && prev.m[i - 1][q] {
            left_cx_spec(prev, q, i - 1)
        } else {
            prev
        }
    }
}

/// Clears row `q` of `M` off the diagonal with right CZ.
pub open spec fn m_row_fold(c: ChState, q: int, i: int) -> ChState
    decreases i,
{
    if i <= 0 {
        c
    } else {
        let prev = m_row_fold(c, q, i - 1);
        if i - 1 != q && prev.m[q][i - 1] {
            right_cz_spec(prev, q, i - 1)
        } else {
            prev
        }
    }
}

/// Both clearing passes over `M`, and the diagonal entry by left S-dagger.
pub open spec fn transform_m_spec(c: ChState, q: int) -> ChState {
    let c1 = m_col_fold(c, q, c.n as int);
    let c2 = if c1.m[q][q] {
        left_sdg_spec(c1, q)
    } else {
        c1
    };
    m_row_fold(c2, q, c.n as int)
}

/// The index into the original state for position `i` once entry `q` is
/// deleted.
pub open spec fn skip_idx(i: int, q: int) -> int {
    if i < q {
        i
    } else {
        i + 1
    }
}

/// The state with row, column and entries `q` deleted and the qubit count
/// decremented.
pub open spec fn remove_qubit_spec(c: ChState, q: int) -> ChState {
    let m = (c.n - 1) as nat;
    ChState {
        n: m,
        g: Seq::new(m, |i: int| Seq::new(m, |j: int| c.g[skip_idx(i, q)][skip_idx(j, q)])),
        f: Seq::new(m, |i: int| Seq::new(m, |j: int| c.f[skip_idx(i, q)][skip_idx(j, q)])),
        m: Seq::new(m, |i: int| Seq::new(m, |j: int| c.m[skip_idx(i, q)][skip_idx(j, q)])),
        gamma: Seq::new(m, |i: int| c.gamma[skip_idx(i, q)]),
        v: Seq::new(m, |i: int| c.v[skip_idx(i, q)]),
        s: Seq::new(m, |i: int| c.s[skip_idx(i, q)]),
        omega: c.omega,
        pf: c.pf,
    }
}

/// Whether discarding qubit `q` goes through.
pub open spec fn discard_ok(c: ChState, q: int) -> bool {
    set_sv_ok(c, q) && transform_g_spec(set_sv_spec(c, q), q).1
}

/// The state after discarding qubit `q`, when possible.
pub open spec fn discard_spec(c: ChState, q: int) -> ChState {
    remove_qubit_spec(transform_m_spec(transform_g_spec(set_sv_spec(c, q), q).0, q), q)
}

impl StabilizerCHForm {
    /// Discards (traces out) qubit `qarg` in place.  The caller must have
    /// projected the qubit to `|0>` and disentangled it; when the
    /// bookkeeping cannot be restructured accordingly the operation is
    /// infeasible.
    pub fn discard(&mut self, qarg: usize) -> (res: Result<(), SimError>)
        requires
            old(self).wf(),
        ensures
            final(self).wf(),
            (qarg as nat) >= old(self)@.n ==> res == Result::<(), SimError>::Err(
                SimError::InvalidArgument,
            ) && final(self)@ == old(self)@,
            ((qarg as nat) < old(self)@.n && discard_ok(old(self)@, qarg as int)) ==> res is Ok
                && final(self)@ == discard_spec(old(self)@, qarg as int),
            ((qarg as nat) < old(self)@.n && !discard_ok(old(self)@, qarg as int)) ==> res
                == Result::<(), SimError>::Err(SimError::OperationInfeasible) && final(self)@.n
                == old(self)@.n,
            ((qarg as nat) < old(self)@.n && !set_sv_ok(old(self)@, qarg as int))
                ==> final(self)@ == old(self)@,
            ((qarg as nat) < old(self)@.n && set_sv_ok(old(self)@, qarg as int)
                && !transform_g_spec(set_sv_spec(old(self)@, qarg as int), qarg as int).1)
                ==> final(self)@ == transform_g_spec(
                set_sv_spec(old(self)@, qarg as int),
                qarg as int,
            ).0,
    {
        proof {
            lemma_wf_dims(*self);
        }
        if qarg >= self.n {
            return Err(SimError::InvalidArgument);
        }
        let ghost c = old(self)@;
        let r1 = self._set_s_v_to_false(qarg);
        if let Err(e) = r1 {
            return Err(e);
        }
        let r2 = self._transform_g(qarg);
        if let Err(e) = r2 {
            return Err(e);
        }
        self._transform_m(qarg);
        self._remove_qubit(qarg);
        Ok(())
    }

    /// A copy of the state with qubit `qarg` discarded.
    pub fn discarded(&self, qarg: usize) -> (res: Result<StabilizerCHForm, SimError>)
        requires
            self.wf(),
        ensures
            (qarg as nat) >= self@.n ==> res == Result::<StabilizerCHForm, SimError>::Err(
                SimError::InvalidArgument,
            ),
            ((qarg as nat) < self@.n && discard_ok(self@, qarg as int)) ==> (res matches Ok(r)
                && r.wf() && r@ == discard_spec(self@, qarg as int)),
            ((qarg as nat) < self@.n && !discard_ok(self@, qarg as int)) ==> res
                == Result::<StabilizerCHForm, SimError>::Err(SimError::OperationInfeasible),
    {
        let mut copy = self.clone();
        match copy.discard(qarg) {
            Ok(()) => Ok(copy),
            Err(e) => Err(e),
        }
    }

    /// Brings `v[qarg]` and `s[qarg]` to `false` without changing the
    /// represented state.
    fn _set_s_v_to_false(&mut self, qarg: usize) -> (res: Result<(), SimError>)
        requires
            old(self).wf(),
            (qarg as nat) < old(self)@.n,
        ensures
            final(self).wf(),
            final(self)@.n == old(self)@.n,
            set_sv_ok(old(self)@, qarg as int) ==> res is Ok && final(self)@ == set_sv_spec(
                old(self)@,
                qarg as int,
            ),
            !set_sv_ok(old(self)@, qarg as int) ==> res == Result::<(), SimError>::Err(
                SimError::OperationInfeasible,
            ) && final(self)@ == old(self)@,
    {
        proof {
            lemma_wf_dims(*self);
        }
        let ghost c = old(self)@;
        let ghost q = qarg as int;
        let n = self.n;
        if !self.vec_v[qarg] && !self.vec_s[qarg] {
            return Ok(());
        }
        let ok_index = self._find_vs(qarg, false, false);
        proof {
            lemma_find_vs_props(c, q, false, false, 0);
        }
        if ok_index < n {
            self._swap_path(qarg, ok_index);
            return Ok(());
        }
        let first = self._find_vs_any_from(false, true, 0);
        proof {
            lemma_find_vs_any_props(c, false, true, 0);
        }
        if first >= n {
            return Err(SimError::OperationInfeasible);
        }
        let second = self._find_vs_any_from(false, true, first + 1);
        proof {
            lemma_find_vs_any_props(c, false, true, first as int + 1);
        }
        if second >= n {
            return Err(SimError::OperationInfeasible);
        }
        proof {
            assert(first != second);
        }
        self._right_multiply_cx(first, second);
        self.vec_s[second] = false;
        proof {
            assert(self@.s =~= right_cx_spec(c, first as int, second as int).s.update(
                second as int,
                false,
            ));
        }
        if second == qarg {
            return Ok(());
        }
        self._swap_path(qarg, second);
        Ok(())
    }

    /// The first index at or after `start`, the discarded qubit included,
    /// whose `v` and `s` bits match.
    fn _find_vs_any_from(&self, wv: bool, ws: bool, start: usize) -> (r: usize)
        requires
            self.wf(),
        ensures
            r as int == find_vs_any(self@, wv, ws, start as int),
            r <= self@.n,
    {
        proof {
            lemma_wf_dims(*self);
        }
        let n = self.n;
        let mut i = start;
        if i > n {
            proof {
                lemma_find_vs_any_high(self@, wv, ws, start as int);
            }
            return n;
        }
        while i < n
            invariant
                i <= n,
                n as nat == self@.n,
                self.wf(),
                self.vec_v@.len() == n,
                self.vec_s@.len() == n,
                self.vec_v@ == self@.v,
                self.vec_s@ == self@.s,
                find_vs_any(self@, wv, ws, start as int) == find_vs_any(self@, wv, ws, i as int),
            decreases n - i,
        {
            if self.vec_v[i] == wv && self.vec_s[i] == ws {
                return i;
            }
            i = i + 1;
        }
        n
    }

    /// The first index other than `qarg` whose `v` and `s` bits match.
    fn _find_vs(&self, qarg: usize, wv: bool, ws: bool) -> (r: usize)
        requires
            self.wf(),
            (qarg as nat) < self@.n,
        ensures
            r as int == find_vs(self@, qarg as int, wv, ws, 0),
            r <= self@.n,
    {
        self._find_vs_from(qarg, wv, ws, 0)
    }

    /// The first index at or after `start`, other than `qarg`, whose `v`
    /// and `s` bits match.
    fn _find_vs_from(&self, qarg: usize, wv: bool, ws: bool, start: usize) -> (r: usize)
        requires
            self.wf(),
            (qarg as nat) < self@.n,
        ensures
            r as int == find_vs(self@, qarg as int, wv, ws, start as int),
            r <= self@.n,
    {
        proof {
            lemma_wf_dims(*self);
        }
        let n = self.n;
        let mut i = start;
        if i > n {
            proof {
                lemma_find_vs_high(self@, qarg as int, wv, ws, start as int);
            }
            return n;
        }
        while i < n
            invariant
                i <= n,
                n as nat == self@.n,
                self.wf(),
                self.vec_v@.len() == n,
                self.vec_s@.len() == n,
                self.vec_v@ == self@.v,
                self.vec_s@ == self@.s,
                qarg < n,
                find_vs(self@, qarg as int, wv, ws, start as int) == find_vs(
                    self@,
                    qarg as int,
                    wv,
                    ws,
                    i as int,
                ),
            decreases n - i,
        {
            if i != qarg && self.vec_v[i] == wv && self.vec_s[i] == ws {
                return i;
            }
            i = i + 1;
        }
        n
    }

    /// Exchanges the bookkeeping of qubits `qarg` and `other`: three right
    /// CX, then the `v` and `s` entries.
    fn _swap_path(&mut self, qarg: usize, other: usize)
        requires
            old(self).wf(),
            (qarg as nat) < old(self)@.n,
            (other as nat) < old(self)@.n,
            qarg != other,
        ensures
            final(self).wf(),
            final(self)@ == swap_path_spec(old(self)@, qarg as int, other as int),
    {
        proof {
            lemma_wf_dims(*self);
        }
        self._right_multiply_cx(other, qarg);
        self._right_multiply_cx(qarg, other);
        self._right_multiply_cx(other, qarg);
        let vq = self.vec_v[qarg];
        let vo = self.vec_v[other];
        self.vec_v[qarg] = vo;
        self.vec_v[other] = vq;
        let sq = self.vec_s[qarg];
        let so = self.vec_s[other];
        self.vec_s[qarg] = so;
        self.vec_s[other] = sq;
        proof {
            assert(self@ == swap_path_spec(old(self)@, qarg as int, other as int));
        }
    }

    /// Clears row and column `qarg` of `G` off the diagonal.
    fn _transform_g(&mut self, qarg: usize) -> (res: Result<(), SimError>)
        requires
            old(self).wf(),
            (qarg as nat) < old(self)@.n,
        ensures
            final(self).wf(),
            final(self)@.n == old(self)@.n,
            transform_g_spec(old(self)@, qarg as int).1 ==> res is Ok && final(self)@
                == transform_g_spec(old(self)@, qarg as int).0,
            !transform_g_spec(old(self)@, qarg as int).1 ==> res == Result::<(), SimError>::Err(
                SimError::OperationInfeasible,
            ) && final(self)@ == transform_g_spec(old(self)@, qarg as int).0,
    {
        proof {
            lemma_wf_dims(*self);
        }
        let ghost c = old(self)@;
        let ghost q = qarg as int;
        let n = self.n;
        if !self.mat_g[qarg][qarg] {
            let piv = self._find_g_row(qarg);
            proof {
                lemma_find_g_row_props(c, q, 0);
            }
            if piv < n {
                self._right_multiply_cx(qarg, piv);
            }
        }
        let ghost c0 = self@;
        proof {
            assert(c0 == if !c.g[q][q] {
                if find_g_row(c, q, 0) < c.n {
                    right_cx_spec(c, q, find_g_row(c, q, 0))
                } else {
                    c
                }
            } else {
                c
            });
        }
        let mut i: usize = 0;
        while i < n
            invariant
                i <= n,
                n as nat == c.n,
                self.wf(),
                self@.n == c.n,
                qarg < n,
                q == qarg as int,
                self@ == g_col_fold(c0, q, i as int),
            decreases n - i,
        {
            proof {
                lemma_wf_dims(*self);
            }
            if i != qarg && self.mat_g[i][qarg] {
                self._left_multiply_cx(qarg, i);
            }
            proof {
                assert(self@ == g_col_fold(c0, q, i + 1));
            }
            i = i + 1;
        }
        let ghost c1 = self@;
        let mut k: usize = 0;
        while k < n
            invariant
                k <= n,
                n as nat == c.n,
                c == old(self)@,
                self.wf(),
                self@.n == c.n,
                qarg < n,
                q == qarg as int,
                transform_g_spec(c, q) == g_row_fold(c1, q, c.n as int),
                g_row_fold(c1, q, k as int).1,
                self@ == g_row_fold(c1, q, k as int).0,
            decreases n - k,
        {
            proof {
                lemma_wf_dims(*self);
            }
            if k != qarg && self.mat_g[qarg][k] {
                if self.vec_v[k] {
                    proof {
                        assert(!g_row_fold(c1, q, k + 1).1);
                        lemma_g_row_fold_fail(c1, q, k as int, c.n as int);
                        assert(!transform_g_spec(c, q).1);
                    }
                    return Err(SimError::OperationInfeasible);
                }
                self._right_multiply_cx(k, qarg);
            }
            proof {
                assert(self@ == g_row_fold(c1, q, k + 1).0);
                assert(g_row_fold(c1, q, k + 1).1);
            }
            k = k + 1;
        }
        proof {
            assert(transform_g_spec(c, q).1);
            assert(self@ == transform_g_spec(c, q).0);
        }
        Ok(())
    }

    /// The first set entry of row `qarg` of `G` off the diagonal.
    fn _find_g_row(&self, qarg: usize) -> (r: usize)
        requires
            self.wf(),
            (qarg as nat) < self@.n,
        ensures
            r as int == find_g_row(self@, qarg as int, 0),
            r <= self@.n,
    {
        proof {
            lemma_wf_dims(*self);
        }
        let n = self.n;
        let mut i: usize = 0;
        while i < n
            invariant
                i <= n,
                n as nat == self@.n,
                self.wf(),
                self.mat_g@.len() == n,
                self.mat_g@[qarg as int]@ == self@.g[qarg as int],
                self.mat_g@[qarg as int]@.len() == n,
                qarg < n,
                find_g_row(self@, qarg as int, 0) == find_g_row(self@, qarg as int, i as int),
            decreases n - i,
        {
            if i != qarg && self.mat_g[qarg][i] {
                return i;
            }
            i = i + 1;
        }
        n
    }

    /// Clears row and column `qarg` of `M`.
    fn _transform_m(&mut self, qarg: usize)
        requires
            old(self).wf(),
            (qarg as nat) < old(self)@.n,
        ensures
            final(self).wf(),
            final(self)@.n == old(self)@.n,
            final(self)@ == transform_m_spec(old(self)@, qarg as int),
    {
        proof {
            lemma_wf_dims(*self);
        }
        let ghost c = old(self)@;
        let ghost q = qarg as int;
        let n = self.n;
        let mut i: usize = 0;
        while i < n
            invariant
                i <= n,
                n as nat == c.n,
                self.wf(),
                self@.n == c.n,
                qarg < n,
                q == qarg as int,
                self@ == m_col_fold(c, q, i as int),
            decreases n - i,
        {
            proof {
                lemma_wf_dims(*self);
            }
            if i != qarg && self.mat_m[i][qarg] {
                self._left_multiply_cx(qarg, i);
            }
            proof {
                assert(self@ == m_col_fold(c, q, i + 1));
            }
            i = i + 1;
        }
        proof {
            lemma_wf_dims(*self);
        }
        if self.mat_m[qarg][qarg] {
            self._left_multiply_sdg(qarg);
        }
        let ghost c2 = self@;
        let mut k: usize = 0;
        while k < n
            invariant
                k <= n,
                n as nat == c.n,
                self.wf(),
                self@.n == c.n,
                qarg < n,
                q == qarg as int,
                self@ == m_row_fold(c2, q, k as int),
            decreases n - k,
        {
            proof {
                lemma_wf_dims(*self);
            }
            if k != qarg && self.mat_m[qarg][k] {
                self._right_multiply_cz(qarg, k);
            }
            proof {
                assert(self@ == m_row_fold(c2, q, k + 1));
            }
            k = k + 1;
        }
    }

    /// Deletes row, column and entries `qarg` and decrements the qubit
    /// count.
    fn _remove_qubit(&mut self, qarg: usize)
        requires
            old(self).wf(),
            (qarg as nat) < old(self)@.n,
        ensures
            final(self).wf(),
            final(self)@ == remove_qubit_spec(old(self)@, qarg as int),
    {
        proof {
            lemma_wf_dims(*self);
        }
        let ghost c = old(self)@;
        let ghost q = qarg as int;
        let ghost tgt = remove_qubit_spec(c, q);
        let n = self.n;
        let m = n - 1;

        let mat_g = remove_row_col(&self.mat_g, qarg, Ghost(c.g), Ghost(c.n));
        let mat_f = remove_row_col(&self.mat_f, qarg, Ghost(c.f), Ghost(c.n));
        let mat_m = remove_row_col(&self.mat_m, qarg, Ghost(c.m), Ghost(c.n));

        let mut gamma: Vec<crate::phase_factor::PhaseFactor> = Vec::new();
        let mut vec_v: Vec<bool> = Vec::new();
        let mut vec_s: Vec<bool> = Vec::new();
        let mut i: usize = 0;
        while i < m
            invariant
                i <= m,
                m + 1 == n,
                n as nat == c.n,
                self.wf(),
                c == self@,
                qarg < n,
                q == qarg as int,
                self.gamma@.len() == n,
                self.vec_v@.len() == n,
                self.vec_s@.len() == n,
                self.vec_v@ == c.v,
                self.vec_s@ == c.s,
                phases_sv(self.gamma@) == c.gamma,
                gamma@.len() == i,
                vec_v@.len() == i,
                vec_s@.len() == i,
                forall|p: int|
                    0 <= p < i ==> (#[trigger] gamma@[p]).spec_k() == c.gamma[skip_idx(p, q)],
                forall|p: int| 0 <= p < i ==> #[trigger] vec_v@[p] == c.v[skip_idx(p, q)],
                forall|p: int| 0 <= p < i ==> #[trigger] vec_s@[p] == c.s[skip_idx(p, q)],
            decreases m - i,
        {
            let src = if i < qarg {
                i
            } else {
                i + 1
            };
            proof {
                assert(src as int == skip_idx(i as int, q));
                assert(phases_sv(self.gamma@)[src as int] == self.gamma@[src as int].spec_k());
            }
            gamma.push(self.gamma[src]);
            vec_v.push(self.vec_v[src]);
            vec_s.push(self.vec_s[src]);
            i = i + 1;
        }
        self.n = m;
        self.mat_g = mat_g;
        self.mat_f = mat_f;
        self.mat_m = mat_m;
        self.gamma = gamma;
        self.vec_v = vec_v;
        self.vec_s = vec_s;
        proof {
            assert(self@.gamma =~= tgt.gamma);
            assert(self@.v =~= tgt.v);
            assert(self@.s =~= tgt.s);
            assert(self@ == tgt);
            assert forall|p: int| 0 <= p < tgt.n implies 0 <= #[trigger] tgt.gamma[p] < 8
                && tgt.gamma[p] % 2 == 0 by {
                assert(tgt.gamma[p] == c.gamma[skip_idx(p, q)]);
            }
            assert(wf_state(self@));
        }
    }
}

/// What `find_vs` returns: an index at or after the start, within range,
/// and when in range it names a qubit other than `q` with the wanted bits.
proof fn lemma_find_vs_props(c: ChState, q: int, wv: bool, ws: bool, i: int)
    requires
        0 <= i,
    ensures
        i <= find_vs(c, q, wv, ws, i) || find_vs(c, q, wv, ws, i) == c.n as int,
        find_vs(c, q, wv, ws, i) <= c.n as int,
        find_vs(c, q, wv, ws, i) < c.n ==> {
            let r = find_vs(c, q, wv, ws, i);
            r != q && c.v[r] == wv && c.s[r] == ws && i <= r
        },
    decreases c.n - i,
{
    if 0 <= i < c.n {
        if !(i != q && c.v[i] == wv && c.s[i] == ws) {
            lemma_find_vs_props(c, q, wv, ws, i + 1);
        }
    }
}

/// What `find_g_row` returns: within range, and when in range an
/// off-diagonal set entry of row `q`.
proof fn lemma_find_g_row_props(c: ChState, q: int, i: int)
    requires
        0 <= i,
    ensures
        find_g_row(c, q, i) <= c.n as int,
        find_g_row(c, q, i) < c.n ==> {
            let r = find_g_row(c, q, i);
            r != q && c.g[q][r]
        },
    decreases c.n - i,
{
    if 0 <= i < c.n {
        if !(i != q && c.g[q][i]) {
            lemma_find_g_row_props(c, q, i + 1);
        }
    }
}

/// What `find_vs_any` returns: an index within range, at or after the
/// start, and when in range a qubit with the wanted bits.
proof fn lemma_find_vs_any_props(c: ChState, wv: bool, ws: bool, i: int)
    requires
        0 <= i,
    ensures
        i <= find_vs_any(c, wv, ws, i) || find_vs_any(c, wv, ws, i) == c.n as int,
        find_vs_any(c, wv, ws, i) <= c.n as int,
        find_vs_any(c, wv, ws, i) < c.n ==> {
            let r = find_vs_any(c, wv, ws, i);
            c.v[r] == wv && c.s[r] == ws && i <= r
        },
    decreases c.n - i,
{
    if 0 <= i < c.n {
        if !(c.v[i] == wv && c.s[i] == ws) {
            lemma_find_vs_any_props(c, wv, ws, i + 1);
        }
    }
}

/// `find_vs_any` from past the end finds nothing.
proof fn lemma_find_vs_any_high(c: ChState, wv: bool, ws: bool, i: int)
    requires
        i >= c.n,
    ensures
        find_vs_any(c, wv, ws, i) == c.n as int,
{
}

/// `find_vs` from past the end finds nothing.
proof fn lemma_find_vs_high(c: ChState, q: int, wv: bool, ws: bool, i: int)
    requires
        i >= c.n,
    ensures
        find_vs(c, q, wv, ws, i) == c.n as int,
{
}

/// Once the row pass has failed it stays failed, with the state frozen at
/// the failing step.
proof fn lemma_g_row_fold_fail(c1: ChState, q: int, k: int, n: int)
    requires
        0 <= k < n,
        g_row_fold(c1, q, k).1,
        !g_row_fold(c1, q, k + 1).1,
    ensures
        !g_row_fold(c1, q, n).1,
        g_row_fold(c1, q, n).0 == g_row_fold(c1, q, k).0,
    decreases n - k,
{
    if k + 1 < n {
        lemma_g_row_fold_fail_step(c1, q, k + 1, n);
    }
}

/// A failed row pass never recovers and never moves the state again.
proof fn lemma_g_row_fold_fail_step(c1: ChState, q: int, k: int, n: int)
    requires
        0 <= k <= n,
        !g_row_fold(c1, q, k).1,
    ensures
        !g_row_fold(c1, q, n).1,
        g_row_fold(c1, q, n).0 == g_row_fold(c1, q, k).0,
    decreases n - k,
{
    if k < n {
        lemma_g_row_fold_fail_step(c1, q, k + 1, n);
    }
}

/// A matrix with row and column `q` deleted.
fn remove_row_col(
    mat: &Vec<Vec<bool>>,
    q: usize,
    Ghost(cm): Ghost<Seq<Seq<bool>>>,
    Ghost(cn): Ghost<nat>,
) -> (r: Vec<Vec<bool>>)
    requires
        mat_sv(mat@) == cm,
        mat@.len() == cn,
        (q as nat) < cn,
        forall|i: int| 0 <= i < cn ==> (#[trigger] mat@[i])@.len() == cn,
    ensures
        mat_sv(r@) =~~= Seq::new(
            (cn - 1) as nat,
            |i: int|
                Seq::new(
                    (cn - 1) as nat,
                    |j: int| cm[skip_idx(i, q as int)][skip_idx(j, q as int)],
                ),
        ),
{
    let ghost tgt = Seq::new(
        (cn - 1) as nat,
        |i: int|
            Seq::new((cn - 1) as nat, |j: int| cm[skip_idx(i, q as int)][skip_idx(j, q as int)]),
    );
    let n = mat.len();
    let m = n - 1;
    let mut r: Vec<Vec<bool>> = Vec::new();
    let mut i: usize = 0;
    while i < m
        invariant
            i <= m,
            m + 1 == n,
            n as nat == cn,
            q < n,
            mat@.len() == cn,
            mat_sv(mat@) == cm,
            forall|p: int| 0 <= p < cn ==> (#[trigger] mat@[p])@.len() == cn,
            tgt == Seq::new(
                (cn - 1) as nat,
                |p: int|
                    Seq::new(
                        (cn - 1) as nat,
                        |t: int| cm[skip_idx(p, q as int)][skip_idx(t, q as int)],
                    ),
            ),
            r@.len() == i,
            forall|p: int| 0 <= p < i ==> #[trigger] r@[p]@ =~= tgt[p],
        decreases m - i,
    {
        let si = if i < q {
            i
        } else {
            i + 1
        };
        proof {
            assert(si as int == skip_idx(i as int, q as int));
            assert(mat_sv(mat@)[si as int] == mat@[si as int]@);
        }
        let mut row: Vec<bool> = Vec::new();
        let mut j: usize = 0;
        while j < m
            invariant
                j <= m,
                i < m,
                m + 1 == n,
                n as nat == cn,
                q < n,
                mat@.len() == cn,
                mat_sv(mat@) == cm,
                si as int == skip_idx(i as int, q as int),
                0 <= si < n,
                forall|p: int| 0 <= p < cn ==> (#[trigger] mat@[p])@.len() == cn,
                tgt == Seq::new(
                    (cn - 1) as nat,
                    |p: int|
                        Seq::new(
                            (cn - 1) as nat,
                            |t: int| cm[skip_idx(p, q as int)][skip_idx(t, q as int)],
                        ),
                ),
                row@.len() == j,
                forall|t: int| 0 <= t < j ==> #[trigger] row@[t] == tgt[i as int][t],
            decreases m - j,
        {
            let sj = if j < q {
                j
            } else {
                j + 1
            };
            proof {
                assert(sj as int == skip_idx(j as int, q as int));
                assert(mat_sv(mat@)[si as int] == mat@[si as int]@);
            }
            row.push(mat[si][sj]);
            j = j + 1;
        }
        r.push(row);
        proof {
            assert(r@[i as int]@ =~= tgt[i as int]);
        }
        i = i + 1;
    }
    proof {
        assert forall|p: int| 0 <= p < cn - 1 implies mat_sv(r@)[p] =~= tgt[p] by {
            assert(mat_sv(r@)[p] == r@[p]@);
        }
        assert(mat_sv(r@) =~~= tgt);
    }
    r
}

} // verus!
