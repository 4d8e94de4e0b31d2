//! Structural operations: qubit relabelling, the swap gate, and the tensor
//! product.

use vstd::prelude::*;
use crate::error::SimError;
use crate::model::{is_permutation, kron_spec, permuted_spec, transposition, wf_state, ChState};
use crate::phase_factor::PhaseFactor;
use crate::state::resolve::idx_sv;
use crate::state::{lemma_view, lemma_wf_dims, mat_sv, phases_sv, StabilizerCHForm};

verus! {

broadcast use lemma_view;

impl StabilizerCHForm {
    /// A copy of the state with the qubits relabelled: entry `i` of the
    /// result is entry `axes[i]` of this state, in every matrix and
    /// vector.  `axes` must be a permutation of the qubit indices.
    pub fn permuted(&self, axes: &Vec<usize>) -> (res: Result<StabilizerCHForm, SimError>)
        requires
            self.wf(),
        ensures
            is_permutation(idx_sv(axes@), self@.n) ==> (res matches Ok(r) && r.wf() && r@
                == permuted_spec(self@, idx_sv(axes@))),
            !is_permutation(idx_sv(axes@), self@.n) ==> res
                == Result::<StabilizerCHForm, SimError>::Err(SimError::InvalidArgument),
    {
        proof {
            lemma_wf_dims(*self);
        }
        let ghost c = self@;
        let ghost ax = idx_sv(axes@);
        let n = self.n;
        if axes.len() != n {
            return Err(SimError::InvalidArgument);
        }
        // Bounds check.
        let mut i: usize = 0;
        while i < n
            invariant
                i <= n,
                n as nat == c.n,
                axes@.len() == n,
                ax == idx_sv(axes@),
                forall|k: int| 0 <= k < i ==> 0 <= #[trigger] ax[k] < n,
            decreases n - i,
        {
            if axes[i] >= n {
                proof {
                    assert(ax[i as int] == axes@[i as int] as int);
                }
                return Err(SimError::InvalidArgument);
            }
            proof {
                assert(ax[i as int] == axes@[i as int] as int);
            }
            i = i + 1;
        }
        // Distinctness check.
        let mut seen: Vec<bool> = crate::state::zero_row(n);
        let mut k: usize = 0;
        while k < n
            invariant
                k <= n,
                n as nat == c.n,
                axes@.len() == n,
                ax == idx_sv(axes@),
                seen@.len() == n,
                forall|p: int| 0 <= p < n ==> 0 <= #[trigger] ax[p] < n,
                forall|x: int|
                    0 <= x < n ==> (#[trigger] seen@[x] <==> exists|p: int|
                        0 <= p < k && #[trigger] ax[p] == x),
                forall|p1: int, p2: int| 0 <= p1 < p2 < k ==> #[trigger] ax[p1] != #[trigger] ax[p2],
            decreases n - k,
        {
            let a = axes[k];
            proof {
                assert(ax[k as int] == a as int);
            }
            if seen[a] {
                return Err(SimError::InvalidArgument);
            }
            seen[a] = true;
            proof {
                assert forall|x: int|
                    0 <= x < n implies (#[trigger] seen@[x] <==> exists|p: int|
                        0 <= p < k + 1 && #[trigger] ax[p] == x) by {
                    if x == a as int {
                        assert(ax[k as int] == x);
                    }
                }
            }
            k = k + 1;
        }
        proof {
            assert(is_permutation(ax, c.n));
        }
        Ok(self._permuted_unchecked(axes))
    }

    /// The relabelled copy, for an already validated permutation.
    fn _permuted_unchecked(&self, axes: &Vec<usize>) -> (r: StabilizerCHForm)
        requires
            self.wf(),
            axes@.len() == self@.n,
            is_permutation(idx_sv(axes@), self@.n),
        ensures
            r.wf(),
            r@ == permuted_spec(self@, idx_sv(axes@)),
    {
        proof {
            lemma_wf_dims(*self);
        }
        let ghost c = self@;
        let ghost ax = idx_sv(axes@);
        let n = self.n;
        let ghost tgt = permuted_spec(c, ax);

        let mat_g = permute_matrix(&self.mat_g, axes, Ghost(c.g), Ghost(c.n));
        let mat_f = permute_matrix(&self.mat_f, axes, Ghost(c.f), Ghost(c.n));
        let mat_m = permute_matrix(&self.mat_m, axes, Ghost(c.m), Ghost(c.n));

        let mut gamma: Vec<PhaseFactor> = Vec::new();
        let mut vec_v: Vec<bool> = Vec::new();
        let mut vec_s: Vec<bool> = Vec::new();
        let mut i: usize = 0;
        while i < n
            invariant
                i <= n,
                n as nat == c.n,
                axes@.len() == n,
                ax == idx_sv(axes@),
                is_permutation(ax, c.n),
                self.wf(),
                c == self@,
                self.gamma@.len() == n,
                self.vec_v@.len() == n,
                self.vec_s@.len() == n,
                self.vec_v@ == c.v,
                self.vec_s@ == c.s,
                phases_sv(self.gamma@) == c.gamma,
                gamma@.len() == i,
                vec_v@.len() == i,
                vec_s@.len() == i,
                forall|p: int|
                    0 <= p < i ==> (#[trigger] gamma@[p]).spec_k() == c.gamma[ax[p]],
                forall|p: int| 0 <= p < i ==> #[trigger] vec_v@[p] == c.v[ax[p]],
                forall|p: int| 0 <= p < i ==> #[trigger] vec_s@[p] == c.s[ax[p]],
            decreases n - i,
        {
            let a = axes[i];
            proof {
                assert(ax[i as int] == a as int);
                assert(0 <= ax[i as int] < c.n);
                assert(phases_sv(self.gamma@)[a as int] == self.gamma@[a as int].spec_k());
            }
            gamma.push(self.gamma[a]);
            vec_v.push(self.vec_v[a]);
            vec_s.push(self.vec_s[a]);
            i = i + 1;
        }
        let r = StabilizerCHForm {
            n,
            mat_g,
            mat_f,
            mat_m,
            gamma,
            vec_v,
            vec_s,
            omega: self.omega,
            phase_factor: self.phase_factor,
        };
        proof {
            assert(r@.gamma =~= tgt.gamma);
            assert(r@.v =~= tgt.v);
            assert(r@.s =~= tgt.s);
            assert(r@ == tgt);
            assert forall|p: int| 0 <= p < c.n implies 0 <= #[trigger] tgt.gamma[p] < 8
                && tgt.gamma[p] % 2 == 0 by {
                assert(tgt.gamma[p] == c.gamma[ax[p]]);
            }
            assert(wf_state(r@));
        }
        r
    }

    /// Relabels the qubits of this state in place.
    pub fn permute(&mut self, axes: &Vec<usize>) -> (res: Result<(), SimError>)
        requires
            old(self).wf(),
        ensures
            final(self).wf(),
            is_permutation(idx_sv(axes@), old(self)@.n) ==> res is Ok && final(self)@
                == permuted_spec(old(self)@, idx_sv(axes@)),
            !is_permutation(idx_sv(axes@), old(self)@.n) ==> res == Result::<(), SimError>::Err(
                SimError::InvalidArgument,
            ) && final(self)@ == old(self)@,
    {
        match self.permuted(axes) {
            Ok(r) => {
                *self = r;
                Ok(())
            },
            Err(e) => Err(e),
        }
    }

    /// The update rule of the swap gate: the whole state is relabelled by
    /// the transposition of the two indices.
    pub(crate) fn _left_multiply_swap(&mut self, qarg1: usize, qarg2: usize)
        requires
            old(self).wf(),
            (qarg1 as nat) < old(self)@.n,
            (qarg2 as nat) < old(self)@.n,
        ensures
            final(self).wf(),
            final(self)@ == permuted_spec(
                old(self)@,
                transposition(old(self)@.n, qarg1 as int, qarg2 as int),
            ),
    {
        proof {
            lemma_wf_dims(*self);
        }
        let ghost c = old(self)@;
        let n = self.n;
        let mut perm: Vec<usize> = Vec::new();
        let mut x: usize = 0;
        while x < n
            invariant
                x <= n,
                n as nat == c.n,
                qarg1 < n,
                qarg2 < n,
                perm@.len() == x,
                idx_sv(perm@) =~= transposition(c.n, qarg1 as int, qarg2 as int).take(x as int),
            decreases n - x,
        {
            if x == qarg1 {
                perm.push(qarg2);
            } else if x == qarg2 {
                perm.push(qarg1);
            } else {
                perm.push(x);
            }
            proof {
                assert(idx_sv(perm@) =~= transposition(c.n, qarg1 as int, qarg2 as int).take(
                    x + 1,
                ));
            }
            x = x + 1;
        }
        proof {
            assert(idx_sv(perm@) =~= transposition(c.n, qarg1 as int, qarg2 as int));
            assert(is_permutation(idx_sv(perm@), c.n));
        }
        let r = self._permuted_unchecked(&perm);
        *self = r;
    }

    /// Applies the swap gate between the two given qubits.
    pub fn apply_swap(&mut self, qarg1: usize, qarg2: usize) -> (res: Result<(), SimError>)
        requires
            old(self).wf(),
        ensures
            final(self).wf(),
            ((qarg1 as nat) < old(self)@.n && (qarg2 as nat) < old(self)@.n && qarg1 != qarg2)
                ==> res is Ok && final(self)@ == permuted_spec(
                old(self)@,
                transposition(old(self)@.n, qarg1 as int, qarg2 as int),
            ),
            !((qarg1 as nat) < old(self)@.n && (qarg2 as nat) < old(self)@.n && qarg1 != qarg2)
                ==> res == Result::<(), SimError>::Err(SimError::InvalidArgument) && final(self)@
                == old(self)@,
    {
        if qarg1 >= self.n || qarg2 >= self.n || qarg1 == qarg2 {
            return Err(SimError::InvalidArgument);
        }
        self._left_multiply_swap(qarg1, qarg2);
        Ok(())
    }

    /// The tensor product of this state with another: block-diagonal
    /// matrices, concatenated vectors, multiplied global phases.
    pub fn kron(&self, other: &StabilizerCHForm) -> (r: StabilizerCHForm)
        requires
            self.wf(),
            other.wf(),
            self@.n + other@.n <= usize::MAX,
        ensures
            r.wf(),
            r@ == kron_spec(self@, other@),
    {
        proof {
            lemma_wf_dims(*self);
            lemma_wf_dims(*other);
        }
        let ghost a = self@;
        let ghost b = other@;
        let ghost tgt = kron_spec(a, b);
        let n1 = self.n;
        let n2 = other.n;
        let n = n1 + n2;

        let mat_g = kron_matrix(&self.mat_g, &other.mat_g, n1, n2, Ghost(a.g), Ghost(b.g));
        let mat_f = kron_matrix(&self.mat_f, &other.mat_f, n1, n2, Ghost(a.f), Ghost(b.f));
        let mat_m = kron_matrix(&self.mat_m, &other.mat_m, n1, n2, Ghost(a.m), Ghost(b.m));

        let mut gamma = crate::state::clone_phases(&self.gamma);
        let mut vec_v = crate::state::clone_bits(&self.vec_v);
        let mut vec_s = crate::state::clone_bits(&self.vec_s);
        proof {
            assert forall|p: int| 0 <= p < n1 implies (#[trigger] gamma@[p]).spec_k()
                == a.gamma[p] by {
                assert(phases_sv(self.gamma@)[p] == self.gamma@[p].spec_k());
            }
        }
        let mut i: usize = 0;
        while i < n2
            invariant
                i <= n2,
                n1 as nat == a.n,
                n2 as nat == b.n,
                n1 + n2 <= usize::MAX,
                other@ == b,
                other.wf(),
                other.gamma@.len() == n2,
                other.vec_v@.len() == n2,
                other.vec_s@.len() == n2,
                other.vec_v@ == b.v,
                other.vec_s@ == b.s,
                phases_sv(other.gamma@) == b.gamma,
                a.v.len() == n1,
                a.s.len() == n1,
                a.gamma.len() == n1,
                gamma@.len() == n1 + i,
                vec_v@.len() == n1 + i,
                vec_s@.len() == n1 + i,
                forall|p: int| 0 <= p < n1 ==> (#[trigger] gamma@[p]).spec_k() == a.gamma[p],
                forall|p: int|
                    n1 <= p < n1 + i ==> (#[trigger] gamma@[p]).spec_k() == b.gamma[p - n1],
                forall|p: int| 0 <= p < n1 ==> #[trigger] vec_v@[p] == a.v[p],
                forall|p: int| n1 <= p < n1 + i ==> #[trigger] vec_v@[p] == b.v[p - n1],
                forall|p: int| 0 <= p < n1 ==> #[trigger] vec_s@[p] == a.s[p],
                forall|p: int| n1 <= p < n1 + i ==> #[trigger] vec_s@[p] == b.s[p - n1],
            decreases n2 - i,
        {
            proof {
                assert(phases_sv(other.gamma@)[i as int] == other.gamma@[i as int].spec_k());
            }
            gamma.push(other.gamma[i]);
            vec_v.push(other.vec_v[i]);
            vec_s.push(other.vec_s[i]);
            i = i + 1;
        }
        let r = StabilizerCHForm {
            n,
            mat_g,
            mat_f,
            mat_m,
            gamma,
            vec_v,
            vec_s,
            omega: self.omega.mul(other.omega),
            phase_factor: self.phase_factor.mul(other.phase_factor),
        };
        proof {
            assert forall|p: int| 0 <= p < n1 + n2 implies phases_sv(r.gamma@)[p]
                == tgt.gamma[p] by {
                assert(phases_sv(r.gamma@)[p] == r.gamma@[p].spec_k());
                if p < n1 {
                    assert((a.gamma + b.gamma)[p] == a.gamma[p]);
                } else {
                    assert((a.gamma + b.gamma)[p] == b.gamma[p - n1]);
                }
            }
            assert(r@.gamma =~= tgt.gamma);
            assert(r@.v =~= tgt.v);
            assert(r@.s =~= tgt.s);
            assert(r@ == tgt);
            assert forall|p: int| 0 <= p < tgt.n implies 0 <= #[trigger] tgt.gamma[p] < 8
                && tgt.gamma[p] % 2 == 0 by {
                if p < a.n {
                    assert(tgt.gamma[p] == (a.gamma + b.gamma)[p] == a.gamma[p]);
                } else {
                    assert(tgt.gamma[p] == (a.gamma + b.gamma)[p] == b.gamma[p - a.n]);
                }
            }
            assert(wf_state(r@));
        }
        r
    }
}

/// The rows and columns of a matrix, both reordered by `axes`.
fn permute_matrix(
    mat: &Vec<Vec<bool>>,
    axes: &Vec<usize>,
    Ghost(cm): Ghost<Seq<Seq<bool>>>,
    Ghost(cn): Ghost<nat>,
) -> (r: Vec<Vec<bool>>)
    requires
        mat_sv(mat@) == cm,
        mat@.len() == cn,
        axes@.len() == cn,
        forall|i: int| 0 <= i < cn ==> (#[trigger] mat@[i])@.len() == cn,
        forall|i: int| 0 <= i < cn ==> 0 <= #[trigger] idx_sv(axes@)[i] < cn,
    ensures
        mat_sv(r@) =~~= Seq::new(
            cn,
            |i: int| Seq::new(cn, |j: int| cm[idx_sv(axes@)[i]][idx_sv(axes@)[j]]),
        ),
{
    let ghost ax = idx_sv(axes@);
    let ghost tgt = Seq::new(cn, |i: int| Seq::new(cn, |j: int| cm[ax[i]][ax[j]]));
    let n = mat.len();
    let mut r: Vec<Vec<bool>> = Vec::new();
    let mut i: usize = 0;
    while i < n
        invariant
            i <= n,
            n as nat == cn,
            mat@.len() == cn,
            axes@.len() == cn,
            ax == idx_sv(axes@),
            mat_sv(mat@) == cm,
            tgt == Seq::new(cn, |p: int| Seq::new(cn, |q: int| cm[ax[p]][ax[q]])),
            forall|p: int| 0 <= p < cn ==> (#[trigger] mat@[p])@.len() == cn,
            forall|p: int| 0 <= p < cn ==> 0 <= #[trigger] ax[p] < cn,
            r@.len() == i,
            forall|p: int| 0 <= p < i ==> #[trigger] r@[p]@ =~= tgt[p],
        decreases n - i,
    {
        let mut row: Vec<bool> = Vec::new();
        let ai = axes[i];
        proof {
            assert(ax[i as int] == ai as int);
            assert(mat_sv(mat@)[ai as int] == mat@[ai as int]@);
        }
        let mut j: usize = 0;
        while j < n
            invariant
                j <= n,
                i < n,
                n as nat == cn,
                mat@.len() == cn,
                axes@.len() == cn,
                ax == idx_sv(axes@),
                mat_sv(mat@) == cm,
                ai as int == ax[i as int],
                0 <= ax[i as int] < cn,
                forall|p: int| 0 <= p < cn ==> (#[trigger] mat@[p])@.len() == cn,
                forall|p: int| 0 <= p < cn ==> 0 <= #[trigger] ax[p] < cn,
                row@.len() == j,
                forall|q: int| 0 <= q < j ==> #[trigger] row@[q] == cm[ax[i as int]][ax[q]],
            decreases n - j,
        {
            let aj = axes[j];
            proof {
                assert(ax[j as int] == aj as int);
                assert(mat_sv(mat@)[ai as int] == mat@[ai as int]@);
            }
            row.push(mat[ai][aj]);
            j = j + 1;
        }
        r.push(row);
        proof {
            assert(r@[i as int]@ =~= tgt[i as int]);
        }
        i = i + 1;
    }
    proof {
        assert forall|p: int| 0 <= p < cn implies mat_sv(r@)[p] =~= tgt[p] by {
            assert(mat_sv(r@)[p] == r@[p]@);
        }
        assert(mat_sv(r@) =~~= tgt);
    }
    r
}

/// The block-diagonal sum of two square matrices.
fn kron_matrix(
    ma: &Vec<Vec<bool>>,
    mb: &Vec<Vec<bool>>,
    n1: usize,
    n2: usize,
    Ghost(ca): Ghost<Seq<Seq<bool>>>,
    Ghost(cb): Ghost<Seq<Seq<bool>>>,
) -> (r: Vec<Vec<bool>>)
    requires
        mat_sv(ma@) == ca,
        mat_sv(mb@) == cb,
        ma@.len() == n1,
        mb@.len() == n2,
        n1 + n2 <= usize::MAX,
        forall|i: int| 0 <= i < n1 ==> (#[trigger] ma@[i])@.len() == n1,
        forall|i: int| 0 <= i < n2 ==> (#[trigger] mb@[i])@.len() == n2,
    ensures
        mat_sv(r@) =~~= Seq::new(
            (n1 + n2) as nat,
            |i: int|
                Seq::new(
                    (n1 + n2) as nat,
                    |j: int|
                        if i < n1 && j < n1 {
                            ca[i][j]
                        } else if i >= n1 && j >= n1 {
                            cb[i - n1][j - n1]
                        } else {
                            false
                        },
                ),
        ),
{
    let ghost tgt = Seq::new(
        (n1 + n2) as nat,
        |i: int|
            Seq::new(
                (n1 + n2) as nat,
                |j: int|
                    if i < n1 && j < n1 {
                        ca[i][j]
                    } else if i >= n1 && j >= n1 {
                        cb[i - n1][j - n1]
                    } else {
                        false
                    },
            ),
    );
    let n = n1 + n2;
    let mut r: Vec<Vec<bool>> = Vec::new();
    let mut i: usize = 0;
    while i < n
        invariant
            i <= n,
            n == n1 + n2,
            ma@.len() == n1,
            mb@.len() == n2,
            mat_sv(ma@) == ca,
            mat_sv(mb@) == cb,
            forall|p: int| 0 <= p < n1 ==> (#[trigger] ma@[p])@.len() == n1,
            forall|p: int| 0 <= p < n2 ==> (#[trigger] mb@[p])@.len() == n2,
            tgt.len() == n,
            forall|p: int| 0 <= p < n ==> (#[trigger] tgt[p]).len() == n,
            tgt == Seq::new(
                (n1 + n2) as nat,
                |p: int|
                    Seq::new(
                        (n1 + n2) as nat,
                        |q: int|
                            if p < n1 && q < n1 {
                                ca[p][q]
                            } else if p >= n1 && q >= n1 {
                                cb[p - n1][q - n1]
                            } else {
                                false
                            },
                    ),
            ),
            r@.len() == i,
            forall|p: int| 0 <= p < i ==> #[trigger] r@[p]@ =~= tgt[p],
        decreases n - i,
    {
        let mut row: Vec<bool> = Vec::new();
        let mut j: usize = 0;
        while j < n
            invariant
                j <= n,
                i < n,
                n == n1 + n2,
                ma@.len() == n1,
                mb@.len() == n2,
                mat_sv(ma@) == ca,
                mat_sv(mb@) == cb,
                forall|p: int| 0 <= p < n1 ==> (#[trigger] ma@[p])@.len() == n1,
                forall|p: int| 0 <= p < n2 ==> (#[trigger] mb@[p])@.len() == n2,
                tgt.len() == n,
                forall|p: int| 0 <= p < n ==> (#[trigger] tgt[p]).len() == n,
                tgt == Seq::new(
                    (n1 + n2) as nat,
                    |p: int|
                        Seq::new(
                            (n1 + n2) as nat,
                            |q: int|
                                if p < n1 && q < n1 {
                                    ca[p][q]
                                } else if p >= n1 && q >= n1 {
                                    cb[p - n1][q - n1]
                                } else {
                                    false
                                },
                        ),
                ),
                row@.len() == j,
                forall|q: int| 0 <= q < j ==> #[trigger] row@[q] == tgt[i as int][q],
            decreases n - j,
        {
            let val = if i < n1 && j < n1 {
                proof {
                    assert(mat_sv(ma@)[i as int] == ma@[i as int]@);
                }
                ma[i][j]
            } else if i >= n1 && j >= n1 {
                proof {
                    assert(mat_sv(mb@)[i - n1] == mb@[i - n1]@);
                }
                mb[i - n1][j - n1]
            } else {
                false
            };
            row.push(val);
            j = j + 1;
        }
        r.push(row);
        proof {
            assert(r@[i as int]@ =~= tgt[i as int]);
        }
        i = i + 1;
    }
    proof {
        assert forall|p: int| 0 <= p < n implies mat_sv(r@)[p] =~= tgt[p] by {
            assert(mat_sv(r@)[p] == r@[p]@);
        }
        assert(mat_sv(r@) =~~= tgt);
    }
    r
}

} // verus!
