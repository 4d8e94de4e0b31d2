//! The mathematical model of a CH-form state, and the exact effect of every
//! update rule on it.
//!
//! Executable code works on vectors of booleans; its contracts speak of a
//! [`ChState`]: the same data as sequences and integers.  Each gate rule,
//! right-multiplication primitive and resolution step has a spec function
//! here that pins down the state it produces.

use vstd::prelude::*;
use vstd::arithmetic::power2::pow2;
use crate::phase_factor::PhaseFactor;
use crate::scalar::Scalar;

verus! {

/// A CH-form state, at the spec level.
///
/// `g`, `f`, `m` are `n` by `n` boolean matrices, `gamma` holds phase
/// exponents modulo 8, `v` and `s` are length-`n` boolean vectors, and
/// `omega` and `pf` are global phase exponents modulo 8.
pub ghost struct ChState {
    pub n: nat,
    pub g: Seq<Seq<bool>>,
    pub f: Seq<Seq<bool>>,
    pub m: Seq<Seq<bool>>,
    pub gamma: Seq<int>,
    pub v: Seq<bool>,
    pub s: Seq<bool>,
    pub omega: int,
    pub pf: int,
}

/// An `n` by `n` boolean matrix: `n` rows of length `n`.
pub open spec fn is_matrix(mat: Seq<Seq<bool>>, n: nat) -> bool {
    mat.len() == n && (forall|i: int| 0 <= i < n ==> (#[trigger] mat[i]).len() == n)
}

/// Well-formedness: every component has the right dimension, the `gamma`
/// entries are canonical phases (`1, i, -1, -i`: even exponents), and the
/// global phase exponents are reduced modulo 8.
pub open spec fn wf_state(c: ChState) -> bool {
    &&& is_matrix(c.g, c.n)
    &&& is_matrix(c.f, c.n)
    &&& is_matrix(c.m, c.n)
    &&& c.gamma.len() == c.n
    &&& c.v.len() == c.n
    &&& c.s.len() == c.n
    &&& (forall|i: int|
        0 <= i < c.n ==> 0 <= #[trigger] c.gamma[i] < 8 && c.gamma[i] % 2 == 0)
    &&& 0 <= c.omega < 8
    &&& 0 <= c.pf < 8
}

/// Entrywise exclusive or of two rows.
pub open spec fn row_xor(a: Seq<bool>, b: Seq<bool>) -> Seq<bool> {
    Seq::new(a.len(), |i: int| a[i] != b[i])
}

/// Whether a sequence holds an odd number of `true` entries.
pub open spec fn odd(s: Seq<bool>) -> bool
    decreases s.len(),
{
    if s.len() == 0 {
        false
    } else {
        odd(s.drop_last()) != s.last()
    }
}

/// The number of `true` entries.
pub open spec fn count_true(s: Seq<bool>) -> int
    decreases s.len(),
{
    if s.len() == 0 {
        0
    } else {
        count_true(s.drop_last()) + if s.last() {
            1int
        } else {
            0int
        }
    }
}

/// Parity of the entrywise product of two rows.
pub open spec fn dot_parity(a: Seq<bool>, b: Seq<bool>) -> bool {
    odd(Seq::new(a.len(), |i: int| a[i] && b[i]))
}

/// S on qubit `j`: `M[j,:] ^= G[j,:]`, `gamma[j] *= -i`.
pub open spec fn left_s_spec(c: ChState, j: int) -> ChState {
    ChState {
        m: c.m.update(j, row_xor(c.m[j], c.g[j])),
        gamma: c.gamma.update(j, pk_mul_k(c.gamma[j], 6)),
        ..c
    }
}

/// S-dagger on qubit `j`: `M[j,:] ^= G[j,:]`, `gamma[j] *= +i`.
pub open spec fn left_sdg_spec(c: ChState, j: int) -> ChState {
    ChState {
        m: c.m.update(j, row_xor(c.m[j], c.g[j])),
        gamma: c.gamma.update(j, pk_mul_k(c.gamma[j], 2)),
        ..c
    }
}

/// Z on qubit `j`: `gamma[j] *= -1`.
pub open spec fn left_z_spec(c: ChState, j: int) -> ChState {
    ChState { gamma: c.gamma.update(j, pk_mul_k(c.gamma[j], 4)), ..c }
}

/// Addition of phase exponents modulo 8 (mirror of `phase_factor::pk_mul`,
/// repeated here so the model is self-contained).
pub open spec fn pk_mul_k(a: int, b: int) -> int {
    (a + b) % 8
}

/// Negation of a phase exponent modulo 8: the complex conjugate.
pub open spec fn pk_conj_k(a: int) -> int {
    (8 - a) % 8
}

/// The basis string that X on qubit `j` maps `s` to:
/// `u[i] = s[i] xor (F[j,i] and not v[i]) xor (M[j,i] and v[i])`.
pub open spec fn x_u_spec(c: ChState, j: int) -> Seq<bool> {
    Seq::new(c.s.len(), |i: int| (c.s[i] != (c.f[j][i] && !c.v[i])) != (c.m[j][i] && c.v[i]))
}

/// The sign exponent of X and H on qubit `j`: the parity of
/// `#(M[j] and not v and s) + #(F[j] and v and M[j]) + #(F[j] and v and s)`.
pub open spec fn beta_spec(c: ChState, j: int) -> bool {
    (odd(Seq::new(c.n, |i: int| c.m[j][i] && !c.v[i] && c.s[i])) != odd(
        Seq::new(c.n, |i: int| c.f[j][i] && c.v[i] && c.m[j][i]),
    )) != odd(Seq::new(c.n, |i: int| c.f[j][i] && c.v[i] && c.s[i]))
}

/// X on qubit `j`: replaces `s`, flips the sign of the global phase when
/// `beta` is odd, then multiplies the global phase by `gamma[j]`.
pub open spec fn left_x_spec(c: ChState, j: int) -> ChState {
    ChState {
        s: x_u_spec(c, j),
        pf: pk_mul_k(pk_mul_k(c.pf, if beta_spec(c, j) { 4int } else { 0int }), c.gamma[j]),
        ..c
    }
}

/// Y on qubit `j`: `Z`, then `X`, then a global factor of `+i`.
pub open spec fn left_y_spec(c: ChState, j: int) -> ChState {
    let c1 = left_x_spec(left_z_spec(c, j), j);
    ChState { pf: pk_mul_k(c1.pf, 2), ..c1 }
}

/// CX with control `ctl` and target `tgt`:
/// `gamma[ctl] *= gamma[tgt] * (-1)^(M[ctl] . F[tgt])`, then
/// `G[tgt,:] ^= G[ctl,:]`, `F[ctl,:] ^= F[tgt,:]`, `M[ctl,:] ^= M[tgt,:]`,
/// all from the rows before the update.
pub open spec fn left_cx_spec(c: ChState, ctl: int, tgt: int) -> ChState {
    ChState {
        gamma: c.gamma.update(
            ctl,
            pk_mul_k(
                pk_mul_k(c.gamma[ctl], c.gamma[tgt]),
                if dot_parity(c.m[ctl], c.f[tgt]) {
                    4int
                } else {
                    0int
                },
            ),
        ),
        g: c.g.update(tgt, row_xor(c.g[tgt], c.g[ctl])),
        f: c.f.update(ctl, row_xor(c.f[ctl], c.f[tgt])),
        m: c.m.update(ctl, row_xor(c.m[ctl], c.m[tgt])),
        ..c
    }
}

/// CZ on `q1`, `q2`: `M[q1,:] ^= G[q2,:]` and `M[q2,:] ^= G[q1,:]`,
/// both from the rows before the update.
pub open spec fn left_cz_spec(c: ChState, q1: int, q2: int) -> ChState {
    ChState {
        m: c.m.update(q1, row_xor(c.m[q1], c.g[q2])).update(q2, row_xor(c.m[q2], c.g[q1])),
        ..c
    }
}

/// Right CX with control `ctl` and target `tgt`, acting on columns:
/// `G[:,ctl] ^= G[:,tgt]`, `F[:,tgt] ^= F[:,ctl]`, `M[:,ctl] ^= M[:,tgt]`.
pub open spec fn right_cx_spec(c: ChState, ctl: int, tgt: int) -> ChState {
    ChState {
        g: Seq::new(c.g.len(), |p: int| c.g[p].update(ctl, c.g[p][ctl] != c.g[p][tgt])),
        f: Seq::new(c.f.len(), |p: int| c.f[p].update(tgt, c.f[p][tgt] != c.f[p][ctl])),
        m: Seq::new(c.m.len(), |p: int| c.m[p].update(ctl, c.m[p][ctl] != c.m[p][tgt])),
        ..c
    }
}

/// Right CZ on `q1`, `q2`: `M[:,q1] ^= F[:,q2]`, `M[:,q2] ^= F[:,q1]`, and
/// `gamma[p] *= -1` for every row `p` with `F[p,q1]` and `F[p,q2]`.
pub open spec fn right_cz_spec(c: ChState, q1: int, q2: int) -> ChState {
    ChState {
        m: Seq::new(
            c.m.len(),
            |p: int|
                c.m[p].update(q1, c.m[p][q1] != c.f[p][q2]).update(
                    q2,
                    c.m[p][q2] != c.f[p][q1],
                ),
        ),
        gamma: Seq::new(
            c.gamma.len(),
            |p: int|
                if c.f[p][q1] && c.f[p][q2] {
                    pk_mul_k(c.gamma[p], 4)
                } else {
                    c.gamma[p]
                },
        ),
        ..c
    }
}

/// Right S on `q`: `M[:,q] ^= F[:,q]`, and `gamma[p] *= -i` for every row
/// `p` with `F[p,q]`.
pub open spec fn right_s_spec(c: ChState, q: int) -> ChState {
    ChState {
        m: Seq::new(c.m.len(), |p: int| c.m[p].update(q, c.m[p][q] != c.f[p][q])),
        gamma: Seq::new(
            c.gamma.len(),
            |p: int|
                if c.f[p][q] {
                    pk_mul_k(c.gamma[p], 6)
                } else {
                    c.gamma[p]
                },
        ),
        ..c
    }
}

/// The indices below `n` where `t` and `u` differ and `v` equals `want`,
/// in increasing order.
pub open spec fn diff_seq(t: Seq<bool>, u: Seq<bool>, v: Seq<bool>, want: bool, n: int) -> Seq<
    int,
>
    decreases n,
{
    if n <= 0 {
        Seq::empty()
    } else {
        let rest = diff_seq(t, u, v, want, n - 1);
        if t[n - 1] != u[n - 1] && v[n - 1] == want {
            rest.push(n - 1)
        } else {
            rest
        }
    }
}

/// The differing indices are in range, carry the wanted `v` flag, differ in
/// `t` and `u`, and are strictly increasing.
pub proof fn lemma_diff_seq(t: Seq<bool>, u: Seq<bool>, v: Seq<bool>, want: bool, n: int)
    ensures
        forall|k: int|
            0 <= k < diff_seq(t, u, v, want, n).len() ==> 0 <= #[trigger] diff_seq(
                t,
                u,
                v,
                want,
                n,
            )[k] < n && t[diff_seq(t, u, v, want, n)[k]] != u[diff_seq(t, u, v, want, n)[k]]
                && v[diff_seq(t, u, v, want, n)[k]] == want,
        forall|k1: int, k2: int|
            0 <= k1 < k2 < diff_seq(t, u, v, want, n).len() ==> #[trigger] diff_seq(
                t,
                u,
                v,
                want,
                n,
            )[k1] < #[trigger] diff_seq(t, u, v, want, n)[k2],
    decreases n,
{
    if n > 0 {
        lemma_diff_seq(t, u, v, want, n - 1);
        let rest = diff_seq(t, u, v, want, n - 1);
        let d = diff_seq(t, u, v, want, n);
        if t[n - 1] != u[n - 1] && v[n - 1] == want {
            assert(d == rest.push(n - 1));
            assert(forall|k: int| 0 <= k < rest.len() ==> #[trigger] d[k] == rest[k]);
        }
    }
}

/// Folds right CX with the pivot as control over a list of targets.
pub open spec fn fold_rcx_from_pivot(c: ChState, pivot: int, d: Seq<int>) -> ChState
    decreases d.len(),
{
    if d.len() == 0 {
        c
    } else {
        right_cx_spec(fold_rcx_from_pivot(c, pivot, d.drop_last()), pivot, d.last())
    }
}

/// Folds right CX with the pivot as target over a list of controls.
pub open spec fn fold_rcx_into_pivot(c: ChState, pivot: int, d: Seq<int>) -> ChState
    decreases d.len(),
{
    if d.len() == 0 {
        c
    } else {
        right_cx_spec(fold_rcx_into_pivot(c, pivot, d.drop_last()), d.last(), pivot)
    }
}

/// Folds right CZ of the pivot against a list of partners.
pub open spec fn fold_rcz_with_pivot(c: ChState, pivot: int, d: Seq<int>) -> ChState
    decreases d.len(),
{
    if d.len() == 0 {
        c
    } else {
        right_cz_spec(fold_rcz_with_pivot(c, pivot, d.drop_last()), pivot, d.last())
    }
}

/// The pivot: the least differing index with `v` false, or, when there is
/// none, the least differing index with `v` true.
pub open spec fn pivot_spec(d0: Seq<int>, d1: Seq<int>) -> int {
    if d0.len() == 0 {
        d1[0]
    } else {
        d0[0]
    }
}

/// Contracts every differing index but the pivot onto the pivot: within the
/// `v`-false class by right CX, and the `v`-true class against a `v`-false
/// pivot by right CZ.
pub open spec fn basis_transform_spec(c: ChState, d0: Seq<int>, d1: Seq<int>) -> ChState {
    if d0.len() == 0 {
        fold_rcx_into_pivot(c, d1[0], d1.subrange(1, d1.len() as int))
    } else {
        fold_rcz_with_pivot(
            fold_rcx_from_pivot(c, d0[0], d0.subrange(1, d0.len() as int)),
            d0[0],
            d1,
        )
    }
}

/// The single-qubit rule at the pivot, once the superposition has been
/// contracted there.  `keep` is the branch written into `s`; the cases
/// follow the identities `|0> + |1> = H|0> * sqrt(2)` and their phased
/// variants.
pub open spec fn resolve_branch_spec(
    c1: ChState,
    pivot: int,
    tp: bool,
    keep: Seq<bool>,
    delta: int,
) -> ChState {
    let base = ChState { s: keep, ..c1 };
    if tp {
        if delta == 0 {
            ChState { s: base.s.update(pivot, false), v: base.v.update(pivot, !base.v[pivot]), ..base }
        } else if delta == 4 {
            ChState {
                s: base.s.update(pivot, true),
                v: base.v.update(pivot, !base.v[pivot]),
                pf: pk_mul_k(base.pf, 4),
                ..base
            }
        } else if delta == 2 {
            if c1.v[pivot] {
                right_s_spec(
                    ChState { s: base.s.update(pivot, false), pf: pk_mul_k(base.pf, 1), ..base },
                    pivot,
                )
            } else {
                let c2 = right_s_spec(
                    ChState {
                        s: base.s.update(pivot, true),
                        v: base.v.update(pivot, true),
                        ..base
                    },
                    pivot,
                );
                ChState { pf: pk_mul_k(c2.pf, 2), ..c2 }
            }
        } else {
            if c1.v[pivot] {
                right_s_spec(
                    ChState { s: base.s.update(pivot, true), pf: pk_mul_k(base.pf, 7), ..base },
                    pivot,
                )
            } else {
                let c2 = right_s_spec(
                    ChState {
                        s: base.s.update(pivot, false),
                        v: base.v.update(pivot, true),
                        ..base
                    },
                    pivot,
                );
                ChState { pf: pk_mul_k(c2.pf, 6), ..c2 }
            }
        }
    } else {
        if delta == 0 {
            ChState { s: base.s.update(pivot, false), v: base.v.update(pivot, !base.v[pivot]), ..base }
        } else if delta == 4 {
            ChState { s: base.s.update(pivot, true), v: base.v.update(pivot, !base.v[pivot]), ..base }
        } else if delta == 2 {
            if c1.v[pivot] {
                right_s_spec(
                    ChState { s: base.s.update(pivot, true), pf: pk_mul_k(base.pf, 1), ..base },
                    pivot,
                )
            } else {
                right_s_spec(
                    ChState {
                        s: base.s.update(pivot, false),
                        v: base.v.update(pivot, true),
                        ..base
                    },
                    pivot,
                )
            }
        } else {
            if c1.v[pivot] {
                right_s_spec(
                    ChState { s: base.s.update(pivot, false), pf: pk_mul_k(base.pf, 7), ..base },
                    pivot,
                )
            } else {
                right_s_spec(
                    ChState {
                        s: base.s.update(pivot, true),
                        v: base.v.update(pivot, true),
                        ..base
                    },
                    pivot,
                )
            }
        }
    }
}

/// Resolution of the unnormalized superposition `|t> + delta |u>` back into
/// canonical form.  When `t == u` and `delta == -1` the superposition is the
/// zero vector; that case is an invariant breach and the state is returned
/// unchanged (the executable code reports it as an error instead).
pub open spec fn resolve_spec(c: ChState, t: Seq<bool>, u: Seq<bool>, delta: int) -> ChState {
    if t == u {
        if delta == 0 {
            ChState { s: t, ..c }
        } else if delta == 2 {
            ChState { s: t, pf: pk_mul_k(c.pf, 1), ..c }
        } else if delta == 6 {
            ChState { s: t, pf: pk_mul_k(c.pf, 7), ..c }
        } else {
            c
        }
    } else {
        let d0 = diff_seq(t, u, c.v, false, c.n as int);
        let d1 = diff_seq(t, u, c.v, true, c.n as int);
        let pivot = pivot_spec(d0, d1);
        let c1 = basis_transform_spec(c, d0, d1);
        let keep = if t[pivot] {
            u
        } else {
            t
        };
        resolve_branch_spec(c1, pivot, t[pivot], keep, delta)
    }
}

/// Resolution succeeds unless the branches are equal with relative phase
/// `-1`.
pub open spec fn resolve_ok(t: Seq<bool>, u: Seq<bool>, delta: int) -> bool {
    !(t == u && delta == 4)
}

/// The first branch H produces: `t = s xor (G[j] and v)`.
pub open spec fn h_t_spec(c: ChState, j: int) -> Seq<bool> {
    Seq::new(c.s.len(), |i: int| c.s[i] != (c.g[j][i] && c.v[i]))
}

/// The second branch H produces:
/// `u = s xor (F[j] and not v) xor (M[j] and v)`.
pub open spec fn h_u_spec(c: ChState, j: int) -> Seq<bool> {
    x_u_spec(c, j)
}

/// The sign exponent `alpha`: the parity of `#(G[j] and not v and s)`.
pub open spec fn alpha_spec(c: ChState, j: int) -> bool {
    odd(Seq::new(c.n, |i: int| c.g[j][i] && !c.v[i] && c.s[i]))
}

/// The relative phase H hands to resolution: `gamma[j]`, sign-flipped when
/// `alpha != beta`.
pub open spec fn h_delta_spec(c: ChState, j: int) -> int {
    if alpha_spec(c, j) != beta_spec(c, j) {
        pk_mul_k(c.gamma[j], 4)
    } else {
        c.gamma[j]
    }
}

/// H on qubit `j`: flips the global sign when `alpha` is odd, then resolves
/// `|t> + delta |u>`.
pub open spec fn left_h_spec(c: ChState, j: int) -> ChState {
    let c0 = ChState {
        pf: if alpha_spec(c, j) {
            pk_mul_k(c.pf, 4)
        } else {
            c.pf
        },
        ..c
    };
    resolve_spec(c0, h_t_spec(c, j), h_u_spec(c, j), h_delta_spec(c, j))
}

/// Whether H on qubit `j` resolves without an invariant breach.
pub open spec fn h_ok(c: ChState, j: int) -> bool {
    resolve_ok(h_t_spec(c, j), h_u_spec(c, j), h_delta_spec(c, j))
}

/// The square root of X: `H`, then `S`, then `H`.
pub open spec fn left_sqrt_x_spec(c: ChState, j: int) -> ChState {
    left_h_spec(left_s_spec(left_h_spec(c, j), j), j)
}

/// Whether both resolutions inside the square root of X succeed.
pub open spec fn sqrt_x_ok(c: ChState, j: int) -> bool {
    h_ok(c, j) && h_ok(left_s_spec(left_h_spec(c, j), j), j)
}

/// The inverse square root of X: `H`, then `S`-dagger, then `H`.
pub open spec fn left_sqrt_xdg_spec(c: ChState, j: int) -> ChState {
    left_h_spec(left_sdg_spec(left_h_spec(c, j), j), j)
}

/// Whether both resolutions inside the inverse square root of X succeed.
pub open spec fn sqrt_xdg_ok(c: ChState, j: int) -> bool {
    h_ok(c, j) && h_ok(left_sdg_spec(left_h_spec(c, j), j), j)
}

/// A qubit is determined when no generator row entry of `G[j]` meets a set
/// `v` flag; its outcome is then fixed.
pub open spec fn is_determined(c: ChState, j: int) -> bool {
    forall|i: int| 0 <= i < c.n ==> !(#[trigger] c.g[j][i] && c.v[i])
}

/// The fixed outcome of a determined qubit: the parity of `G[j] . s`.
pub open spec fn determined_value(c: ChState, j: int) -> bool {
    odd(Seq::new(c.n, |i: int| c.g[j][i] && c.s[i]))
}

/// The shifted branch projection resolves against: `t = (G[j] and v) xor s`.
pub open spec fn proj_t_spec(c: ChState, j: int) -> Seq<bool> {
    Seq::new(c.n, |i: int| (c.g[j][i] && c.v[i]) != c.s[i])
}

/// Projection of a qubit in superposition onto the Z eigenstate `outcome`:
/// resolves `|s> + delta |t>` with `delta = -1` exactly when the sign
/// exponent `alpha` disagrees with the outcome.
pub open spec fn project_spec(c: ChState, j: int, outcome: bool) -> ChState {
    let delta: int = if alpha_spec(c, j) != outcome {
        4
    } else {
        0
    };
    resolve_spec(c, c.s, proj_t_spec(c, j), delta)
}

/// The amplitude `<0...0|phi>`, excluding the free global phase `omega`:
/// zero when some qubit without a Hadamard layer has a set basis bit, else
/// the collected phase scaled by `2^(-|v|/2)`.
pub open spec fn amp0_spec(c: ChState) -> Scalar {
    if exists|j: int| 0 <= j < c.n && !c.v[j] && c.s[j] {
        Scalar::Zero
    } else {
        Scalar::NonZero { phase: PhaseFactor::from_k_spec(c.pf), r: count_true(c.v) as usize }
    }
}

/// X applied at every set bit of `bits` below `k`, in index order.
pub open spec fn apply_x_fold(c: ChState, bits: Seq<bool>, k: int) -> ChState
    decreases k,
{
    if k <= 0 {
        c
    } else {
        let prev = apply_x_fold(c, bits, k - 1);
        if bits[k - 1] {
            left_x_spec(prev, k - 1)
        } else {
            prev
        }
    }
}

/// The amplitude `<bits|phi>`, excluding `omega`: the amplitude at zero of
/// the state with X applied at every set bit.
pub open spec fn amp_basis_spec(c: ChState, bits: Seq<bool>) -> Scalar {
    amp0_spec(apply_x_fold(c, bits, bits.len() as int))
}

/// The little-endian binary digits of `i`: bit `j` of the result is digit
/// `j` of `i`.
pub open spec fn bits_of(i: int, n: nat) -> Seq<bool> {
    Seq::new(n, |j: int| (i / pow2(j as nat) as int) % 2 == 1)
}

/// `axes` maps every position below `n` to a distinct position below `n`.
pub open spec fn is_permutation(axes: Seq<int>, n: nat) -> bool {
    &&& axes.len() == n
    &&& (forall|i: int| 0 <= i < n ==> 0 <= #[trigger] axes[i] < n)
    &&& (forall|i: int, j: int| 0 <= i < j < n ==> #[trigger] axes[i] != #[trigger] axes[j])
}

/// Relabels the qubits: entry `i` of the result is entry `axes[i]` of the
/// input, in every matrix and vector; the global phases are kept.
pub open spec fn permuted_spec(c: ChState, axes: Seq<int>) -> ChState {
    ChState {
        n: c.n,
        g: Seq::new(c.n, |i: int| Seq::new(c.n, |j: int| c.g[axes[i]][axes[j]])),
        f: Seq::new(c.n, |i: int| Seq::new(c.n, |j: int| c.f[axes[i]][axes[j]])),
        m: Seq::new(c.n, |i: int| Seq::new(c.n, |j: int| c.m[axes[i]][axes[j]])),
        gamma: Seq::new(c.n, |i: int| c.gamma[axes[i]]),
        v: Seq::new(c.n, |i: int| c.v[axes[i]]),
        s: Seq::new(c.n, |i: int| c.s[axes[i]]),
        omega: c.omega,
        pf: c.pf,
    }
}

/// The permutation that swaps `q1` and `q2` and fixes everything else.
pub open spec fn transposition(n: nat, q1: int, q2: int) -> Seq<int> {
    Seq::new(
        n,
        |x: int|
            if x == q1 {
                q2
            } else if x == q2 {
                q1
            } else {
                x
            },
    )
}

/// The tensor product: block-diagonal matrices, concatenated vectors,
/// multiplied global phases.
pub open spec fn kron_spec(a: ChState, b: ChState) -> ChState {
    let n = a.n + b.n;
    ChState {
        n,
        g: Seq::new(
            n,
            |i: int|
                Seq::new(
                    n,
                    |j: int|
                        if i < a.n && j < a.n {
                            a.g[i][j]
                        } else if i >= a.n && j >= a.n {
                            b.g[i - a.n][j - a.n]
                        } else {
                            false
                        },
                ),
        ),
        f: Seq::new(
            n,
            |i: int|
                Seq::new(
                    n,
                    |j: int|
                        if i < a.n && j < a.n {
                            a.f[i][j]
                        } else if i >= a.n && j >= a.n {
                            b.f[i - a.n][j - a.n]
                        } else {
                            false
                        },
                ),
        ),
        m: Seq::new(
            n,
            |i: int|
                Seq::new(
                    n,
                    |j: int|
                        if i < a.n && j < a.n {
                            a.m[i][j]
                        } else if i >= a.n && j >= a.n {
                            b.m[i - a.n][j - a.n]
                        } else {
                            false
                        },
                ),
        ),
        gamma: a.gamma + b.gamma,
        v: a.v + b.v,
        s: a.s + b.s,
        omega: pk_mul_k(a.omega, b.omega),
        pf: pk_mul_k(a.pf, b.pf),
    }
}

/// The `n` by `n` identity matrix over booleans.
pub open spec fn identity_mat(n: nat) -> Seq<Seq<bool>> {
    Seq::new(n, |i: int| Seq::new(n, |j: int| i == j))
}

/// The `n` by `n` zero matrix.
pub open spec fn zero_mat(n: nat) -> Seq<Seq<bool>> {
    Seq::new(n, |i: int| Seq::new(n, |j: int| false))
}

/// The state `|0...0>` on `n` qubits: `G = F = I`, `M = 0`, every `gamma`
/// entry `+1`, `v = s = 0`, both global phases `+1`.
pub open spec fn initial_state(n: nat) -> ChState {
    ChState {
        n,
        g: identity_mat(n),
        f: identity_mat(n),
        m: zero_mat(n),
        gamma: Seq::new(n, |i: int| 0int),
        v: Seq::new(n, |i: int| false),
        s: Seq::new(n, |i: int| false),
        omega: 0,
        pf: 0,
    }
}

} // verus!
