//! The inner product of two stabilizer states, computed by normalizing one
//! operand to `|0...0>` and replaying the recorded operations on the other.

use vstd::prelude::*;
use crate::error::SimError;
use crate::model::{
    amp0_spec, h_ok, left_cx_spec, left_cz_spec, left_h_spec, left_s_spec, left_sdg_spec,
    left_x_spec, pk_conj_k, ChState,
};
use crate::phase_factor::PhaseFactor;
use crate::scalar::{scalar_mul_phase, Scalar};
use crate::state::{lemma_view, lemma_wf_dims, StabilizerCHForm};

verus! {

broadcast use lemma_view;

/// One operation of the normalization record: a left-multiplied generator.
#[derive(Debug, Clone, Copy, PartialEq, Eq, Structural)]
pub enum InternalGate {
    H(usize),
    S(usize),
    Sdg(usize),
    X(usize),
    CX(usize, usize),
    CZ(usize, usize),
}

/// Every index is below `n`, and two-qubit gates use distinct qubits.
pub open spec fn internal_gate_valid(g: InternalGate, n: nat) -> bool {
    match g {
        InternalGate::H(q) => (q as nat) < n,
        InternalGate::S(q) => (q as nat) < n,
        InternalGate::Sdg(q) => (q as nat) < n,
        InternalGate::X(q) => (q as nat) < n,
        InternalGate::CX(q1, q2) => (q1 as nat) < n && (q2 as nat) < n && q1 != q2,
        InternalGate::CZ(q1, q2) => (q1 as nat) < n && (q2 as nat) < n && q1 != q2,
    }
}

/// The state transformation of one recorded operation.
pub open spec fn internal_gate_apply(c: ChState, g: InternalGate) -> ChState {
    match g {
        InternalGate::H(q) => left_h_spec(c, q as int),
        InternalGate::S(q) => left_s_spec(c, q as int),
        InternalGate::Sdg(q) => left_sdg_spec(c, q as int),
        InternalGate::X(q) => left_x_spec(c, q as int),
        InternalGate::CX(q1, q2) => left_cx_spec(c, q1 as int, q2 as int),
        InternalGate::CZ(q1, q2) => left_cz_spec(c, q1 as int, q2 as int),
    }
}

/// Whether one recorded operation resolves; only H can fail.
pub open spec fn internal_gate_ok(c: ChState, g: InternalGate) -> bool {
    match g {
        InternalGate::H(q) => h_ok(c, q as int),
        _ => true,
    }
}

/// The state after replaying the first `k` recorded operations.
pub open spec fn replay(c: ChState, ops: Seq<InternalGate>, k: int) -> ChState
    decreases k,
{
    if k <= 0 {
        c
    } else {
        internal_gate_apply(replay(c, ops, k - 1), ops[k - 1])
    }
}

/// Whether the first `k` recorded operations are valid and all resolve.
pub open spec fn replay_ok(c: ChState, ops: Seq<InternalGate>, k: int) -> bool
    decreases k,
{
    k <= 0 || (replay_ok(c, ops, k - 1) && internal_gate_valid(ops[k - 1], c.n)
        && internal_gate_ok(replay(c, ops, k - 1), ops[k - 1]))
}

/// The record brings the state to the canonical zero form: after the
/// replay, `v` and `s` are all false.  The generator layer of a CH form
/// fixes `|0...0>`, so such a state is `omega * phase_factor * |0...0>`.
pub open spec fn normalizes_to_zero(c: ChState, ops: Seq<InternalGate>) -> bool {
    &&& replay(c, ops, ops.len() as int).v == Seq::new(c.n, |i: int| false)
    &&& replay(c, ops, ops.len() as int).s == Seq::new(c.n, |i: int| false)
}

/// The normalization record emits only H, S-dagger, X, CX and CZ; the S
/// variant never occurs in it.
pub open spec fn emitted_gate(g: InternalGate) -> bool {
    match g {
        InternalGate::S(_) => false,
        _ => true,
    }
}

/// A prefix of the normalization run: the state reached so far, the
/// operations recorded so far, and whether every step so far went through.
pub ghost struct NormTrace {
    pub st: ChState,
    pub ops: Seq<InternalGate>,
    pub ok: bool,
}

/// Applies one more recorded operation to a trace.
pub open spec fn nt_push(t: NormTrace, g: InternalGate) -> NormTrace {
    NormTrace { st: internal_gate_apply(t.st, g), ops: t.ops.push(g), ok: t.ok }
}

/// The first row at or after `i` with a set entry in column `j` of `G`;
/// the qubit count when there is none.
pub open spec fn find_g_col(c: ChState, j: int, i: int) -> int
    decreases c.n - i,
{
    if i < 0 || i >= c.n {
        c.n as int
    } else if c.g[i][j] {
        i
    } else {
        find_g_col(c, j, i + 1)
    }
}

/// Brings a set entry onto the diagonal of column `j`: when the diagonal
/// is clear, the first set row below it is swapped in by three CX; with no
/// such row, `G` has no pivot for this column and the run fails.
pub open spec fn pivot_trace(t: NormTrace, j: int) -> NormTrace {
    if t.st.g[j][j] {
        t
    } else {
        let k = find_g_col(t.st, j, j + 1);
        if k >= t.st.n {
            NormTrace { ok: false, ..t }
        } else {
            nt_push(
                nt_push(
                    nt_push(t, InternalGate::CX(k as usize, j as usize)),
                    InternalGate::CX(j as usize, k as usize),
                ),
                InternalGate::CX(k as usize, j as usize),
            )
        }
    }
}

/// Clears column `j` of `G` off the diagonal with left CX, row by row.
pub open spec fn clear_col_trace(t: NormTrace, j: int, i: int) -> NormTrace
    decreases i,
{
    if i <= 0 {
        t
    } else {
        let p = clear_col_trace(t, j, i - 1);
        if i - 1 != j && p.st.g[i - 1][j] {
            nt_push(p, InternalGate::CX(j as usize, (i - 1) as usize))
        } else {
            p
        }
    }
}

/// The Gaussian elimination of `G`, column by column.
pub open spec fn step1_trace(t: NormTrace, j: int) -> NormTrace
    decreases j,
{
    if j <= 0 {
        t
    } else {
        let p = step1_trace(t, j - 1);
        if !p.ok {
            p
        } else {
            let piv = pivot_trace(p, j - 1);
            if !piv.ok {
                piv
            } else {
                clear_col_trace(piv, j - 1, piv.st.n as int)
            }
        }
    }
}

/// Clears row `r` of `M` above the diagonal with left CZ, column by
/// column.
pub open spec fn cz_row_trace(t: NormTrace, r: int, i: int) -> NormTrace
    decreases i - r,
{
    if i <= r + 1 {
        t
    } else {
        let p = cz_row_trace(t, r, i - 1);
        if p.st.m[r][i - 1] {
            nt_push(p, InternalGate::CZ(r as usize, (i - 1) as usize))
        } else {
            p
        }
    }
}

/// Clears the strict upper triangle of `M`, row by row.
pub open spec fn step2a_trace(t: NormTrace, r: int) -> NormTrace
    decreases r,
{
    if r <= 0 {
        t
    } else {
        let p = step2a_trace(t, r - 1);
        cz_row_trace(p, r - 1, p.st.n as int)
    }
}

/// Clears the diagonal of `M` with left S-dagger.
pub open spec fn step2b_trace(t: NormTrace, i: int) -> NormTrace
    decreases i,
{
    if i <= 0 {
        t
    } else {
        let p = step2b_trace(t, i - 1);
        if p.st.m[i - 1][i - 1] {
            nt_push(p, InternalGate::Sdg((i - 1) as usize))
        } else {
            p
        }
    }
}

/// Clears `v` with left H; an H whose resolution breaches the invariant
/// fails the run.
pub open spec fn step3_trace(t: NormTrace, i: int) -> NormTrace
    decreases i,
{
    if i <= 0 {
        t
    } else {
        let p = step3_trace(t, i - 1);
        if !p.ok {
            p
        } else if p.st.v[i - 1] {
            if h_ok(p.st, i - 1) {
                nt_push(p, InternalGate::H((i - 1) as usize))
            } else {
                NormTrace { ok: false, ..p }
            }
        } else {
            p
        }
    }
}

/// Clears `s` with left X.
pub open spec fn step4_trace(t: NormTrace, i: int) -> NormTrace
    decreases i,
{
    if i <= 0 {
        t
    } else {
        let p = step4_trace(t, i - 1);
        if p.st.s[i - 1] {
            nt_push(p, InternalGate::X((i - 1) as usize))
        } else {
            p
        }
    }
}

/// The trace a normalization run starts from.
pub open spec fn norm_start(c: ChState) -> NormTrace {
    NormTrace { st: c, ops: Seq::empty(), ok: true }
}

/// The whole normalization run on `c`: the elimination of `G`, the two
/// clearing passes over `M`, then `v` and `s`.
pub open spec fn norm_trace(c: ChState) -> NormTrace {
    let t1 = step1_trace(norm_start(c), c.n as int);
    if !t1.ok {
        t1
    } else {
        let t2 = step2b_trace(step2a_trace(t1, c.n as int), c.n as int);
        let t3 = step3_trace(t2, c.n as int);
        if !t3.ok {
            t3
        } else {
            step4_trace(t3, c.n as int)
        }
    }
}

/// Whether the normalization of `c` goes through: every step resolves and
/// the run ends in the zero form.
pub open spec fn norm_ok(c: ChState) -> bool {
    let t = norm_trace(c);
    t.ok && t.st.v == Seq::new(c.n, |i: int| false) && t.st.s == Seq::new(c.n, |i: int| false)
}

/// The value `<a|b>` takes when the record `ops` brings `a` to `|0...0>`:
/// the amplitude at zero of `b` replayed, times the conjugated tracked
/// phase of `a` replayed, times the conjugated free phase of `a`.
pub open spec fn inner_product_formula(a: ChState, b: ChState, ops: Seq<InternalGate>) -> Scalar {
    scalar_mul_phase(
        scalar_mul_phase(
            amp0_spec(replay(b, ops, ops.len() as int)),
            PhaseFactor::from_k_spec(pk_conj_k(replay(a, ops, ops.len() as int).pf)),
        ),
        PhaseFactor::from_k_spec(pk_conj_k(a.omega)),
    )
}

/// Appends one operation to the record and applies it to the scratch
/// state, keeping the scratch equal to the replay of the record.
fn push_and_apply(
    scratch: &mut StabilizerCHForm,
    ops: &mut Vec<InternalGate>,
    g: InternalGate,
    Ghost(a): Ghost<ChState>,
) -> (res: Result<(), SimError>)
    requires
        old(scratch).wf(),
        internal_gate_valid(g, old(scratch)@.n),
        old(scratch)@ == replay(a, old(ops)@, old(ops)@.len() as int),
        replay_ok(a, old(ops)@, old(ops)@.len() as int),
        a.n == old(scratch)@.n,
    ensures
        final(scratch).wf(),
        final(scratch)@.n == old(scratch)@.n,
        res is Ok ==> {
            &&& final(ops)@ == old(ops)@.push(g)
            &&& internal_gate_ok(old(scratch)@, g)
            &&& final(scratch)@ == internal_gate_apply(old(scratch)@, g)
            &&& final(scratch)@ == replay(a, final(ops)@, final(ops)@.len() as int)
            &&& replay_ok(a, final(ops)@, final(ops)@.len() as int)
            &&& (emitted_gate(g) && (forall|i: int|
                0 <= i < old(ops)@.len() ==> emitted_gate(#[trigger] old(ops)@[i]))) ==> (
            forall|i: int| 0 <= i < final(ops)@.len() ==> emitted_gate(#[trigger] final(ops)@[i]))
        },
        !(g matches InternalGate::H(_)) ==> res is Ok,
        res is Err ==> !internal_gate_ok(old(scratch)@, g),
        res is Err ==> res == Result::<(), SimError>::Err(SimError::InvalidState),
{
    let step = match g {
        InternalGate::H(q) => scratch._left_multiply_h(q),
        InternalGate::S(q) => {
            scratch._left_multiply_s(q);
            Ok(())
        },
        InternalGate::Sdg(q) => {
            scratch._left_multiply_sdg(q);
            Ok(())
        },
        InternalGate::X(q) => {
            scratch._left_multiply_x(q);
            Ok(())
        },
        InternalGate::CX(q1, q2) => {
            scratch._left_multiply_cx(q1, q2);
            Ok(())
        },
        InternalGate::CZ(q1, q2) => {
            scratch._left_multiply_cz(q1, q2);
            Ok(())
        },
    };
    if let Err(e) = step {
        return Err(e);
    }
    ops.push(g);
    proof {
        let oldo = old(ops)@;
        let newo = ops@;
        assert(newo == oldo.push(g));
        lemma_replay_prefix_eq(a, oldo, newo, oldo.len() as int);
        assert(newo[newo.len() - 1] == g);
        assert(scratch@ == replay(a, newo, newo.len() as int));
        assert(replay_ok(a, newo, newo.len() as int));
    }
    Ok(())
}

impl StabilizerCHForm {
    /// Replays a normalization record on a copy of this state.
    pub(crate) fn _get_ops_applied_state(&self, ops: &Vec<InternalGate>) -> (res: Result<
        StabilizerCHForm,
        SimError,
    >)
        requires
            self.wf(),
            forall|i: int|
                0 <= i < ops@.len() ==> internal_gate_valid(#[trigger] ops@[i], self@.n),
        ensures
            replay_ok(self@, ops@, ops@.len() as int) ==> res is Ok,
            res matches Ok(st) ==> {
                &&& st.wf()
                &&& st@.n == self@.n
                &&& st@ == replay(self@, ops@, ops@.len() as int)
                &&& replay_ok(self@, ops@, ops@.len() as int)
            },
            res is Err ==> res == Result::<StabilizerCHForm, SimError>::Err(
                SimError::InvalidState,
            ),
    {
        proof {
            lemma_wf_dims(*self);
        }
        let ghost a = self@;
        let mut st = self.clone();
        let m = ops.len();
        let mut i: usize = 0;
        while i < m
            invariant
                i <= m,
                m == ops@.len(),
                a == self@,
                forall|k: int|
                    0 <= k < ops@.len() ==> internal_gate_valid(#[trigger] ops@[k], a.n),
                st.wf(),
                st@.n == a.n,
                st@ == replay(a, ops@, i as int),
                replay_ok(a, ops@, i as int),
            decreases m - i,
        {
            let g = ops[i];
            let step = match g {
                InternalGate::H(q) => st._left_multiply_h(q),
                InternalGate::S(q) => {
                    st._left_multiply_s(q);
                    Ok(())
                },
                InternalGate::Sdg(q) => {
                    st._left_multiply_sdg(q);
                    Ok(())
                },
                InternalGate::X(q) => {
                    st._left_multiply_x(q);
                    Ok(())
                },
                InternalGate::CX(q1, q2) => {
                    st._left_multiply_cx(q1, q2);
                    Ok(())
                },
                InternalGate::CZ(q1, q2) => {
                    st._left_multiply_cz(q1, q2);
                    Ok(())
                },
            };
            if let Err(e) = step {
                proof {
                    if replay_ok(a, ops@, ops@.len() as int) {
                        lemma_replay_ok_prefix(a, ops@, i + 1, ops@.len() as int);
                        assert(false);
                    }
                }
                return Err(SimError::InvalidState);
            }
            proof {
                assert(st@ == replay(a, ops@, i + 1));
                assert(replay_ok(a, ops@, i + 1));
            }
            i = i + 1;
        }
        Ok(st)
    }

    /// Records a sequence of generators that maps this state to `|0...0>`:
    /// Gaussian elimination of `G` by left CX, then clearing `M` by left CZ
    /// and S-dagger, `v` by left H, and `s` by left X.  Returns the record
    /// and the tracked phase of the normalized scratch state.
    pub(crate) fn _get_normalize_to_zero_ops(&self) -> (res: Result<
        (Vec<InternalGate>, PhaseFactor),
        SimError,
    >)
        requires
            self.wf(),
        ensures
            res is Ok <==> norm_ok(self@),
            res matches Ok(op) ==> {
                &&& op.0@ == norm_trace(self@).ops
                &&& forall|i: int|
                    0 <= i < op.0@.len() ==> internal_gate_valid(#[trigger] op.0@[i], self@.n)
                &&& forall|i: int| 0 <= i < op.0@.len() ==> emitted_gate(#[trigger] op.0@[i])
                &&& replay_ok(self@, op.0@, op.0@.len() as int)
                &&& normalizes_to_zero(self@, op.0@)
                &&& op.1.spec_k() == replay(self@, op.0@, op.0@.len() as int).pf
                &&& op.1.inv()
            },
            res is Err ==> res == Result::<(Vec<InternalGate>, PhaseFactor), SimError>::Err(
                SimError::InvalidState,
            ),
    {
        proof {
            lemma_wf_dims(*self);
        }
        let ghost a = self@;
        let ghost t0 = norm_start(a);
        let n = self.n;
        let mut ops: Vec<InternalGate> = Vec::new();
        let mut scratch = self.clone();
        proof {
            assert(replay(a, ops@, 0) == a);
            assert(ops@ =~= t0.ops);
        }

        // Step 1: eliminate G to the identity with left CX.
        let mut j: usize = 0;
        while j < n
            invariant
                j <= n,
                n as nat == a.n,
                a == self@,
                t0 == norm_start(a),
                scratch.wf(),
                scratch@.n == a.n,
                scratch@ == replay(a, ops@, ops@.len() as int),
                replay_ok(a, ops@, ops@.len() as int),
                forall|i: int|
                    0 <= i < ops@.len() ==> internal_gate_valid(#[trigger] ops@[i], a.n),
                forall|i: int| 0 <= i < ops@.len() ==> emitted_gate(#[trigger] ops@[i]),
                step1_trace(t0, j as int).ok,
                scratch@ == step1_trace(t0, j as int).st,
                ops@ == step1_trace(t0, j as int).ops,
            decreases n - j,
        {
            proof {
                lemma_wf_dims(scratch);
            }
            let ghost tp = step1_trace(t0, j as int);
            let mut pivot_row = j;
            let diag = scratch.mat_g[j][j];
            proof {
                assert(scratch@.g[j as int] == scratch.mat_g@[j as int]@);
                assert(diag == tp.st.g[j as int][j as int]);
            }
            if !diag {
                let ghost cpre = scratch@;
                let mut k = j + 1;
                let mut found = false;
                while k < n && !found
                    invariant
                        j < n,
                        j < k <= n,
                        n as nat == cpre.n,
                        cpre == scratch@,
                        scratch.wf(),
                        scratch.mat_g@.len() == n,
                        forall|p: int| 0 <= p < n ==> (#[trigger] scratch.mat_g@[p])@.len() == n,
                        !found ==> find_g_col(cpre, j as int, (j + 1) as int) == find_g_col(
                            cpre,
                            j as int,
                            k as int,
                        ),
                        found ==> pivot_row as int == find_g_col(cpre, j as int, (j + 1) as int)
                            && j < pivot_row < n,
                    decreases n - k + (if found {
                        0int
                    } else {
                        1int
                    }),
                {
                    proof {
                        assert(scratch@.g[k as int] == scratch.mat_g@[k as int]@);
                    }
                    if scratch.mat_g[k][j] {
                        pivot_row = k;
                        found = true;
                        proof {
                            assert(find_g_col(cpre, j as int, k as int) == k as int);
                        }
                    } else {
                        proof {
                            assert(find_g_col(cpre, j as int, k as int) == find_g_col(
                                cpre,
                                j as int,
                                k + 1,
                            ));
                        }
                        k = k + 1;
                    }
                }
                if !found {
                    proof {
                        assert(find_g_col(cpre, j as int, (j + 1) as int) == cpre.n as int);
                        assert(!pivot_trace(tp, j as int).ok);
                        assert(step1_trace(t0, j + 1) == pivot_trace(tp, j as int));
                        lemma_step1_freeze(t0, j + 1, n as int);
                        assert(!step1_trace(t0, a.n as int).ok);
                        assert(norm_trace(a) == step1_trace(t0, a.n as int));
                        assert(!norm_ok(a));
                    }
                    return Err(SimError::InvalidState);
                }
                let r1 = push_and_apply(
                    &mut scratch,
                    &mut ops,
                    InternalGate::CX(pivot_row, j),
                    Ghost(a),
                );
                if let Err(e) = r1 {
                    return Err(e);
                }
                let r2 = push_and_apply(
                    &mut scratch,
                    &mut ops,
                    InternalGate::CX(j, pivot_row),
                    Ghost(a),
                );
                if let Err(e) = r2 {
                    return Err(e);
                }
                let r3 = push_and_apply(
                    &mut scratch,
                    &mut ops,
                    InternalGate::CX(pivot_row, j),
                    Ghost(a),
                );
                if let Err(e) = r3 {
                    return Err(e);
                }
                proof {
                    assert(scratch@ == pivot_trace(tp, j as int).st);
                    assert(ops@ == pivot_trace(tp, j as int).ops);
                }
            }
            let ghost tpv = pivot_trace(tp, j as int);
            proof {
                assert(tpv.ok && scratch@ == tpv.st && ops@ == tpv.ops);
                assert(tpv.st.n == a.n);
            }
            let mut i: usize = 0;
            while i < n
                invariant
                    i <= n,
                    j < n,
                    n as nat == a.n,
                    a == self@,
                    t0 == norm_start(a),
                    tpv == pivot_trace(step1_trace(t0, j as int), j as int),
                    step1_trace(t0, j as int).ok,
                    tpv.ok,
                    tpv.st.n == a.n,
                    scratch.wf(),
                    scratch@.n == a.n,
                    scratch@ == replay(a, ops@, ops@.len() as int),
                    replay_ok(a, ops@, ops@.len() as int),
                    forall|p: int|
                        0 <= p < ops@.len() ==> internal_gate_valid(#[trigger] ops@[p], a.n),
                    forall|p: int| 0 <= p < ops@.len() ==> emitted_gate(#[trigger] ops@[p]),
                    clear_col_trace(tpv, j as int, i as int).ok,
                    scratch@ == clear_col_trace(tpv, j as int, i as int).st,
                    ops@ == clear_col_trace(tpv, j as int, i as int).ops,
                decreases n - i,
            {
                proof {
                    lemma_wf_dims(scratch);
                    assert(scratch@.g[i as int] == scratch.mat_g@[i as int]@);
                }
                if i != j && scratch.mat_g[i][j] {
                    let r = push_and_apply(
                        &mut scratch,
                        &mut ops,
                        InternalGate::CX(j, i),
                        Ghost(a),
                    );
                    if let Err(e) = r {
                        return Err(e);
                    }
                }
                proof {
                    assert(scratch@ == clear_col_trace(tpv, j as int, i + 1).st);
                    assert(ops@ == clear_col_trace(tpv, j as int, i + 1).ops);
                }
                i = i + 1;
            }
            proof {
                assert(step1_trace(t0, j + 1) == clear_col_trace(tpv, j as int, tpv.st.n as int));
                assert(scratch@ == step1_trace(t0, j + 1).st);
                assert(ops@ == step1_trace(t0, j + 1).ops);
                assert(step1_trace(t0, j + 1).ok);
            }
            j = j + 1;
        }
        let ghost t1 = step1_trace(t0, a.n as int);
        proof {
            assert(t1.ok && scratch@ == t1.st && ops@ == t1.ops);
        }

        // Step 2-1: clear the off-diagonal of M with left CZ.
        let mut r: usize = 0;
        while r < n
            invariant
                r <= n,
                n as nat == a.n,
                a == self@,
                t0 == norm_start(a),
                t1 == step1_trace(t0, a.n as int),
                t1.ok,
                scratch.wf(),
                scratch@.n == a.n,
                scratch@ == replay(a, ops@, ops@.len() as int),
                replay_ok(a, ops@, ops@.len() as int),
                forall|p: int|
                    0 <= p < ops@.len() ==> internal_gate_valid(#[trigger] ops@[p], a.n),
                forall|p: int| 0 <= p < ops@.len() ==> emitted_gate(#[trigger] ops@[p]),
                step2a_trace(t1, r as int).ok,
                scratch@ == step2a_trace(t1, r as int).st,
                ops@ == step2a_trace(t1, r as int).ops,
            decreases n - r,
        {
            let ghost tr = step2a_trace(t1, r as int);
            let mut col = r + 1;
            while col < n
                invariant
                    r < col <= n || (r >= n && col == r + 1),
                    r < n,
                    n as nat == a.n,
                    a == self@,
                    tr.ok,
                    tr.st.n == a.n,
                    scratch.wf(),
                    scratch@.n == a.n,
                    scratch@ == replay(a, ops@, ops@.len() as int),
                    replay_ok(a, ops@, ops@.len() as int),
                    forall|p: int|
                        0 <= p < ops@.len() ==> internal_gate_valid(#[trigger] ops@[p], a.n),
                    forall|p: int| 0 <= p < ops@.len() ==> emitted_gate(#[trigger] ops@[p]),
                    cz_row_trace(tr, r as int, col as int).ok,
                    scratch@ == cz_row_trace(tr, r as int, col as int).st,
                    ops@ == cz_row_trace(tr, r as int, col as int).ops,
                decreases n - col,
            {
                proof {
                    lemma_wf_dims(scratch);
                    assert(scratch@.m[r as int] == scratch.mat_m@[r as int]@);
                }
                if scratch.mat_m[r][col] {
                    let rr = push_and_apply(
                        &mut scratch,
                        &mut ops,
                        InternalGate::CZ(r, col),
                        Ghost(a),
                    );
                    if let Err(e) = rr {
                        return Err(e);
                    }
                }
                proof {
                    assert(scratch@ == cz_row_trace(tr, r as int, col + 1).st);
                    assert(ops@ == cz_row_trace(tr, r as int, col + 1).ops);
                }
                col = col + 1;
            }
            proof {
                assert(step2a_trace(t1, r + 1) == cz_row_trace(tr, r as int, tr.st.n as int));
                assert(scratch@ == step2a_trace(t1, r + 1).st);
                assert(ops@ == step2a_trace(t1, r + 1).ops);
            }
            r = r + 1;
        }
        let ghost t2a = step2a_trace(t1, a.n as int);

        // Step 2-2: clear the diagonal of M with left S-dagger.
        let mut q: usize = 0;
        while q < n
            invariant
                q <= n,
                n as nat == a.n,
                a == self@,
                t0 == norm_start(a),
                t1 == step1_trace(t0, a.n as int),
                t1.ok,
                t2a == step2a_trace(t1, a.n as int),
                t2a.ok,
                scratch.wf(),
                scratch@.n == a.n,
                scratch@ == replay(a, ops@, ops@.len() as int),
                replay_ok(a, ops@, ops@.len() as int),
                forall|p: int|
                    0 <= p < ops@.len() ==> internal_gate_valid(#[trigger] ops@[p], a.n),
                forall|p: int| 0 <= p < ops@.len() ==> emitted_gate(#[trigger] ops@[p]),
                step2b_trace(t2a, q as int).ok,
                scratch@ == step2b_trace(t2a, q as int).st,
                ops@ == step2b_trace(t2a, q as int).ops,
            decreases n - q,
        {
            proof {
                lemma_wf_dims(scratch);
                assert(scratch@.m[q as int] == scratch.mat_m@[q as int]@);
            }
            if scratch.mat_m[q][q] {
                let rr = push_and_apply(&mut scratch, &mut ops, InternalGate::Sdg(q), Ghost(a));
                if let Err(e) = rr {
                    return Err(e);
                }
            }
            proof {
                assert(scratch@ == step2b_trace(t2a, q + 1).st);
                assert(ops@ == step2b_trace(t2a, q + 1).ops);
            }
            q = q + 1;
        }
        let ghost t2 = step2b_trace(t2a, a.n as int);

        // Step 3: clear v with left H.
        let mut i3: usize = 0;
        while i3 < n
            invariant
                i3 <= n,
                n as nat == a.n,
                a == self@,
                t0 == norm_start(a),
                t1 == step1_trace(t0, a.n as int),
                t1.ok,
                t2 == step2b_trace(step2a_trace(t1, a.n as int), a.n as int),
                t2.ok,
                scratch.wf(),
                scratch@.n == a.n,
                scratch@ == replay(a, ops@, ops@.len() as int),
                replay_ok(a, ops@, ops@.len() as int),
                forall|p: int|
                    0 <= p < ops@.len() ==> internal_gate_valid(#[trigger] ops@[p], a.n),
                forall|p: int| 0 <= p < ops@.len() ==> emitted_gate(#[trigger] ops@[p]),
                step3_trace(t2, i3 as int).ok,
                scratch@ == step3_trace(t2, i3 as int).st,
                ops@ == step3_trace(t2, i3 as int).ops,
            decreases n - i3,
        {
            proof {
                lemma_wf_dims(scratch);
            }
            if scratch.vec_v[i3] {
                let rr = push_and_apply(&mut scratch, &mut ops, InternalGate::H(i3), Ghost(a));
                if let Err(e) = rr {
                    proof {
                        assert(!h_ok(step3_trace(t2, i3 as int).st, i3 as int));
                        assert(!step3_trace(t2, i3 + 1).ok);
                        lemma_step3_freeze(t2, i3 + 1, n as int);
                        assert(!step3_trace(t2, a.n as int).ok);
                        assert(norm_trace(a) == step3_trace(t2, a.n as int));
                        assert(!norm_ok(a));
                    }
                    return Err(e);
                }
            }
            proof {
                assert(scratch@ == step3_trace(t2, i3 + 1).st);
                assert(ops@ == step3_trace(t2, i3 + 1).ops);
                assert(step3_trace(t2, i3 + 1).ok);
            }
            i3 = i3 + 1;
        }
        let ghost t3 = step3_trace(t2, a.n as int);

        // Step 4: clear s with left X.
        let mut i4: usize = 0;
        while i4 < n
            invariant
                i4 <= n,
                n as nat == a.n,
                a == self@,
                t0 == norm_start(a),
                t1 == step1_trace(t0, a.n as int),
                t1.ok,
                t3 == step3_trace(
                    step2b_trace(step2a_trace(t1, a.n as int), a.n as int),
                    a.n as int,
                ),
                t3.ok,
                scratch.wf(),
                scratch@.n == a.n,
                scratch@ == replay(a, ops@, ops@.len() as int),
                replay_ok(a, ops@, ops@.len() as int),
                forall|p: int|
                    0 <= p < ops@.len() ==> internal_gate_valid(#[trigger] ops@[p], a.n),
                forall|p: int| 0 <= p < ops@.len() ==> emitted_gate(#[trigger] ops@[p]),
                step4_trace(t3, i4 as int).ok,
                scratch@ == step4_trace(t3, i4 as int).st,
                ops@ == step4_trace(t3, i4 as int).ops,
            decreases n - i4,
        {
            proof {
                lemma_wf_dims(scratch);
            }
            if scratch.vec_s[i4] {
                let rr = push_and_apply(&mut scratch, &mut ops, InternalGate::X(i4), Ghost(a));
                if let Err(e) = rr {
                    return Err(e);
                }
            }
            proof {
                assert(scratch@ == step4_trace(t3, i4 + 1).st);
                assert(ops@ == step4_trace(t3, i4 + 1).ops);
            }
            i4 = i4 + 1;
        }
        let ghost t4 = step4_trace(t3, a.n as int);
        proof {
            assert(t4 == norm_trace(a));
            assert(t4.ok && scratch@ == t4.st && ops@ == t4.ops);
        }

        // The record must have brought the scratch state to the zero form;
        // anything else is an internal invariant breach.
        proof {
            lemma_wf_dims(scratch);
        }
        let mut chk: usize = 0;
        while chk < n
            invariant
                chk <= n,
                n as nat == a.n,
                a == self@,
                t4 == norm_trace(a),
                t4.ok,
                scratch.wf(),
                scratch@.n == a.n,
                scratch@ == t4.st,
                scratch@ == replay(a, ops@, ops@.len() as int),
                replay_ok(a, ops@, ops@.len() as int),
                scratch.vec_v@.len() == n,
                scratch.vec_s@.len() == n,
                ops@ == t4.ops,
                forall|p: int|
                    0 <= p < ops@.len() ==> internal_gate_valid(#[trigger] ops@[p], a.n),
                forall|p: int| 0 <= p < ops@.len() ==> emitted_gate(#[trigger] ops@[p]),
                forall|k: int| 0 <= k < chk ==> !scratch.vec_v@[k] && !scratch.vec_s@[k],
            decreases n - chk,
        {
            if scratch.vec_v[chk] || scratch.vec_s[chk] {
                proof {
                    assert(t4.st.v[chk as int] || t4.st.s[chk as int]);
                    assert(!norm_ok(a));
                }
                return Err(SimError::InvalidState);
            }
            chk = chk + 1;
        }
        proof {
            assert(scratch@.v =~= Seq::new(a.n, |i: int| false));
            assert(scratch@.s =~= Seq::new(a.n, |i: int| false));
            assert(norm_ok(a));
        }
        let p = scratch.phase_factor;
        Ok((ops, p))
    }

    /// The inner product `<self|other>`, as an exact scalar.  The qubit
    /// counts must agree; the only other failure is an internal invariant
    /// breach.
    pub fn inner_product(&self, other: &StabilizerCHForm) -> (res: Result<Scalar, SimError>)
        requires
            self.wf(),
            other.wf(),
        ensures
            self@.n != other@.n ==> res == Result::<Scalar, SimError>::Err(
                SimError::DimensionMismatch,
            ),
            (self@.n == other@.n && norm_ok(self@) && replay_ok(
                other@,
                norm_trace(self@).ops,
                norm_trace(self@).ops.len() as int,
            )) ==> res is Ok,
            res matches Ok(r) ==> {
                &&& self@.n == other@.n
                &&& exists|ops: Seq<InternalGate>|
                    {
                        &&& (forall|i: int|
                            0 <= i < ops.len() ==> internal_gate_valid(#[trigger] ops[i], self@.n))
                        &&& replay_ok(self@, ops, ops.len() as int)
                        &&& replay_ok(other@, ops, ops.len() as int)
                        &&& normalizes_to_zero(self@, ops)
                        &&& r == inner_product_formula(self@, other@, ops)
                    }
            },
            (self@.n == other@.n && res is Err) ==> res == Result::<Scalar, SimError>::Err(
                SimError::InvalidState,
            ),
    {
        proof {
            lemma_wf_dims(*self);
            lemma_wf_dims(*other);
        }
        if self.n != other.n {
            return Err(SimError::DimensionMismatch);
        }
        let norm = self._get_normalize_to_zero_ops();
        let (ops, p) = match norm {
            Ok(v) => v,
            Err(e) => {
                return Err(e);
            },
        };
        let transformed = other._get_ops_applied_state(&ops);
        let transformed_other = match transformed {
            Ok(st) => st,
            Err(e) => {
                return Err(e);
            },
        };
        let amp = transformed_other.amplitude_at_zero();
        let pc = p.conjugated();
        let oc = self.omega.conjugated();
        let result = amp.mul_phase(pc).mul_phase(oc);
        proof {
            let ops_s = ops@;
            crate::phase_factor::lemma_from_k_spec(
                pk_conj_k(replay(self@, ops_s, ops_s.len() as int).pf),
            );
            crate::phase_factor::lemma_from_k_spec(pk_conj_k(self@.omega));
            crate::phase_factor::lemma_phase_eq(
                pc,
                PhaseFactor::from_k_spec(pk_conj_k(replay(self@, ops_s, ops_s.len() as int).pf)),
            );
            crate::phase_factor::lemma_phase_eq(
                oc,
                PhaseFactor::from_k_spec(pk_conj_k(self@.omega)),
            );
            assert(result == inner_product_formula(self@, other@, ops_s));
        }
        Ok(result)
    }
}

/// Once the elimination of `G` has failed it stays failed, with the trace
/// frozen at the failing column.
proof fn lemma_step1_freeze(t: NormTrace, k: int, n: int)
    requires
        k <= n,
        !step1_trace(t, k).ok,
    ensures
        step1_trace(t, n) == step1_trace(t, k),
    decreases n - k,
{
    if k < n {
        lemma_step1_freeze(t, k + 1, n);
    }
}

/// Once the clearing of `v` has failed it stays failed, with the trace
/// frozen at the failing qubit.
proof fn lemma_step3_freeze(t: NormTrace, k: int, n: int)
    requires
        k <= n,
        !step3_trace(t, k).ok,
    ensures
        step3_trace(t, n) == step3_trace(t, k),
    decreases n - k,
{
    if k < n {
        lemma_step3_freeze(t, k + 1, n);
    }
}

/// Replaying depends only on the operations actually consumed.
proof fn lemma_replay_prefix_eq(c: ChState, ops1: Seq<InternalGate>, ops2: Seq<InternalGate>, k: int)
    requires
        k <= ops1.len(),
        k <= ops2.len(),
        forall|i: int| 0 <= i < k ==> ops1[i] == ops2[i],
    ensures
        replay(c, ops1, k) == replay(c, ops2, k),
        replay_ok(c, ops1, k) == replay_ok(c, ops2, k),
    decreases k,
{
    if k > 0 {
        lemma_replay_prefix_eq(c, ops1, ops2, k - 1);
    }
}

/// If a whole record replays cleanly, so does every prefix.
proof fn lemma_replay_ok_prefix(c: ChState, ops: Seq<InternalGate>, k1: int, k2: int)
    requires
        k1 <= k2,
        replay_ok(c, ops, k2),
    ensures
        replay_ok(c, ops, k1),
    decreases k2,
{
    if k1 < k2 && k2 > 0 {
        lemma_replay_ok_prefix(c, ops, k1, k2 - 1);
    }
}

} // verus!
