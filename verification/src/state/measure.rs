//! Measurement: the determinism test, projection onto a Z eigenstate, and
//! the randomized collapse.

use vstd::prelude::*;
use crate::error::SimError;
use crate::model::{
    alpha_spec, determined_value, is_determined, proj_t_spec, project_spec, resolve_ok, ChState,
};
use crate::phase_factor::PhaseFactor;
use crate::state::{clone_bits, lemma_view, lemma_wf_dims, negate_bits, parity_and2, parity_and3,
    StabilizerCHForm};

verus! {

broadcast use lemma_view;

/// Whether a qubit's Z measurement is already fixed by the state, and by
/// what value, or still genuinely random.
#[derive(Debug, Clone, Copy, PartialEq, Eq, Structural)]
pub enum QubitState {
    Determined(bool),
    Superposition,
}

impl StabilizerCHForm {
    /// Tests whether the Z measurement of qubit `qarg` is determined, and
    /// computes its value when it is.
    pub fn get_qubit_state(&self, qarg: usize) -> (res: Result<QubitState, SimError>)
        requires
            self.wf(),
        ensures
            (qarg as nat) < self@.n ==> res == (if is_determined(self@, qarg as int) {
                Result::<QubitState, SimError>::Ok(
                    QubitState::Determined(determined_value(self@, qarg as int)),
                )
            } else {
                Result::<QubitState, SimError>::Ok(QubitState::Superposition)
            }),
            (qarg as nat) >= self@.n ==> res == Result::<QubitState, SimError>::Err(
                SimError::InvalidArgument,
            ),
    {
        proof {
            lemma_wf_dims(*self);
        }
        if qarg >= self.n {
            return Err(SimError::InvalidArgument);
        }
        let ghost c = self@;
        let ghost j = qarg as int;
        let n = self.n;
        let mut determined = true;
        let mut i: usize = 0;
        while i < n
            invariant
                i <= n,
                n as nat == c.n,
                c == self@,
                self.wf(),
                j == qarg as int,
                0 <= j < c.n,
                self.mat_g@.len() == n,
                self.mat_g@[j]@ == c.g[j],
                self.mat_g@[j]@.len() == n,
                self.vec_v@ == c.v,
                self.vec_v@.len() == n,
                determined == (forall|k: int| 0 <= k < i ==> !(#[trigger] c.g[j][k] && c.v[k])),
            decreases n - i,
        {
            if self.mat_g[qarg][i] && self.vec_v[i] {
                determined = false;
            }
            i = i + 1;
        }
        if determined {
            let g_row = clone_bits(&self.mat_g[qarg]);
            let value = parity_and2(&g_row, &self.vec_s);
            proof {
                assert(Seq::new(g_row@.len(), |k: int| g_row@[k] && self.vec_s@[k]) =~= Seq::new(
                    c.n,
                    |k: int| c.g[j][k] && c.s[k],
                ));
                assert(value == determined_value(c, j));
            }
            Ok(QubitState::Determined(value))
        } else {
            Ok(QubitState::Superposition)
        }
    }

    /// Projects qubit `qarg` onto the Z eigenstate `outcome`.  Succeeds
    /// always for a qubit in superposition; for a determined qubit it
    /// succeeds, without touching the state, exactly when the fixed value
    /// agrees with the requested outcome.
    pub fn project(&mut self, qarg: usize, outcome: bool) -> (res: Result<(), SimError>)
        requires
            old(self).wf(),
        ensures
            final(self).wf(),
            (qarg as nat) >= old(self)@.n ==> res == Result::<(), SimError>::Err(
                SimError::InvalidArgument,
            ) && final(self)@ == old(self)@,
            ((qarg as nat) < old(self)@.n && is_determined(old(self)@, qarg as int))
                ==> final(self)@ == old(self)@ && res == (if determined_value(
                old(self)@,
                qarg as int,
            ) == outcome {
                Result::<(), SimError>::Ok(())
            } else {
                Result::<(), SimError>::Err(SimError::MeasurementInconsistent)
            }),
            ((qarg as nat) < old(self)@.n && !is_determined(old(self)@, qarg as int)) ==> res
                is Ok && final(self)@ == project_spec(old(self)@, qarg as int, outcome),
    {
        proof {
            lemma_wf_dims(*self);
        }
        if qarg >= self.n {
            return Err(SimError::InvalidArgument);
        }
        let ghost c = old(self)@;
        let ghost j = qarg as int;
        let state = self.get_qubit_state(qarg);
        match state {
            Ok(QubitState::Determined(value)) => {
                if value == outcome {
                    Ok(())
                } else {
                    Err(SimError::MeasurementInconsistent)
                }
            },
            Ok(QubitState::Superposition) => {
                let n = self.n;
                let g_row = clone_bits(&self.mat_g[qarg]);
                let not_v = negate_bits(&self.vec_v);
                let mut t: Vec<bool> = Vec::new();
                let mut i: usize = 0;
                while i < n
                    invariant
                        i <= n,
                        n as nat == c.n,
                        c == self@,
                        self.wf(),
                        0 <= j < c.n,
                        g_row@ == c.g[j],
                        g_row@.len() == n,
                        self.vec_v@ == c.v,
                        self.vec_v@.len() == n,
                        self.vec_s@ == c.s,
                        self.vec_s@.len() == n,
                        t@ =~= proj_t_spec(c, j).take(i as int),
                    decreases n - i,
                {
                    t.push((g_row[i] && self.vec_v[i]) != self.vec_s[i]);
                    proof {
                        assert(t@ =~= proj_t_spec(c, j).take(i + 1));
                    }
                    i = i + 1;
                }
                proof {
                    assert(proj_t_spec(c, j).take(n as int) =~= proj_t_spec(c, j));
                }
                let alpha = parity_and3(&g_row, &not_v, &self.vec_s);
                proof {
                    assert(Seq::new(
                        g_row@.len(),
                        |k: int| g_row@[k] && not_v@[k] && self.vec_s@[k],
                    ) =~= Seq::new(c.n, |k: int| c.g[j][k] && !c.v[k] && c.s[k]));
                    assert(alpha == alpha_spec(c, j));
                }
                let delta = if alpha != outcome {
                    PhaseFactor::minus_one()
                } else {
                    PhaseFactor::plus_one()
                };
                let s_copy = clone_bits(&self.vec_s);
                proof {
                    lemma_superposition_branch_differs(c, j);
                }
                let res = self._resolve_superposition(&s_copy, &t, delta);
                proof {
                    assert(resolve_ok(s_copy@, t@, delta.spec_k()));
                    assert(self@ == project_spec(c, j, outcome));
                }
                res
            },
            Err(e) => Err(e),
        }
    }

    /// Measures qubit `qarg` in the Z basis.  A determined qubit returns
    /// its fixed value and the state is untouched; a qubit in superposition
    /// collapses by one uniformly random draw, the only source of
    /// randomness in the library.
    pub fn measure(&mut self, qarg: usize) -> (res: Result<bool, SimError>)
        requires
            old(self).wf(),
        ensures
            final(self).wf(),
            (qarg as nat) >= old(self)@.n ==> res == Result::<bool, SimError>::Err(
                SimError::InvalidArgument,
            ) && final(self)@ == old(self)@,
            ((qarg as nat) < old(self)@.n && is_determined(old(self)@, qarg as int)) ==> res
                == Result::<bool, SimError>::Ok(determined_value(old(self)@, qarg as int))
                && final(self)@ == old(self)@,
            ((qarg as nat) < old(self)@.n && !is_determined(old(self)@, qarg as int)) ==> (
            res matches Ok(b) && final(self)@ == project_spec(old(self)@, qarg as int, b)),
    {
        proof {
            lemma_wf_dims(*self);
        }
        if qarg >= self.n {
            return Err(SimError::InvalidArgument);
        }
        let state = self.get_qubit_state(qarg);
        match state {
            Ok(QubitState::Determined(value)) => Ok(value),
            Ok(QubitState::Superposition) => {
                let outcome = random_bool();
                match self.project(qarg, outcome) {
                    Ok(()) => Ok(outcome),
                    Err(e) => Err(e),
                }
            },
            Err(e) => Err(e),
        }
    }
}

/// A qubit in superposition has a set `v` flag under its `G` row, so the
/// shifted branch differs from `s`.
proof fn lemma_superposition_branch_differs(c: ChState, j: int)
    requires
        c.v.len() == c.n,
        c.s.len() == c.n,
        0 <= j < c.n,
        !is_determined(c, j),
    ensures
        proj_t_spec(c, j) != c.s,
{
    let i = choose|i: int| 0 <= i < c.n && #[trigger] c.g[j][i] && c.v[i];
    assert(c.g[j][i] && c.v[i]);
    assert(proj_t_spec(c, j)[i] == !c.s[i]);
}

/// Relies on rand::random::<bool>: draws one uniformly random boolean from
/// the thread-local generator.
#[verifier::external_body]
fn random_bool() -> bool {
    rand::random::<bool>()
}

} // verus!
