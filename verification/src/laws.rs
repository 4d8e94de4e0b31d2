//! Laws of the library, proved once and for all over the state model.

use vstd::prelude::*;
use crate::model::{
    initial_state, is_permutation, left_s_spec, left_sdg_spec, permuted_spec, wf_state, ChState,
};
use crate::state::inner::{
    clear_col_trace, cz_row_trace, norm_ok, norm_start, norm_trace, pivot_trace, step1_trace,
    step2a_trace, step2b_trace, step3_trace, step4_trace,
};

verus! {

/// The normalization success condition is satisfiable: a fresh one-qubit
/// state normalizes, so the success owed by the inner product is not owed
/// vacuously.
pub proof fn lemma_fresh_state_normalizes()
    ensures
        norm_ok(initial_state(1)),
{
    let c = initial_state(1);
    let t0 = norm_start(c);
    assert(c.g[0][0]);
    assert(pivot_trace(t0, 0) == t0);
    assert(clear_col_trace(t0, 0, 0) == t0);
    assert(clear_col_trace(t0, 0, 1) == t0);
    assert(step1_trace(t0, 0) == t0);
    assert(step1_trace(t0, 1) == t0);
    assert(cz_row_trace(t0, 0, 1) == t0);
    assert(step2a_trace(t0, 0) == t0);
    assert(step2a_trace(t0, 1) == t0);
    assert(!c.m[0][0]);
    assert(step2b_trace(t0, 0) == t0);
    assert(step2b_trace(t0, 1) == t0);
    assert(!c.v[0]);
    assert(step3_trace(t0, 0) == t0);
    assert(step3_trace(t0, 1) == t0);
    assert(!c.s[0]);
    assert(step4_trace(t0, 0) == t0);
    assert(step4_trace(t0, 1) == t0);
    assert(norm_trace(c) == t0);
    assert(c.v =~= Seq::new(1, |i: int| false));
    assert(c.s =~= Seq::new(1, |i: int| false));
}

/// Applying S and then S-dagger to any qubit of a well-formed state
/// reproduces the state exactly, so the statevector is reproduced too.
pub proof fn lemma_s_sdg_round_trip(c: ChState, j: int)
    requires
        wf_state(c),
        0 <= j < c.n,
    ensures
        left_sdg_spec(left_s_spec(c, j), j) == c,
{
    let c1 = left_s_spec(c, j);
    let c2 = left_sdg_spec(c1, j);
    assert(c1.m[j] =~= crate::model::row_xor(c.m[j], c.g[j]));
    assert(c2.m[j] =~= c.m[j]);
    assert(c2.m =~~= c.m);
    assert(c2.gamma =~= c.gamma);
    assert(c2 == c);
}

/// Applying S-dagger and then S to any qubit of a well-formed state
/// reproduces the state exactly.
pub proof fn lemma_sdg_s_round_trip(c: ChState, j: int)
    requires
        wf_state(c),
        0 <= j < c.n,
    ensures
        left_s_spec(left_sdg_spec(c, j), j) == c,
{
    let c1 = left_sdg_spec(c, j);
    let c2 = left_s_spec(c1, j);
    assert(c1.m[j] =~= crate::model::row_xor(c.m[j], c.g[j]));
    assert(c2.m[j] =~= c.m[j]);
    assert(c2.m =~~= c.m);
    assert(c2.gamma =~= c.gamma);
    assert(c2 == c);
}

/// Permuting the qubits by any permutation and then by its inverse
/// reproduces the state exactly, so the statevector is reproduced too.
pub proof fn lemma_permute_involution(c: ChState, axes: Seq<int>, inv: Seq<int>)
    requires
        wf_state(c),
        is_permutation(axes, c.n),
        is_permutation(inv, c.n),
        forall|i: int| 0 <= i < c.n ==> #[trigger] inv[axes[i]] == i,
    ensures
        permuted_spec(permuted_spec(c, axes), inv) == c,
{
    let c1 = permuted_spec(c, axes);
    let c2 = permuted_spec(c1, inv);
    assert forall|i: int| 0 <= i < c.n implies #[trigger] axes[inv[i]] == i by {
        let j = inv[i];
        assert(0 <= j < c.n);
        if axes[j] != i {
            let k = axes[j];
            assert(inv[axes[j]] == j);
            assert(0 <= k < c.n);
            assert(inv[k] == j);
            // Two distinct preimages of j under inv would contradict
            // injectivity, so axes[j] must be i.
            if k != i {
                assert(inv[k] == inv[i]);
                if k < i {
                    assert(inv[k] != inv[i]);
                } else {
                    assert(inv[i] != inv[k]);
                }
            }
        }
    }
    assert forall|i: int| 0 <= i < c.n implies #[trigger] c2.g[i] =~= c.g[i] by {
        assert(c2.g[i] == Seq::new(c.n, |j: int| c1.g[inv[i]][inv[j]]));
        assert forall|j: int| 0 <= j < c.n implies #[trigger] c2.g[i][j] == c.g[i][j] by {
            assert(c1.g[inv[i]] == Seq::new(c.n, |q: int| c.g[axes[inv[i]]][axes[q]]));
        }
    }
    assert forall|i: int| 0 <= i < c.n implies #[trigger] c2.f[i] =~= c.f[i] by {
        assert(c2.f[i] == Seq::new(c.n, |j: int| c1.f[inv[i]][inv[j]]));
        assert forall|j: int| 0 <= j < c.n implies #[trigger] c2.f[i][j] == c.f[i][j] by {
            assert(c1.f[inv[i]] == Seq::new(c.n, |q: int| c.f[axes[inv[i]]][axes[q]]));
        }
    }
    assert forall|i: int| 0 <= i < c.n implies #[trigger] c2.m[i] =~= c.m[i] by {
        assert(c2.m[i] == Seq::new(c.n, |j: int| c1.m[inv[i]][inv[j]]));
        assert forall|j: int| 0 <= j < c.n implies #[trigger] c2.m[i][j] == c.m[i][j] by {
            assert(c1.m[inv[i]] == Seq::new(c.n, |q: int| c.m[axes[inv[i]]][axes[q]]));
        }
    }
    assert(c2.g =~~= c.g);
    assert(c2.f =~~= c.f);
    assert(c2.m =~~= c.m);
    assert(c2.gamma =~= c.gamma);
    assert(c2.v =~= c.v);
    assert(c2.s =~= c.s);
    assert(c2 == c);
}

} // verus!
