//! The CH-form state: data layout, construction and small accessors.

use vstd::prelude::*;
use crate::model::{
    ChState, dot_parity, initial_state, odd, row_xor, wf_state,
};
use crate::phase_factor::PhaseFactor;

pub mod gates;
pub mod right_mul;
pub mod resolve;
pub mod measure;
pub mod amplitude;
pub mod structure;
pub mod inner;
pub mod discard;

verus! {

/// A stabilizer state on `n` qubits in the CH form.
///
/// `mat_g`, `mat_f`, `mat_m` are `n` by `n` boolean matrices; `gamma` holds
/// one canonical phase per generator; `vec_v` flags the qubits carrying a
/// Hadamard layer; `vec_s` is the basis string the layers act on; `omega` is
/// a caller-chosen global phase and `phase_factor` the discrete phase the
/// update rules collect.
pub struct StabilizerCHForm {
    pub(crate) n: usize,
    pub(crate) mat_g: Vec<Vec<bool>>,
    pub(crate) mat_f: Vec<Vec<bool>>,
    pub(crate) mat_m: Vec<Vec<bool>>,
    pub(crate) gamma: Vec<PhaseFactor>,
    pub(crate) vec_v: Vec<bool>,
    pub(crate) vec_s: Vec<bool>,
    pub(crate) omega: PhaseFactor,
    pub(crate) phase_factor: PhaseFactor,
}

impl View for StabilizerCHForm {
    type V = ChState;

    closed spec fn view(&self) -> ChState {
        ChState {
            n: self.n as nat,
            g: mat_sv(self.mat_g@),
            f: mat_sv(self.mat_f@),
            m: mat_sv(self.mat_m@),
            gamma: phases_sv(self.gamma@),
            v: self.vec_v@,
            s: self.vec_s@,
            omega: self.omega.spec_k(),
            pf: self.phase_factor.spec_k(),
        }
    }
}

impl Clone for StabilizerCHForm {
    /// A deep copy; algorithms clone the state for scratch work.
    fn clone(&self) -> (r: Self)
        ensures
            r@ == self@,
    {
        let r = StabilizerCHForm {
            n: self.n,
            mat_g: clone_matrix(&self.mat_g),
            mat_f: clone_matrix(&self.mat_f),
            mat_m: clone_matrix(&self.mat_m),
            gamma: clone_phases(&self.gamma),
            vec_v: clone_bits(&self.vec_v),
            vec_s: clone_bits(&self.vec_s),
            omega: self.omega,
            phase_factor: self.phase_factor,
        };
        proof {
            assert(r@.g =~~= self@.g);
            assert(r@.f =~~= self@.f);
            assert(r@.m =~~= self@.m);
            assert(r@.gamma =~= self@.gamma);
            assert(r@ == self@);
        }
        r
    }
}

impl StabilizerCHForm {
    /// Every component has the dimension `n` and every phase is canonical.
    pub open spec fn wf(self) -> bool {
        wf_state(self@)
    }

    /// Builds the `n`-qubit state `|0...0>`.
    pub fn new(n: usize) -> (r: Self)
        requires
            1 <= n,
        ensures
            r.wf(),
            r@ == initial_state(n as nat),
    {
        let mut mat_g: Vec<Vec<bool>> = Vec::new();
        let mut mat_f: Vec<Vec<bool>> = Vec::new();
        let mut mat_m: Vec<Vec<bool>> = Vec::new();
        let mut gamma: Vec<PhaseFactor> = Vec::new();
        let mut i: usize = 0;
        while i < n
            invariant
                i <= n,
                mat_g@.len() == i,
                mat_f@.len() == i,
                mat_m@.len() == i,
                gamma@.len() == i,
                mat_sv(mat_g@) =~~= identity_prefix(n as nat, i as nat),
                mat_sv(mat_f@) =~~= identity_prefix(n as nat, i as nat),
                mat_sv(mat_m@) =~~= zero_prefix(n as nat, i as nat),
                forall|k: int| 0 <= k < i ==> (#[trigger] gamma@[k]).spec_k() == 0,
            decreases n - i,
        {
            let row_g = unit_row(n, i);
            let row_f = unit_row(n, i);
            let row_m = zero_row(n);
            mat_g.push(row_g);
            mat_f.push(row_f);
            mat_m.push(row_m);
            gamma.push(PhaseFactor::plus_one());
            proof {
                let prev = i as int;
                assert(mat_g@[prev]@ == row_g@);
                assert(mat_f@[prev]@ == row_f@);
                assert(mat_m@[prev]@ == row_m@);
                assert(mat_sv(mat_g@)[prev] =~= identity_prefix(n as nat, (i + 1) as nat)[prev]);
                assert(mat_sv(mat_f@)[prev] =~= identity_prefix(n as nat, (i + 1) as nat)[prev]);
                assert(mat_sv(mat_m@)[prev] =~= zero_prefix(n as nat, (i + 1) as nat)[prev]);
                assert forall|p: int| 0 <= p < prev implies mat_sv(mat_g@)[p] =~= identity_prefix(
                    n as nat,
                    (i + 1) as nat,
                )[p] by {
                    assert(mat_sv(mat_g@)[p] == mat_g@[p]@);
                    assert(identity_prefix(n as nat, i as nat)[p] == Seq::new(
                        n as nat,
                        |q: int| p == q,
                    ));
                }
                assert forall|p: int| 0 <= p < prev implies mat_sv(mat_f@)[p] =~= identity_prefix(
                    n as nat,
                    (i + 1) as nat,
                )[p] by {
                    assert(mat_sv(mat_f@)[p] == mat_f@[p]@);
                    assert(identity_prefix(n as nat, i as nat)[p] == Seq::new(
                        n as nat,
                        |q: int| p == q,
                    ));
                }
                assert forall|p: int| 0 <= p < prev implies mat_sv(mat_m@)[p] =~= zero_prefix(
                    n as nat,
                    (i + 1) as nat,
                )[p] by {
                    assert(mat_sv(mat_m@)[p] == mat_m@[p]@);
                    assert(zero_prefix(n as nat, i as nat)[p] == Seq::new(
                        n as nat,
                        |q: int| false,
                    ));
                }
                assert(mat_sv(mat_g@) =~~= identity_prefix(n as nat, (i + 1) as nat));
                assert(mat_sv(mat_f@) =~~= identity_prefix(n as nat, (i + 1) as nat));
                assert(mat_sv(mat_m@) =~~= zero_prefix(n as nat, (i + 1) as nat));
            }
            i = i + 1;
        }
        let vec_v = zero_row(n);
        let vec_s = zero_row(n);
        let r = StabilizerCHForm {
            n,
            mat_g,
            mat_f,
            mat_m,
            gamma,
            vec_v,
            vec_s,
            omega: PhaseFactor::plus_one(),
            phase_factor: PhaseFactor::plus_one(),
        };
        proof {
            assert(r@.g =~~= initial_state(n as nat).g);
            assert(r@.f =~~= initial_state(n as nat).f);
            assert(r@.m =~~= initial_state(n as nat).m);
            assert(r@.gamma =~= initial_state(n as nat).gamma);
            assert(r@.v =~= initial_state(n as nat).v);
            assert(r@.s =~= initial_state(n as nat).s);
            assert(r@ == initial_state(n as nat));
        }
        r
    }

    /// The number of qubits.
    pub fn n_qubits(&self) -> (r: usize)
        ensures
            r as nat == self@.n,
    {
        self.n
    }

    /// Replaces the free global phase `omega`.  Phases are discrete, so any
    /// argument is a unit complex number and no input is rejected.
    pub fn set_global_phase(&mut self, phase: PhaseFactor)
        requires
            phase.inv(),
        ensures
            final(self)@ == (ChState { omega: phase.spec_k(), ..old(self)@ }),
            old(self).wf() ==> final(self).wf(),
    {
        self.omega = phase;
    }

    /// A copy of the generator matrix `G`.
    pub fn matrix_g(&self) -> (r: Vec<Vec<bool>>)
        ensures
            mat_sv(r@) == self@.g,
    {
        let r = clone_matrix(&self.mat_g);
        proof {
            assert(mat_sv(r@) =~~= self@.g);
        }
        r
    }

    /// A copy of the generator matrix `F`.
    pub fn matrix_f(&self) -> (r: Vec<Vec<bool>>)
        ensures
            mat_sv(r@) == self@.f,
    {
        let r = clone_matrix(&self.mat_f);
        proof {
            assert(mat_sv(r@) =~~= self@.f);
        }
        r
    }

    /// A copy of the phase matrix `M`.
    pub fn matrix_m(&self) -> (r: Vec<Vec<bool>>)
        ensures
            mat_sv(r@) == self@.m,
    {
        let r = clone_matrix(&self.mat_m);
        proof {
            assert(mat_sv(r@) =~~= self@.m);
        }
        r
    }

    /// The `gamma` phases as their exponents.
    pub fn gamma_exponents(&self) -> (r: Vec<u8>)
        ensures
            r@.len() == self@.gamma.len(),
            forall|i: int| 0 <= i < r@.len() ==> #[trigger] r@[i] as int == self@.gamma[i],
    {
        let m = self.gamma.len();
        let mut r: Vec<u8> = Vec::new();
        let mut i: usize = 0;
        while i < m
            invariant
                i <= m,
                m == self.gamma@.len(),
                r@.len() == i,
                forall|k: int|
                    0 <= k < i ==> #[trigger] r@[k] as int == self.gamma@[k].spec_k(),
            decreases m - i,
        {
            r.push(self.gamma[i].to_int());
            i = i + 1;
        }
        proof {
            assert(forall|k: int|
                0 <= k < m ==> #[trigger] self@.gamma[k] == self.gamma@[k].spec_k());
        }
        r
    }

    /// A copy of the Hadamard-layer flags `v`.
    pub fn vector_v(&self) -> (r: Vec<bool>)
        ensures
            r@ == self@.v,
    {
        let r = clone_bits(&self.vec_v);
        proof {
            assert(r@ =~= self@.v);
        }
        r
    }

    /// A copy of the basis string `s`.
    pub fn vector_s(&self) -> (r: Vec<bool>)
        ensures
            r@ == self@.s,
    {
        let r = clone_bits(&self.vec_s);
        proof {
            assert(r@ =~= self@.s);
        }
        r
    }

    /// The discrete phase collected by the update rules.
    pub fn tracked_phase(&self) -> (r: PhaseFactor)
        ensures
            r.spec_k() == self@.pf,
    {
        self.phase_factor
    }

    /// The free global phase `omega`.
    pub fn global_phase(&self) -> (r: PhaseFactor)
        ensures
            r.spec_k() == self@.omega,
    {
        self.omega
    }
}

/// A row of `n` entries, all `false`.
pub(crate) fn zero_row(n: usize) -> (r: Vec<bool>)
    ensures
        r@ =~= Seq::new(n as nat, |i: int| false),
{
    let mut r: Vec<bool> = Vec::new();
    for i in 0..n
        invariant
            r@ =~= Seq::new(i as nat, |k: int| false),
    {
        r.push(false);
        proof {
            assert(r@ =~= Seq::new((i + 1) as nat, |k: int| false));
        }
    }
    r
}

/// A row of `n` entries, `true` exactly at `j`.
pub(crate) fn unit_row(n: usize, j: usize) -> (r: Vec<bool>)
    ensures
        r@ =~= Seq::new(n as nat, |i: int| i == j as int),
{
    let mut r: Vec<bool> = Vec::new();
    for i in 0..n
        invariant
            r@ =~= Seq::new(i as nat, |k: int| k == j as int),
    {
        r.push(i == j);
        proof {
            assert(r@ =~= Seq::new((i + 1) as nat, |k: int| k == j as int));
        }
    }
    r
}

/// A sequence of vectors of booleans, seen as a sequence of sequences.
pub open spec fn mat_sv(mat: Seq<Vec<bool>>) -> Seq<Seq<bool>> {
    Seq::new(mat.len(), |i: int| mat[i]@)
}

/// A sequence of phases, seen as their exponents.
pub open spec fn phases_sv(ps: Seq<PhaseFactor>) -> Seq<int> {
    Seq::new(ps.len(), |i: int| ps[i].spec_k())
}

/// The first `i` rows of the `n` by `n` identity matrix.
pub(crate) open spec fn identity_prefix(n: nat, i: nat) -> Seq<Seq<bool>> {
    Seq::new(i, |p: int| Seq::new(n, |q: int| p == q))
}

/// The first `i` rows of the `n` by `n` zero matrix.
pub(crate) open spec fn zero_prefix(n: nat, i: nat) -> Seq<Seq<bool>> {
    Seq::new(i, |p: int| Seq::new(n, |q: int| false))
}

/// The entrywise exclusive or of two rows of equal length.
pub(crate) fn xor_rows(a: &Vec<bool>, b: &Vec<bool>) -> (r: Vec<bool>)
    requires
        a@.len() == b@.len(),
    ensures
        r@ =~= row_xor(a@, b@),
{
    let n = a.len();
    let mut r: Vec<bool> = Vec::new();
    for i in 0..n
        invariant
            a@.len() == n,
            b@.len() == n,
            r@ =~= row_xor(a@, b@).take(i as int),
    {
        r.push(a[i] != b[i]);
        proof {
            assert(r@ =~= row_xor(a@, b@).take(i + 1));
        }
    }
    proof {
        assert(row_xor(a@, b@).take(n as int) =~= row_xor(a@, b@));
    }
    r
}

/// A copy of a boolean matrix.
pub(crate) fn clone_matrix(mat: &Vec<Vec<bool>>) -> (r: Vec<Vec<bool>>)
    ensures
        mat_sv(r@) =~~= mat_sv(mat@),
{
    let mut r: Vec<Vec<bool>> = Vec::new();
    let n = mat.len();
    for i in 0..n
        invariant
            n == mat@.len(),
            r@.len() == i,
            forall|p: int| 0 <= p < i ==> #[trigger] r@[p]@ =~= mat@[p]@,
    {
        let row = clone_bits(&mat[i]);
        r.push(row);
        proof {
            assert(r@[i as int]@ =~= mat@[i as int]@);
        }
    }
    proof {
        assert forall|p: int| 0 <= p < n implies mat_sv(r@)[p] =~= mat_sv(mat@)[p] by {
            assert(r@[p]@ =~= mat@[p]@);
        }
        assert(mat_sv(r@) =~~= mat_sv(mat@));
    }
    r
}

/// How the model of a state is built from its fields; stated once so that
/// the operation modules can reason through the otherwise opaque view.
pub(crate) broadcast proof fn lemma_view(st: StabilizerCHForm)
    ensures
        (#[trigger] st@).n == st.n as nat,
        st@.g == mat_sv(st.mat_g@),
        st@.f == mat_sv(st.mat_f@),
        st@.m == mat_sv(st.mat_m@),
        st@.gamma == phases_sv(st.gamma@),
        st@.v == st.vec_v@,
        st@.s == st.vec_s@,
        st@.omega == st.omega.spec_k(),
        st@.pf == st.phase_factor.spec_k(),
{
    assert(st@.gamma =~= phases_sv(st.gamma@));
}

/// The concrete dimension and range facts a well-formed state gives about
/// its fields.
pub(crate) proof fn lemma_wf_dims(st: StabilizerCHForm)
    requires
        st.wf(),
    ensures
        st.mat_g@.len() == st.n,
        st.mat_f@.len() == st.n,
        st.mat_m@.len() == st.n,
        st.gamma@.len() == st.n,
        st.vec_v@.len() == st.n,
        st.vec_s@.len() == st.n,
        forall|i: int| 0 <= i < st.n ==> (#[trigger] st.mat_g@[i])@.len() == st.n,
        forall|i: int| 0 <= i < st.n ==> (#[trigger] st.mat_f@[i])@.len() == st.n,
        forall|i: int| 0 <= i < st.n ==> (#[trigger] st.mat_m@[i])@.len() == st.n,
        forall|i: int|
            0 <= i < st.n ==> (#[trigger] st.gamma@[i]).inv() && st.gamma@[i].is_fourth_root(),
        st.omega.inv(),
        st.phase_factor.inv(),
{
    lemma_view(st);
    assert forall|i: int| 0 <= i < st.n implies (#[trigger] st.mat_g@[i])@.len() == st.n by {
        assert(st@.g[i] == st.mat_g@[i]@);
        assert(st@.g[i].len() == st@.n);
    }
    assert forall|i: int| 0 <= i < st.n implies (#[trigger] st.mat_f@[i])@.len() == st.n by {
        assert(st@.f[i] == st.mat_f@[i]@);
        assert(st@.f[i].len() == st@.n);
    }
    assert forall|i: int| 0 <= i < st.n implies (#[trigger] st.mat_m@[i])@.len() == st.n by {
        assert(st@.m[i] == st.mat_m@[i]@);
        assert(st@.m[i].len() == st@.n);
    }
    assert forall|i: int|
        0 <= i < st.n implies (#[trigger] st.gamma@[i]).inv()
        && st.gamma@[i].is_fourth_root() by {
        assert(st@.gamma[i] == st.gamma@[i].spec_k());
        assert(0 <= st@.gamma[i] < 8 && st@.gamma[i] % 2 == 0);
    }
}

/// The entrywise negation of a boolean vector.
pub(crate) fn negate_bits(v: &Vec<bool>) -> (r: Vec<bool>)
    ensures
        r@ =~= Seq::new(v@.len(), |i: int| !v@[i]),
{
    let n = v.len();
    let mut r: Vec<bool> = Vec::new();
    for i in 0..n
        invariant
            n == v@.len(),
            r@ =~= Seq::new(i as nat, |k: int| !v@[k]),
    {
        r.push(!v[i]);
        proof {
            assert(r@ =~= Seq::new((i + 1) as nat, |k: int| !v@[k]));
        }
    }
    r
}

/// Parity of the entrywise conjunction of three vectors of equal length.
pub(crate) fn parity_and3(a: &Vec<bool>, b: &Vec<bool>, c: &Vec<bool>) -> (r: bool)
    requires
        a@.len() == b@.len(),
        a@.len() == c@.len(),
    ensures
        r == odd(Seq::new(a@.len(), |i: int| a@[i] && b@[i] && c@[i])),
{
    let ghost full = Seq::new(a@.len(), |i: int| a@[i] && b@[i] && c@[i]);
    let n = a.len();
    let mut r = false;
    for i in 0..n
        invariant
            n == a@.len(),
            n == b@.len(),
            n == c@.len(),
            full == Seq::new(a@.len(), |k: int| a@[k] && b@[k] && c@[k]),
            r == odd(full.take(i as int)),
    {
        r = r != (a[i] && b[i] && c[i]);
        proof {
            assert(full.take(i + 1).drop_last() =~= full.take(i as int));
            assert(full.take(i + 1).last() == (a@[i as int] && b@[i as int] && c@[i as int]));
        }
    }
    proof {
        assert(full.take(n as int) =~= full);
    }
    r
}

/// Parity of the entrywise conjunction of two vectors of equal length.
pub(crate) fn parity_and2(a: &Vec<bool>, b: &Vec<bool>) -> (r: bool)
    requires
        a@.len() == b@.len(),
    ensures
        r == dot_parity(a@, b@),
{
    let ghost full = Seq::new(a@.len(), |i: int| a@[i] && b@[i]);
    let n = a.len();
    let mut r = false;
    for i in 0..n
        invariant
            n == a@.len(),
            n == b@.len(),
            full == Seq::new(a@.len(), |k: int| a@[k] && b@[k]),
            r == odd(full.take(i as int)),
    {
        r = r != (a[i] && b[i]);
        proof {
            assert(full.take(i + 1).drop_last() =~= full.take(i as int));
            assert(full.take(i + 1).last() == (a@[i as int] && b@[i as int]));
        }
    }
    proof {
        assert(full.take(n as int) =~= full);
    }
    r
}

/// A copy of a boolean vector.
pub(crate) fn clone_bits(v: &Vec<bool>) -> (r: Vec<bool>)
    ensures
        r@ =~= v@,
{
    let mut r: Vec<bool> = Vec::new();
    let n = v.len();
    for i in 0..n
        invariant
            n == v@.len(),
            r@ =~= v@.take(i as int),
    {
        r.push(v[i]);
        proof {
            assert(r@ =~= v@.take(i + 1));
        }
    }
    proof {
        assert(v@.take(n as int) =~= v@);
    }
    r
}

/// A copy of a phase vector.
pub(crate) fn clone_phases(v: &Vec<PhaseFactor>) -> (r: Vec<PhaseFactor>)
    ensures
        r@ =~= v@,
{
    let mut r: Vec<PhaseFactor> = Vec::new();
    let n = v.len();
    for i in 0..n
        invariant
            n == v@.len(),
            r@ =~= v@.take(i as int),
    {
        r.push(v[i]);
        proof {
            assert(r@ =~= v@.take(i + 1));
        }
    }
    proof {
        assert(v@.take(n as int) =~= v@);
    }
    r
}

} // verus!
