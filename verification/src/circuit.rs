//! Gate programs: ordered lists of gates over a fixed qubit count, and
//! their simulation into a CH-form state.

use vstd::prelude::*;
use crate::error::SimError;
use crate::model::{
    h_ok, initial_state, left_cx_spec, left_cz_spec, left_h_spec, left_s_spec, left_sdg_spec,
    left_sqrt_x_spec, left_sqrt_xdg_spec, left_x_spec, left_y_spec, left_z_spec, permuted_spec,
    sqrt_x_ok, sqrt_xdg_ok, transposition, ChState,
};
use crate::state::StabilizerCHForm;

verus! {

/// A gate of the reduced set used by [`QuantumCircuit`].
#[derive(Debug, Clone, Copy, PartialEq, Eq, Structural)]
pub enum QuantumGate {
    H(usize),
    S(usize),
    X(usize),
    Z(usize),
    CX(usize, usize),
    CZ(usize, usize),
}

/// A gate of the full Clifford set used by [`CliffordCircuit`].
#[derive(Debug, Clone, Copy, PartialEq, Eq, Structural)]
pub enum CliffordGate {
    H(usize),
    X(usize),
    Y(usize),
    Z(usize),
    S(usize),
    Sdg(usize),
    SqrtX(usize),
    SqrtXdg(usize),
    CX(usize, usize),
    CZ(usize, usize),
    Swap(usize, usize),
}

/// Every index is below `n`, and two-qubit gates use distinct qubits.
pub open spec fn quantum_gate_valid(g: QuantumGate, n: nat) -> bool {
    match g {
        QuantumGate::H(q) => (q as nat) < n,
        QuantumGate::S(q) => (q as nat) < n,
        QuantumGate::X(q) => (q as nat) < n,
        QuantumGate::Z(q) => (q as nat) < n,
        QuantumGate::CX(q1, q2) => (q1 as nat) < n && (q2 as nat) < n && q1 != q2,
        QuantumGate::CZ(q1, q2) => (q1 as nat) < n && (q2 as nat) < n && q1 != q2,
    }
}

/// Every index is below `n`, and two-qubit gates use distinct qubits.
pub open spec fn clifford_gate_valid(g: CliffordGate, n: nat) -> bool {
    match g {
        CliffordGate::H(q) => (q as nat) < n,
        CliffordGate::X(q) => (q as nat) < n,
        CliffordGate::Y(q) => (q as nat) < n,
        CliffordGate::Z(q) => (q as nat) < n,
        CliffordGate::S(q) => (q as nat) < n,
        CliffordGate::Sdg(q) => (q as nat) < n,
        CliffordGate::SqrtX(q) => (q as nat) < n,
        CliffordGate::SqrtXdg(q) => (q as nat) < n,
        CliffordGate::CX(q1, q2) => (q1 as nat) < n && (q2 as nat) < n && q1 != q2,
        CliffordGate::CZ(q1, q2) => (q1 as nat) < n && (q2 as nat) < n && q1 != q2,
        CliffordGate::Swap(q1, q2) => (q1 as nat) < n && (q2 as nat) < n && q1 != q2,
    }
}

/// The state transformation of one gate of the reduced set.
pub open spec fn quantum_gate_apply(c: ChState, g: QuantumGate) -> ChState {
    match g {
        QuantumGate::H(q) => left_h_spec(c, q as int),
        QuantumGate::S(q) => left_s_spec(c, q as int),
        QuantumGate::X(q) => left_x_spec(c, q as int),
        QuantumGate::Z(q) => left_z_spec(c, q as int),
        QuantumGate::CX(q1, q2) => left_cx_spec(c, q1 as int, q2 as int),
        QuantumGate::CZ(q1, q2) => left_cz_spec(c, q1 as int, q2 as int),
    }
}

/// Whether one gate of the reduced set resolves without an invariant
/// breach; only H can fail.
pub open spec fn quantum_gate_ok(c: ChState, g: QuantumGate) -> bool {
    match g {
        QuantumGate::H(q) => h_ok(c, q as int),
        _ => true,
    }
}

/// The state after the first `k` gates of a program.
pub open spec fn run_quantum(c: ChState, gs: Seq<QuantumGate>, k: int) -> ChState
    decreases k,
{
    if k <= 0 {
        c
    } else {
        quantum_gate_apply(run_quantum(c, gs, k - 1), gs[k - 1])
    }
}

/// Whether the first `k` gates are all valid and all resolve.
pub open spec fn run_quantum_ok(c: ChState, gs: Seq<QuantumGate>, k: int) -> bool
    decreases k,
{
    k <= 0 || (run_quantum_ok(c, gs, k - 1) && quantum_gate_valid(gs[k - 1], c.n)
        && quantum_gate_ok(run_quantum(c, gs, k - 1), gs[k - 1]))
}

/// A gate program over the reduced gate set.
#[derive(Debug, Clone)]
pub struct QuantumCircuit {
    pub n_qubits: usize,
    pub gates: Vec<QuantumGate>,
}

impl QuantumCircuit {
    /// An empty program on `n_qubits` qubits.
    pub fn new(n_qubits: usize) -> (r: Self)
        ensures
            r.n_qubits == n_qubits,
            r.gates@ == Seq::<QuantumGate>::empty(),
    {
        let r = QuantumCircuit { n_qubits, gates: Vec::new() };
        proof {
            assert(r.gates@ =~= Seq::<QuantumGate>::empty());
        }
        r
    }

    /// Appends one gate; a gate naming a missing qubit, or a two-qubit
    /// gate on one qubit, is refused and nothing changes.
    pub fn add_gate(&mut self, gate: QuantumGate) -> (res: Result<(), SimError>)
        ensures
            final(self).n_qubits == old(self).n_qubits,
            quantum_gate_valid(gate, old(self).n_qubits as nat) ==> res is Ok && final(self).gates@ == old(self).gates@.push(gate),
            !quantum_gate_valid(gate, old(self).n_qubits as nat) ==> res
                == Result::<(), SimError>::Err(SimError::InvalidArgument) && final(self).gates@
                == old(self).gates@,
    {
        let ok = match gate {
            QuantumGate::H(q) => q < self.n_qubits,
            QuantumGate::S(q) => q < self.n_qubits,
            QuantumGate::X(q) => q < self.n_qubits,
            QuantumGate::Z(q) => q < self.n_qubits,
            QuantumGate::CX(q1, q2) => q1 < self.n_qubits && q2 < self.n_qubits && q1 != q2,
            QuantumGate::CZ(q1, q2) => q1 < self.n_qubits && q2 < self.n_qubits && q1 != q2,
        };
        if !ok {
            return Err(SimError::InvalidArgument);
        }
        self.gates.push(gate);
        Ok(())
    }

    /// Appends a whole list of gates; if any gate is invalid, nothing
    /// changes.
    pub fn add_multiple_gates(&mut self, gates: Vec<QuantumGate>) -> (res: Result<(), SimError>)
        ensures
            final(self).n_qubits == old(self).n_qubits,
            (forall|i: int|
                0 <= i < gates@.len() ==> quantum_gate_valid(
                    #[trigger] gates@[i],
                    old(self).n_qubits as nat,
                )) ==> res is Ok && final(self).gates@ == old(self).gates@ + gates@,
            !(forall|i: int|
                0 <= i < gates@.len() ==> quantum_gate_valid(
                    #[trigger] gates@[i],
                    old(self).n_qubits as nat,
                )) ==> res == Result::<(), SimError>::Err(SimError::InvalidArgument) && final(self).gates@ == old(self).gates@,
    {
        let n = self.n_qubits;
        let m = gates.len();
        let mut i: usize = 0;
        while i < m
            invariant
                i <= m,
                m == gates@.len(),
                n == self.n_qubits,
                forall|k: int|
                    0 <= k < i ==> quantum_gate_valid(#[trigger] gates@[k], n as nat),
            decreases m - i,
        {
            let ok = match gates[i] {
                QuantumGate::H(q) => q < n,
                QuantumGate::S(q) => q < n,
                QuantumGate::X(q) => q < n,
                QuantumGate::Z(q) => q < n,
                QuantumGate::CX(q1, q2) => q1 < n && q2 < n && q1 != q2,
                QuantumGate::CZ(q1, q2) => q1 < n && q2 < n && q1 != q2,
            };
            if !ok {
                return Err(SimError::InvalidArgument);
            }
            i = i + 1;
        }
        let mut k: usize = 0;
        while k < m
            invariant
                k <= m,
                m == gates@.len(),
                n == self.n_qubits,
                self.gates@ =~= old(self).gates@ + gates@.take(k as int),
            decreases m - k,
        {
            self.gates.push(gates[k]);
            proof {
                assert(self.gates@ =~= old(self).gates@ + gates@.take(k + 1));
            }
            k = k + 1;
        }
        proof {
            assert(gates@.take(m as int) =~= gates@);
        }
        Ok(())
    }

    /// Appends an H gate.
    pub fn apply_h(&mut self, qarg: usize) -> (res: Result<(), SimError>)
        ensures
            final(self).n_qubits == old(self).n_qubits,
            (qarg as nat) < old(self).n_qubits as nat ==> res is Ok && final(self).gates@ == old(
                self,
            ).gates@.push(QuantumGate::H(qarg)),
            (qarg as nat) >= old(self).n_qubits as nat ==> res == Result::<(), SimError>::Err(
                SimError::InvalidArgument,
            ) && final(self).gates@ == old(self).gates@,
    {
        self.add_gate(QuantumGate::H(qarg))
    }

    /// Appends an X gate.
    pub fn apply_x(&mut self, qarg: usize) -> (res: Result<(), SimError>)
        ensures
            final(self).n_qubits == old(self).n_qubits,
            (qarg as nat) < old(self).n_qubits as nat ==> res is Ok && final(self).gates@ == old(
                self,
            ).gates@.push(QuantumGate::X(qarg)),
            (qarg as nat) >= old(self).n_qubits as nat ==> res == Result::<(), SimError>::Err(
                SimError::InvalidArgument,
            ) && final(self).gates@ == old(self).gates@,
    {
        self.add_gate(QuantumGate::X(qarg))
    }

    /// Appends an S gate.
    pub fn apply_s(&mut self, qarg: usize) -> (res: Result<(), SimError>)
        ensures
            final(self).n_qubits == old(self).n_qubits,
            (qarg as nat) < old(self).n_qubits as nat ==> res is Ok && final(self).gates@ == old(
                self,
            ).gates@.push(QuantumGate::S(qarg)),
            (qarg as nat) >= old(self).n_qubits as nat ==> res == Result::<(), SimError>::Err(
                SimError::InvalidArgument,
            ) && final(self).gates@ == old(self).gates@,
    {
        self.add_gate(QuantumGate::S(qarg))
    }

    /// Appends a Z gate.
    pub fn apply_z(&mut self, qarg: usize) -> (res: Result<(), SimError>)
        ensures
            final(self).n_qubits == old(self).n_qubits,
            (qarg as nat) < old(self).n_qubits as nat ==> res is Ok && final(self).gates@ == old(
                self,
            ).gates@.push(QuantumGate::Z(qarg)),
            (qarg as nat) >= old(self).n_qubits as nat ==> res == Result::<(), SimError>::Err(
                SimError::InvalidArgument,
            ) && final(self).gates@ == old(self).gates@,
    {
        self.add_gate(QuantumGate::Z(qarg))
    }

    /// Appends a CX gate.
    pub fn apply_cx(&mut self, control: usize, target: usize) -> (res: Result<(), SimError>)
        ensures
            final(self).n_qubits == old(self).n_qubits,
            quantum_gate_valid(QuantumGate::CX(control, target), old(self).n_qubits as nat)
                ==> res is Ok && final(self).gates@ == old(self).gates@.push(
                QuantumGate::CX(control, target),
            ),
            !quantum_gate_valid(QuantumGate::CX(control, target), old(self).n_qubits as nat)
                ==> res == Result::<(), SimError>::Err(SimError::InvalidArgument) && final(self).gates@ == old(self).gates@,
    {
        self.add_gate(QuantumGate::CX(control, target))
    }

    /// Appends a CZ gate.
    pub fn apply_cz(&mut self, control: usize, target: usize) -> (res: Result<(), SimError>)
        ensures
            final(self).n_qubits == old(self).n_qubits,
            quantum_gate_valid(QuantumGate::CZ(control, target), old(self).n_qubits as nat)
                ==> res is Ok && final(self).gates@ == old(self).gates@.push(
                QuantumGate::CZ(control, target),
            ),
            !quantum_gate_valid(QuantumGate::CZ(control, target), old(self).n_qubits as nat)
                ==> res == Result::<(), SimError>::Err(SimError::InvalidArgument) && final(self).gates@ == old(self).gates@,
    {
        self.add_gate(QuantumGate::CZ(control, target))
    }
}

/// A gate program over the full Clifford gate set.
#[derive(Debug, Clone)]
pub struct CliffordCircuit {
    pub n_qubits: usize,
    pub gates: Vec<CliffordGate>,
}

impl CliffordCircuit {
    /// An empty program on `n_qubits` qubits.
    pub fn new(n_qubits: usize) -> (r: Self)
        ensures
            r.n_qubits == n_qubits,
            r.gates@ == Seq::<CliffordGate>::empty(),
    {
        let r = CliffordCircuit { n_qubits, gates: Vec::new() };
        proof {
            assert(r.gates@ =~= Seq::<CliffordGate>::empty());
        }
        r
    }

    /// Appends one gate; a gate naming a missing qubit, or a two-qubit
    /// gate on one qubit, is refused and nothing changes.
    pub fn add_gate(&mut self, gate: CliffordGate) -> (res: Result<(), SimError>)
        ensures
            final(self).n_qubits == old(self).n_qubits,
            clifford_gate_valid(gate, old(self).n_qubits as nat) ==> res is Ok && final(self).gates@ == old(self).gates@.push(gate),
            !clifford_gate_valid(gate, old(self).n_qubits as nat) ==> res
                == Result::<(), SimError>::Err(SimError::InvalidArgument) && final(self).gates@
                == old(self).gates@,
    {
        let ok = match gate {
            CliffordGate::H(q) => q < self.n_qubits,
            CliffordGate::X(q) => q < self.n_qubits,
            CliffordGate::Y(q) => q < self.n_qubits,
            CliffordGate::Z(q) => q < self.n_qubits,
            CliffordGate::S(q) => q < self.n_qubits,
            CliffordGate::Sdg(q) => q < self.n_qubits,
            CliffordGate::SqrtX(q) => q < self.n_qubits,
            CliffordGate::SqrtXdg(q) => q < self.n_qubits,
            CliffordGate::CX(q1, q2) => q1 < self.n_qubits && q2 < self.n_qubits && q1 != q2,
            CliffordGate::CZ(q1, q2) => q1 < self.n_qubits && q2 < self.n_qubits && q1 != q2,
            CliffordGate::Swap(q1, q2) => q1 < self.n_qubits && q2 < self.n_qubits && q1 != q2,
        };
        if !ok {
            return Err(SimError::InvalidArgument);
        }
        self.gates.push(gate);
        Ok(())
    }

    /// Appends a whole list of gates; if any gate is invalid, nothing
    /// changes.
    pub fn add_multiple_gates(&mut self, gates: Vec<CliffordGate>) -> (res: Result<
        (),
        SimError,
    >)
        ensures
            final(self).n_qubits == old(self).n_qubits,
            (forall|i: int|
                0 <= i < gates@.len() ==> clifford_gate_valid(
                    #[trigger] gates@[i],
                    old(self).n_qubits as nat,
                )) ==> res is Ok && final(self).gates@ == old(self).gates@ + gates@,
            !(forall|i: int|
                0 <= i < gates@.len() ==> clifford_gate_valid(
                    #[trigger] gates@[i],
                    old(self).n_qubits as nat,
                )) ==> res == Result::<(), SimError>::Err(SimError::InvalidArgument) && final(self).gates@ == old(self).gates@,
    {
        let n = self.n_qubits;
        let m = gates.len();
        let mut i: usize = 0;
        while i < m
            invariant
                i <= m,
                m == gates@.len(),
                n == self.n_qubits,
                forall|k: int|
                    0 <= k < i ==> clifford_gate_valid(#[trigger] gates@[k], n as nat),
            decreases m - i,
        {
            let ok = match gates[i] {
                CliffordGate::H(q) => q < n,
                CliffordGate::X(q) => q < n,
                CliffordGate::Y(q) => q < n,
                CliffordGate::Z(q) => q < n,
                CliffordGate::S(q) => q < n,
                CliffordGate::Sdg(q) => q < n,
                CliffordGate::SqrtX(q) => q < n,
                CliffordGate::SqrtXdg(q) => q < n,
                CliffordGate::CX(q1, q2) => q1 < n && q2 < n && q1 != q2,
                CliffordGate::CZ(q1, q2) => q1 < n && q2 < n && q1 != q2,
                CliffordGate::Swap(q1, q2) => q1 < n && q2 < n && q1 != q2,
            };
            if !ok {
                return Err(SimError::InvalidArgument);
            }
            i = i + 1;
        }
        let mut k: usize = 0;
        while k < m
            invariant
                k <= m,
                m == gates@.len(),
                n == self.n_qubits,
                self.gates@ =~= old(self).gates@ + gates@.take(k as int),
            decreases m - k,
        {
            self.gates.push(gates[k]);
            proof {
                assert(self.gates@ =~= old(self).gates@ + gates@.take(k + 1));
            }
            k = k + 1;
        }
        proof {
            assert(gates@.take(m as int) =~= gates@);
        }
        Ok(())
    }

    /// Appends an H gate.
    pub fn apply_h(&mut self, qarg: usize) -> (res: Result<(), SimError>)
        ensures
            final(self).n_qubits == old(self).n_qubits,
            (qarg as nat) < old(self).n_qubits as nat ==> res is Ok && final(self).gates@ == old(
                self,
            ).gates@.push(CliffordGate::H(qarg)),
            (qarg as nat) >= old(self).n_qubits as nat ==> res == Result::<(), SimError>::Err(
                SimError::InvalidArgument,
            ) && final(self).gates@ == old(self).gates@,
    {
        self.add_gate(CliffordGate::H(qarg))
    }

    /// Appends an X gate.
    pub fn apply_x(&mut self, qarg: usize) -> (res: Result<(), SimError>)
        ensures
            final(self).n_qubits == old(self).n_qubits,
            (qarg as nat) < old(self).n_qubits as nat ==> res is Ok && final(self).gates@ == old(
                self,
            ).gates@.push(CliffordGate::X(qarg)),
            (qarg as nat) >= old(self).n_qubits as nat ==> res == Result::<(), SimError>::Err(
                SimError::InvalidArgument,
            ) && final(self).gates@ == old(self).gates@,
    {
        self.add_gate(CliffordGate::X(qarg))
    }

    /// Appends an S gate.
    pub fn apply_s(&mut self, qarg: usize) -> (res: Result<(), SimError>)
        ensures
            final(self).n_qubits == old(self).n_qubits,
            (qarg as nat) < old(self).n_qubits as nat ==> res is Ok && final(self).gates@ == old(
                self,
            ).gates@.push(CliffordGate::S(qarg)),
            (qarg as nat) >= old(self).n_qubits as nat ==> res == Result::<(), SimError>::Err(
                SimError::InvalidArgument,
            ) && final(self).gates@ == old(self).gates@,
    {
        self.add_gate(CliffordGate::S(qarg))
    }

    /// Appends a Z gate.
    pub fn apply_z(&mut self, qarg: usize) -> (res: Result<(), SimError>)
        ensures
            final(self).n_qubits == old(self).n_qubits,
            (qarg as nat) < old(self).n_qubits as nat ==> res is Ok && final(self).gates@ == old(
                self,
            ).gates@.push(CliffordGate::Z(qarg)),
            (qarg as nat) >= old(self).n_qubits as nat ==> res == Result::<(), SimError>::Err(
                SimError::InvalidArgument,
            ) && final(self).gates@ == old(self).gates@,
    {
        self.add_gate(CliffordGate::Z(qarg))
    }

    /// Appends a CX gate.
    pub fn apply_cx(&mut self, control: usize, target: usize) -> (res: Result<(), SimError>)
        ensures
            final(self).n_qubits == old(self).n_qubits,
            clifford_gate_valid(CliffordGate::CX(control, target), old(self).n_qubits as nat)
                ==> res is Ok && final(self).gates@ == old(self).gates@.push(
                CliffordGate::CX(control, target),
            ),
            !clifford_gate_valid(CliffordGate::CX(control, target), old(self).n_qubits as nat)
                ==> res == Result::<(), SimError>::Err(SimError::InvalidArgument) && final(self).gates@ == old(self).gates@,
    {
        self.add_gate(CliffordGate::CX(control, target))
    }

    /// Appends a CZ gate.
    pub fn apply_cz(&mut self, control: usize, target: usize) -> (res: Result<(), SimError>)
        ensures
            final(self).n_qubits == old(self).n_qubits,
            clifford_gate_valid(CliffordGate::CZ(control, target), old(self).n_qubits as nat)
                ==> res is Ok && final(self).gates@ == old(self).gates@.push(
                CliffordGate::CZ(control, target),
            ),
            !clifford_gate_valid(CliffordGate::CZ(control, target), old(self).n_qubits as nat)
                ==> res == Result::<(), SimError>::Err(SimError::InvalidArgument) && final(self).gates@ == old(self).gates@,
    {
        self.add_gate(CliffordGate::CZ(control, target))
    }
}

/// The state transformation of one gate of the full Clifford set.
pub open spec fn clifford_gate_apply(c: ChState, g: CliffordGate) -> ChState {
    match g {
        CliffordGate::H(q) => left_h_spec(c, q as int),
        CliffordGate::X(q) => left_x_spec(c, q as int),
        CliffordGate::Y(q) => left_y_spec(c, q as int),
        CliffordGate::Z(q) => left_z_spec(c, q as int),
        CliffordGate::S(q) => left_s_spec(c, q as int),
        CliffordGate::Sdg(q) => left_sdg_spec(c, q as int),
        CliffordGate::SqrtX(q) => left_sqrt_x_spec(c, q as int),
        CliffordGate::SqrtXdg(q) => left_sqrt_xdg_spec(c, q as int),
        CliffordGate::CX(q1, q2) => left_cx_spec(c, q1 as int, q2 as int),
        CliffordGate::CZ(q1, q2) => left_cz_spec(c, q1 as int, q2 as int),
        CliffordGate::Swap(q1, q2) => permuted_spec(c, transposition(c.n, q1 as int, q2 as int)),
    }
}

/// Whether one gate of the full set resolves without an invariant breach;
/// only the gates built on H can fail.
pub open spec fn clifford_gate_ok(c: ChState, g: CliffordGate) -> bool {
    match g {
        CliffordGate::H(q) => h_ok(c, q as int),
        CliffordGate::SqrtX(q) => sqrt_x_ok(c, q as int),
        CliffordGate::SqrtXdg(q) => sqrt_xdg_ok(c, q as int),
        _ => true,
    }
}

/// If a whole program runs cleanly, so does every prefix.
proof fn lemma_run_ok_prefix(c: ChState, gs: Seq<QuantumGate>, k1: int, k2: int)
    requires
        k1 <= k2,
        run_quantum_ok(c, gs, k2),
    ensures
        run_quantum_ok(c, gs, k1),
    decreases k2,
{
    if k1 < k2 && k2 > 0 {
        lemma_run_ok_prefix(c, gs, k1, k2 - 1);
    }
}

impl StabilizerCHForm {
    /// Applies one gate of the closed Clifford set: the single dispatch
    /// point over the tagged gate type.
    pub fn apply_gate(&mut self, gate: CliffordGate) -> (res: Result<(), SimError>)
        requires
            old(self).wf(),
        ensures
            final(self).wf(),
            (clifford_gate_valid(gate, old(self)@.n) && clifford_gate_ok(old(self)@, gate))
                ==> res is Ok && final(self)@ == clifford_gate_apply(old(self)@, gate),
            !clifford_gate_valid(gate, old(self)@.n) ==> res == Result::<(), SimError>::Err(
                SimError::InvalidArgument,
            ) && final(self)@ == old(self)@,
            (clifford_gate_valid(gate, old(self)@.n) && !clifford_gate_ok(old(self)@, gate))
                ==> res == Result::<(), SimError>::Err(SimError::InvalidState),
    {
        match gate {
            CliffordGate::H(q) => self.apply_h(q),
            CliffordGate::X(q) => self.apply_x(q),
            CliffordGate::Y(q) => self.apply_y(q),
            CliffordGate::Z(q) => self.apply_z(q),
            CliffordGate::S(q) => self.apply_s(q),
            CliffordGate::Sdg(q) => self.apply_sdg(q),
            CliffordGate::SqrtX(q) => self.apply_sqrt_x(q),
            CliffordGate::SqrtXdg(q) => self.apply_sqrt_xdg(q),
            CliffordGate::CX(q1, q2) => self.apply_cx(q1, q2),
            CliffordGate::CZ(q1, q2) => self.apply_cz(q1, q2),
            CliffordGate::Swap(q1, q2) => self.apply_swap(q1, q2),
        }
    }

    /// Simulates a gate program from `|0...0>`.  Succeeds exactly when the
    /// program names at least one qubit, every gate is valid, and every
    /// Hadamard resolves (the last cannot fail on states reached from
    /// `|0...0>`).
    pub fn try_from(circuit: &QuantumCircuit) -> (res: Result<StabilizerCHForm, SimError>)
        ensures
            (circuit.n_qubits >= 1 && run_quantum_ok(
                initial_state(circuit.n_qubits as nat),
                circuit.gates@,
                circuit.gates@.len() as int,
            )) ==> (res matches Ok(st) && st.wf() && st@ == run_quantum(
                initial_state(circuit.n_qubits as nat),
                circuit.gates@,
                circuit.gates@.len() as int,
            )),
            !(circuit.n_qubits >= 1 && run_quantum_ok(
                initial_state(circuit.n_qubits as nat),
                circuit.gates@,
                circuit.gates@.len() as int,
            )) ==> res is Err,
    {
        if circuit.n_qubits == 0 {
            return Err(SimError::InvalidArgument);
        }
        let ghost c0 = initial_state(circuit.n_qubits as nat);
        let mut st = StabilizerCHForm::new(circuit.n_qubits);
        let m = circuit.gates.len();
        let mut i: usize = 0;
        while i < m
            invariant
                i <= m,
                m == circuit.gates@.len(),
                circuit.n_qubits >= 1,
                c0 == initial_state(circuit.n_qubits as nat),
                st.wf(),
                st@.n == circuit.n_qubits as nat,
                st@ == run_quantum(c0, circuit.gates@, i as int),
                run_quantum_ok(c0, circuit.gates@, i as int),
            decreases m - i,
        {
            let gate = circuit.gates[i];
            let step = match gate {
                QuantumGate::H(q) => st.apply_h(q),
                QuantumGate::S(q) => st.apply_s(q),
                QuantumGate::X(q) => st.apply_x(q),
                QuantumGate::Z(q) => st.apply_z(q),
                QuantumGate::CX(q1, q2) => st.apply_cx(q1, q2),
                QuantumGate::CZ(q1, q2) => st.apply_cz(q1, q2),
            };
            if let Err(e) = step {
                proof {
                    if run_quantum_ok(c0, circuit.gates@, m as int) {
                        lemma_run_ok_prefix(c0, circuit.gates@, i + 1, m as int);
                        assert(false);
                    }
                }
                return Err(e);
            }
            i = i + 1;
        }
        Ok(st)
    }
}

} // verus!
