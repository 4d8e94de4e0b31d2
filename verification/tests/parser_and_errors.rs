use stabilizer_ch_form::{
    from_qasm_str, CliffordCircuit, CliffordGate, QuantumGate, QuantumCircuit, SimError,
    StabilizerCHForm,
};

#[test]
fn test_parse_simple_program() {
    let text = "OPENQASM 2.0;\npragma \"directives with quoted arguments are skipped\";\nqreg q[3];\nh q[0];\ncx q[0],q[1];\nsdg q[2];\nsx q[1];\nswap q[0], q[2];\nmeasure q[0] -> c[0];\n";
    let circuit = from_qasm_str(text).unwrap();
    assert_eq!(circuit.n_qubits, 3);
    assert_eq!(
        circuit.gates,
        vec![
            CliffordGate::H(0),
            CliffordGate::CX(0, 1),
            CliffordGate::Sdg(2),
            CliffordGate::SqrtX(1),
            CliffordGate::Swap(0, 2),
        ]
    );
}

#[test]
fn test_parse_failures() {
    assert!(from_qasm_str("qreg q[2];\nqreg r[2];\n").is_err());
    assert!(from_qasm_str("h q[0];\n").is_err());
    assert!(from_qasm_str("qreg q[2];\nfoo bar baz\n").is_err());
    assert!(from_qasm_str("qreg q[2];\nh q[5];\n").is_err());
    assert!(from_qasm_str("").is_err());
}

#[test]
fn test_parsed_circuit_simulates() {
    let text = "qreg q[2];\nh q[0];\ncx q[0],q[1];\n";
    let circuit = from_qasm_str(text).unwrap();
    let mut state = StabilizerCHForm::new(circuit.n_qubits);
    for gate in &circuit.gates {
        match gate {
            CliffordGate::H(q) => state.apply_h(*q).unwrap(),
            CliffordGate::X(q) => state.apply_x(*q).unwrap(),
            CliffordGate::Y(q) => state.apply_y(*q).unwrap(),
            CliffordGate::Z(q) => state.apply_z(*q).unwrap(),
            CliffordGate::S(q) => state.apply_s(*q).unwrap(),
            CliffordGate::Sdg(q) => state.apply_sdg(*q).unwrap(),
            CliffordGate::SqrtX(q) => state.apply_sqrt_x(*q).unwrap(),
            CliffordGate::SqrtXdg(q) => state.apply_sqrt_xdg(*q).unwrap(),
            CliffordGate::CX(c, t) => state.apply_cx(*c, *t).unwrap(),
            CliffordGate::CZ(a, b) => state.apply_cz(*a, *b).unwrap(),
            CliffordGate::Swap(a, b) => state.apply_swap(*a, *b).unwrap(),
        }
    }
    // The Bell state has zero amplitude on |10>.
    let bits = vec![true, false];
    assert_eq!(
        state.amplitude_at_computational_basis(&bits),
        Ok(stabilizer_ch_form::Scalar::Zero)
    );
}

#[test]
fn test_invalid_argument_errors() {
    let mut state = StabilizerCHForm::new(2);
    assert_eq!(state.apply_h(2), Err(SimError::InvalidArgument));
    assert_eq!(state.apply_cx(0, 0), Err(SimError::InvalidArgument));
    assert_eq!(state.apply_cz(0, 5), Err(SimError::InvalidArgument));
    assert_eq!(state.measure(7), Err(SimError::InvalidArgument));
    assert_eq!(state.discard(3), Err(SimError::InvalidArgument));
    let bad_axes = vec![0usize, 0];
    assert!(state.permuted(&bad_axes).is_err());

    let mut circuit = QuantumCircuit::new(2);
    assert_eq!(
        circuit.add_gate(QuantumGate::CX(1, 1)),
        Err(SimError::InvalidArgument)
    );
    assert_eq!(
        circuit.add_gate(QuantumGate::H(2)),
        Err(SimError::InvalidArgument)
    );
    assert!(circuit.add_gate(QuantumGate::H(1)).is_ok());
    assert_eq!(circuit.gates.len(), 1);

    let mut clifford = CliffordCircuit::new(2);
    assert_eq!(
        clifford.add_gate(CliffordGate::Swap(0, 0)),
        Err(SimError::InvalidArgument)
    );
    assert!(clifford.add_gate(CliffordGate::SqrtXdg(0)).is_ok());
    assert!(clifford
        .add_multiple_gates(vec![CliffordGate::H(0), CliffordGate::CZ(0, 1)])
        .is_ok());
    assert_eq!(clifford.gates.len(), 3);
    // A batch with one bad gate is refused whole.
    assert_eq!(
        clifford.add_multiple_gates(vec![CliffordGate::H(0), CliffordGate::X(9)]),
        Err(SimError::InvalidArgument)
    );
    assert_eq!(clifford.gates.len(), 3);
}

#[test]
fn test_operation_infeasible_on_unresolved_discard() {
    // A single qubit in superposition cannot be restructured to
    // v = s = false, so discarding it is refused, and the refusal leaves
    // the state exactly as it was.
    let mut state = StabilizerCHForm::new(1);
    state.apply_h(0).unwrap();
    let before = state.to_statevector();
    assert_eq!(state.discard(0), Err(SimError::OperationInfeasible));
    assert_eq!(state.n_qubits(), 1);
    assert_eq!(state.to_statevector(), before);
}

#[test]
fn test_try_from_rejects_empty_register() {
    let circuit = QuantumCircuit::new(0);
    assert!(StabilizerCHForm::try_from(&circuit).is_err());
}
