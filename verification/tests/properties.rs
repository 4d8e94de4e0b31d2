use num_complex::Complex64;
use rand::rngs::StdRng;
use rand::{Rng, SeedableRng};
use stabilizer_ch_form::{QuantumCircuit, QuantumGate, Scalar, StabilizerCHForm};

fn phase_to_complex(k: u8) -> Complex64 {
    let angle = (k as f64) * std::f64::consts::FRAC_PI_4;
    Complex64::new(angle.cos(), angle.sin())
}

fn scalar_to_complex(s: &Scalar) -> Complex64 {
    match s {
        Scalar::Zero => Complex64::new(0.0, 0.0),
        Scalar::NonZero { phase, r } => {
            let norm = 2.0_f64.powf(-(*r as f64) / 2.0);
            phase_to_complex(phase.to_int()) * norm
        }
    }
}

fn statevector(state: &StabilizerCHForm) -> Vec<Complex64> {
    state.to_statevector().iter().map(scalar_to_complex).collect()
}

fn assert_eq_complex_vec(a: &[Complex64], b: &[Complex64]) {
    assert_eq!(a.len(), b.len(), "Vectors have different lengths.");
    for (i, (x, y)) in a.iter().zip(b.iter()).enumerate() {
        let diff = (x - y).norm();
        assert!(
            diff <= 1e-8,
            "Vectors differ at index {}: |{} - {}| = {} > {}",
            i,
            x,
            y,
            diff,
            1e-8
        );
    }
}

fn random_state(n_qubits: usize, gate_count: usize, seed: u64) -> StabilizerCHForm {
    let mut circuit = QuantumCircuit::new(n_qubits);
    let mut rng = StdRng::seed_from_u64(seed);
    for _ in 0..gate_count {
        let gate_type = rng.gen_range(0..6);
        match gate_type {
            0..=3 => {
                let q = rng.gen_range(0..n_qubits);
                let gate = match gate_type {
                    0 => QuantumGate::H(q),
                    1 => QuantumGate::S(q),
                    2 => QuantumGate::X(q),
                    3 => QuantumGate::Z(q),
                    _ => unreachable!(),
                };
                circuit.add_gate(gate).unwrap();
            }
            _ => {
                if n_qubits < 2 {
                    continue;
                }
                let q1 = rng.gen_range(0..n_qubits);
                let mut q2 = rng.gen_range(0..n_qubits);
                while q1 == q2 {
                    q2 = rng.gen_range(0..n_qubits);
                }
                let gate = match gate_type {
                    4 => QuantumGate::CX(q1, q2),
                    5 => QuantumGate::CZ(q1, q2),
                    _ => unreachable!(),
                };
                circuit.add_gate(gate).unwrap();
            }
        }
    }
    StabilizerCHForm::try_from(&circuit).unwrap()
}

#[test]
fn test_self_inverse_round_trips() {
    for seed in 0..10 {
        let base = random_state(4, 30, seed);
        let before = statevector(&base);

        let mut s_trip = base.clone();
        s_trip.apply_s(1).unwrap();
        s_trip.apply_sdg(1).unwrap();
        assert_eq_complex_vec(&statevector(&s_trip), &before);

        let mut h_trip = base.clone();
        h_trip.apply_h(2).unwrap();
        h_trip.apply_h(2).unwrap();
        assert_eq_complex_vec(&statevector(&h_trip), &before);

        let mut x_trip = base.clone();
        x_trip.apply_x(0).unwrap();
        x_trip.apply_x(0).unwrap();
        assert_eq_complex_vec(&statevector(&x_trip), &before);

        let mut sx_trip = base.clone();
        sx_trip.apply_sqrt_x(3).unwrap();
        sx_trip.apply_sqrt_xdg(3).unwrap();
        assert_eq_complex_vec(&statevector(&sx_trip), &before);
    }
}

#[test]
fn test_norm_preservation() {
    for seed in 100..115 {
        let state = random_state(5, 60, seed);
        let sv = statevector(&state);
        let norm_sqr: f64 = sv.iter().map(|a| a.norm_sqr()).sum();
        assert!(
            (norm_sqr - 1.0).abs() <= 1e-8,
            "norm^2 after seed {} is {}",
            seed,
            norm_sqr
        );
    }
}

#[test]
fn test_permutation_involution() {
    for seed in 200..210 {
        let state = random_state(4, 40, seed);
        let before = statevector(&state);

        let axes = vec![2usize, 0, 3, 1];
        // The inverse permutation of [2, 0, 3, 1] is [1, 3, 0, 2].
        let inverse = vec![1usize, 3, 0, 2];

        let permuted = state.permuted(&axes).unwrap();
        let back = permuted.permuted(&inverse).unwrap();
        assert_eq_complex_vec(&statevector(&back), &before);
    }
}

#[test]
fn test_swap_is_a_transposition() {
    let mut state = StabilizerCHForm::new(2);
    state.apply_x(0).unwrap();
    state.apply_swap(0, 1).unwrap();
    // |10> with the little-endian convention becomes |01>: index 2.
    let expected = vec![
        Complex64::new(0.0, 0.0),
        Complex64::new(0.0, 0.0),
        Complex64::new(1.0, 0.0),
        Complex64::new(0.0, 0.0),
    ];
    assert_eq_complex_vec(&statevector(&state), &expected);
}

#[test]
fn test_y_gate_statevector() {
    let mut state = StabilizerCHForm::new(1);
    state.apply_y(0).unwrap();
    // Y|0> = i|1>.
    let expected = vec![Complex64::new(0.0, 0.0), Complex64::new(0.0, 1.0)];
    assert_eq_complex_vec(&statevector(&state), &expected);
}

#[test]
fn test_discard_matches_partial_trace() {
    // Build a product of an entangled pair on qubits 0 and 1 with a |0>
    // qubit at index 2, then discard qubit 2: the remaining amplitudes
    // must match tracing that qubit out of the full statevector.
    let mut state = StabilizerCHForm::new(3);
    state.apply_h(0).unwrap();
    state.apply_cx(0, 1).unwrap();
    state.apply_s(0).unwrap();

    let full = statevector(&state);
    state.project(2, false).unwrap();
    state.discard(2).unwrap();
    assert_eq!(state.n_qubits(), 2);

    let reduced = statevector(&state);
    // Qubit 2 is |0>, so tracing it out keeps the first four amplitudes.
    let expected: Vec<Complex64> = full[0..4].to_vec();
    assert_eq_complex_vec(&reduced, &expected);
}

#[test]
fn test_discard_cancellation_pair_includes_the_discarded_qubit() {
    // Both qubits carry v = false, s = true and none has both bits clear,
    // so clearing the bookkeeping of qubit 0 must use the cancellation
    // pair with qubit 0 itself as a member.
    let mut state = StabilizerCHForm::new(2);
    state.apply_x(0).unwrap();
    state.apply_x(1).unwrap();
    state.discard(0).unwrap();
    assert_eq!(state.n_qubits(), 1);
    // The remaining qubit stays |1>.
    let expected = vec![Complex64::new(0.0, 0.0), Complex64::new(1.0, 0.0)];
    assert_eq_complex_vec(&statevector(&state), &expected);
}

#[test]
fn test_global_phase_scales_statevector() {
    let mut state = StabilizerCHForm::new(1);
    state.apply_h(0).unwrap();
    state.set_global_phase(stabilizer_ch_form::PhaseFactor::plus_i());
    let sv = statevector(&state);
    let expected = vec![
        Complex64::new(0.0, 1.0 / 2f64.sqrt()),
        Complex64::new(0.0, 1.0 / 2f64.sqrt()),
    ];
    assert_eq_complex_vec(&sv, &expected);
    assert_eq!(state.global_phase().to_int(), 2);
}
