use num_complex::Complex64;
use rand::rngs::StdRng;
use rand::{Rng, SeedableRng};
use stabilizer_ch_form::{QuantumCircuit, QuantumGate, Scalar, StabilizerCHForm};

fn phase_to_complex(k: u8) -> Complex64 {
    let angle = (k as f64) * std::f64::consts::FRAC_PI_4;
    Complex64::new(angle.cos(), angle.sin())
}

fn scalar_to_complex(s: &Scalar) -> Complex64 {
    match s {
        Scalar::Zero => Complex64::new(0.0, 0.0),
        Scalar::NonZero { phase, r } => {
            let norm = 2.0_f64.powf(-(*r as f64) / 2.0);
            phase_to_complex(phase.to_int()) * norm
        }
    }
}

fn statevector(state: &StabilizerCHForm) -> Vec<Complex64> {
    state.to_statevector().iter().map(scalar_to_complex).collect()
}

fn assert_eq_complex_vec(a: &[Complex64], b: &[Complex64]) {
    assert_eq!(a.len(), b.len(), "Vectors have different lengths.");
    for (i, (x, y)) in a.iter().zip(b.iter()).enumerate() {
        let diff = (x - y).norm();
        assert!(
            diff <= 1e-8,
            "Vectors differ at index {}: |{} - {}| = {} > {}",
            i,
            x,
            y,
            diff,
            1e-8
        );
    }
}

fn random_circuit(n_qubits: usize, gate_count: usize, seed: Option<u64>) -> QuantumCircuit {
    let mut circuit = QuantumCircuit::new(n_qubits);
    let mut rng = match seed {
        Some(s) => StdRng::seed_from_u64(s),
        None => StdRng::from_entropy(),
    };

    for _ in 0..gate_count {
        let gate_type = rng.gen_range(0..6);
        match gate_type {
            0..=3 => {
                let q = rng.gen_range(0..n_qubits);
                let gate = match gate_type {
                    0 => QuantumGate::H(q),
                    1 => QuantumGate::S(q),
                    2 => QuantumGate::X(q),
                    3 => QuantumGate::Z(q),
                    _ => unreachable!(),
                };
                circuit.add_gate(gate).unwrap();
            }
            4..=5 => {
                if n_qubits < 2 {
                    continue;
                }
                let q1 = rng.gen_range(0..n_qubits);
                let mut q2 = rng.gen_range(0..n_qubits);
                while q1 == q2 {
                    q2 = rng.gen_range(0..n_qubits);
                }
                let gate = match gate_type {
                    4 => QuantumGate::CX(q1, q2),
                    5 => QuantumGate::CZ(q1, q2),
                    _ => unreachable!(),
                };
                circuit.add_gate(gate).unwrap();
            }
            _ => unreachable!(),
        }
    }
    circuit
}

/// Naive kronecker product of statevectors, adjusted for the little-endian
/// convention of `to_statevector`.
fn kron_statevectors(sv1: &[Complex64], sv2: &[Complex64]) -> Vec<Complex64> {
    let n1 = sv1.len();
    let n2 = sv2.len();
    let mut result = vec![Complex64::new(0.0, 0.0); n1 * n2];

    for j in 0..n2 {
        for i in 0..n1 {
            result[j * n1 + i] = sv1[i] * sv2[j];
        }
    }
    result
}

#[test]
fn test_kron_random_circuits() {
    let n_qubits1 = 2;
    let n_qubits2 = 3;
    let gate_count = 30;
    let iterations = 10;

    for i in 0..iterations {
        let circuit1 = random_circuit(n_qubits1, gate_count, Some(100 + i));
        let circuit2 = random_circuit(n_qubits2, gate_count, Some(200 + i));

        let ch_form1 = StabilizerCHForm::try_from(&circuit1).unwrap();
        let ch_form2 = StabilizerCHForm::try_from(&circuit2).unwrap();

        let kron_ch_form = ch_form1.kron(&ch_form2);
        let actual_statevector = statevector(&kron_ch_form);

        let sv1 = statevector(&ch_form1);
        let sv2 = statevector(&ch_form2);
        let expected_statevector = kron_statevectors(&sv1, &sv2);

        assert_eq_complex_vec(&expected_statevector, &actual_statevector);

        println!(
            "Test {}: Passed. Kron results match for circuits of size {} and {}.",
            i + 1,
            n_qubits1,
            n_qubits2
        );
    }
}
