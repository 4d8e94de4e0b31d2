use num_complex::Complex64;
use rand::rngs::StdRng;
use rand::{Rng, SeedableRng};
use stabilizer_ch_form::{QuantumCircuit, QuantumGate, Scalar, StabilizerCHForm};

fn phase_to_complex(k: u8) -> Complex64 {
    let angle = (k as f64) * std::f64::consts::FRAC_PI_4;
    Complex64::new(angle.cos(), angle.sin())
}

fn scalar_to_complex(s: &Scalar) -> Complex64 {
    match s {
        Scalar::Zero => Complex64::new(0.0, 0.0),
        Scalar::NonZero { phase, r } => {
            let norm = 2.0_f64.powf(-(*r as f64) / 2.0);
            phase_to_complex(phase.to_int()) * norm
        }
    }
}

fn statevector(state: &StabilizerCHForm) -> Vec<Complex64> {
    state.to_statevector().iter().map(scalar_to_complex).collect()
}

fn assert_eq_complex(a: Complex64, b: Complex64) {
    let diff = (a - b).norm();
    assert!(
        diff <= 1e-8,
        "Complex numbers differ: |{} - {}| = {} > {}",
        a,
        b,
        diff,
        1e-8
    );
}

fn random_circuit(n_qubits: usize, gate_count: usize, seed: Option<u64>) -> QuantumCircuit {
    let mut circuit = QuantumCircuit::new(n_qubits);
    let mut rng = match seed {
        Some(s) => StdRng::seed_from_u64(s),
        None => StdRng::from_entropy(),
    };

    for _ in 0..gate_count {
        let gate_type = rng.gen_range(0..6);
        match gate_type {
            0..=3 => {
                let q = rng.gen_range(0..n_qubits);
                let gate = match gate_type {
                    0 => QuantumGate::H(q),
                    1 => QuantumGate::S(q),
                    2 => QuantumGate::X(q),
                    3 => QuantumGate::Z(q),
                    _ => unreachable!(),
                };
                circuit.add_gate(gate).unwrap();
            }
            4..=5 => {
                if n_qubits < 2 {
                    continue;
                }
                let q1 = rng.gen_range(0..n_qubits);
                let mut q2 = rng.gen_range(0..n_qubits);
                while q1 == q2 {
                    q2 = rng.gen_range(0..n_qubits);
                }
                let gate = match gate_type {
                    4 => QuantumGate::CX(q1, q2),
                    5 => QuantumGate::CZ(q1, q2),
                    _ => unreachable!(),
                };
                circuit.add_gate(gate).unwrap();
            }
            _ => unreachable!(),
        }
    }
    circuit
}

#[test]
fn test_inner_product_random_circuits() {
    let n_qubits = 5;
    let gate_count = 50;
    let iterations = 30;

    for i in 0..iterations {
        let circuit1 = random_circuit(n_qubits, gate_count, None);
        let circuit2 = random_circuit(n_qubits, gate_count, None);

        let ch_form1 = StabilizerCHForm::try_from(&circuit1).unwrap();
        let ch_form2 = StabilizerCHForm::try_from(&circuit2).unwrap();

        let statevector1 = statevector(&ch_form1);
        let statevector2 = statevector(&ch_form2);
        let expected_inner_product: Complex64 = statevector1
            .iter()
            .zip(statevector2.iter())
            .map(|(a, b)| a.conj() * b)
            .sum();

        let actual_inner_product = scalar_to_complex(&ch_form1.inner_product(&ch_form2).unwrap());

        assert_eq_complex(expected_inner_product, actual_inner_product);

        println!(
            "Test {}: Passed. Inner Product = {}",
            i + 1,
            actual_inner_product
        );
    }
}

#[test]
fn test_inner_product_dimension_mismatch() {
    let a = StabilizerCHForm::new(2);
    let b = StabilizerCHForm::new(3);
    assert_eq!(
        a.inner_product(&b),
        Err(stabilizer_ch_form::SimError::DimensionMismatch)
    );
}

#[test]
fn test_inner_product_conjugate_symmetry_and_unit_bound() {
    for seed in 0..10 {
        let c1 = random_circuit(4, 40, Some(300 + seed));
        let c2 = random_circuit(4, 40, Some(400 + seed));
        let a = StabilizerCHForm::try_from(&c1).unwrap();
        let b = StabilizerCHForm::try_from(&c2).unwrap();

        let ab = scalar_to_complex(&a.inner_product(&b).unwrap());
        let ba = scalar_to_complex(&b.inner_product(&a).unwrap());
        assert_eq_complex(ab, ba.conj());
        assert!(ab.norm() <= 1.0 + 1e-8, "|<a|b>| = {} > 1", ab.norm());
    }
}

#[test]
fn test_inner_product_orthogonal_states_is_zero() {
    let a = StabilizerCHForm::new(1);
    let mut b = StabilizerCHForm::new(1);
    b.apply_x(0).unwrap();
    let ip = scalar_to_complex(&a.inner_product(&b).unwrap());
    assert_eq_complex(ip, Complex64::new(0.0, 0.0));
}

#[test]
fn test_inner_product_identical_states_is_one() {
    let circuit = random_circuit(4, 40, Some(7));
    let ch_form = StabilizerCHForm::try_from(&circuit).unwrap();
    let ip = scalar_to_complex(&ch_form.inner_product(&ch_form).unwrap());
    assert_eq_complex(ip, Complex64::new(1.0, 0.0));
}
