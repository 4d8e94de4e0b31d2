use num_complex::Complex64;
use stabilizer_ch_form::{QubitState, Scalar, SimError, StabilizerCHForm};

fn phase_to_complex(k: u8) -> Complex64 {
    let angle = (k as f64) * std::f64::consts::FRAC_PI_4;
    Complex64::new(angle.cos(), angle.sin())
}

fn scalar_to_complex(s: &Scalar) -> Complex64 {
    match s {
        Scalar::Zero => Complex64::new(0.0, 0.0),
        Scalar::NonZero { phase, r } => {
            let norm = 2.0_f64.powf(-(*r as f64) / 2.0);
            phase_to_complex(phase.to_int()) * norm
        }
    }
}

fn statevector(state: &StabilizerCHForm) -> Vec<Complex64> {
    state.to_statevector().iter().map(scalar_to_complex).collect()
}

fn assert_eq_complex_vec(a: &[Complex64], b: &[Complex64]) {
    assert_eq!(a.len(), b.len(), "Vectors have different lengths.");
    for (i, (x, y)) in a.iter().zip(b.iter()).enumerate() {
        let diff = (x - y).norm();
        assert!(
            diff <= 1e-8,
            "Vectors differ at index {}: |{} - {}| = {} > {}",
            i,
            x,
            y,
            diff,
            1e-8
        );
    }
}

#[test]
fn test_project() {
    let mut ch_form = StabilizerCHForm::new(3);
    ch_form.apply_h(0).unwrap();
    ch_form.apply_cx(0, 1).unwrap();
    ch_form.apply_cx(1, 2).unwrap();

    // Project qubit 0 of the GHZ state onto |0>: the state collapses to
    // |000>.
    ch_form.project(0, false).unwrap();
    let expected = vec![
        Complex64::new(1.0, 0.0),
        Complex64::new(0.0, 0.0),
        Complex64::new(0.0, 0.0),
        Complex64::new(0.0, 0.0),
        Complex64::new(0.0, 0.0),
        Complex64::new(0.0, 0.0),
        Complex64::new(0.0, 0.0),
        Complex64::new(0.0, 0.0),
    ];
    assert_eq_complex_vec(&statevector(&ch_form), &expected);

    ch_form.apply_h(0).unwrap();
    ch_form.apply_cx(0, 1).unwrap();
    ch_form.apply_cx(1, 2).unwrap();
    ch_form.apply_x(2).unwrap();

    ch_form.project(2, false).unwrap();

    // Now the state should be |110>; discard the last qubit.
    ch_form.discard(2).unwrap();
    let expected_after = vec![
        Complex64::new(0.0, 0.0),
        Complex64::new(0.0, 0.0),
        Complex64::new(0.0, 0.0),
        Complex64::new(1.0, 0.0),
    ];
    assert_eq_complex_vec(&statevector(&ch_form), &expected_after);
}

#[test]
fn test_measure_determined_returns_value_without_change() {
    let mut ch_form = StabilizerCHForm::new(2);
    ch_form.apply_x(0).unwrap();

    assert_eq!(ch_form.get_qubit_state(0), Ok(QubitState::Determined(true)));
    assert_eq!(ch_form.get_qubit_state(1), Ok(QubitState::Determined(false)));

    let before = statevector(&ch_form);
    let outcome = ch_form.measure(0).unwrap();
    assert!(outcome);
    let after = statevector(&ch_form);
    assert_eq_complex_vec(&before, &after);

    let outcome1 = ch_form.measure(1).unwrap();
    assert!(!outcome1);
}

#[test]
fn test_measure_superposition_collapses_to_unit_outcome() {
    for _ in 0..20 {
        let mut ch_form = StabilizerCHForm::new(2);
        ch_form.apply_h(0).unwrap();
        ch_form.apply_cx(0, 1).unwrap();

        assert_eq!(ch_form.get_qubit_state(0), Ok(QubitState::Superposition));
        let outcome = ch_form.measure(0).unwrap();

        // Every amplitude on a basis string disagreeing with the outcome
        // is zero, and the post-state has unit norm.
        let sv = statevector(&ch_form);
        let mut norm_sqr = 0.0;
        for (i, amp) in sv.iter().enumerate() {
            let bit = (i & 1) == 1;
            if bit != outcome {
                assert!(amp.norm() <= 1e-8, "leftover amplitude at {}", i);
            }
            norm_sqr += amp.norm_sqr();
        }
        assert!((norm_sqr - 1.0).abs() <= 1e-8, "norm is {}", norm_sqr);

        // The measured qubit is now determined at the observed value.
        assert_eq!(
            ch_form.get_qubit_state(0),
            Ok(QubitState::Determined(outcome))
        );
    }
}

#[test]
fn test_project_conflicting_outcome_is_inconsistent() {
    let mut ch_form = StabilizerCHForm::new(1);
    ch_form.apply_x(0).unwrap();
    assert_eq!(
        ch_form.project(0, false),
        Err(SimError::MeasurementInconsistent)
    );
    // The state is untouched by the refused projection.
    let expected = vec![Complex64::new(0.0, 0.0), Complex64::new(1.0, 0.0)];
    assert_eq_complex_vec(&statevector(&ch_form), &expected);
}
