use num_complex::Complex64;
use stabilizer_ch_form::{Scalar, StabilizerCHForm};

fn phase_to_complex(k: u8) -> Complex64 {
    let angle = (k as f64) * std::f64::consts::FRAC_PI_4;
    Complex64::new(angle.cos(), angle.sin())
}

fn scalar_to_complex(s: &Scalar) -> Complex64 {
    match s {
        Scalar::Zero => Complex64::new(0.0, 0.0),
        Scalar::NonZero { phase, r } => {
            let norm = 2.0_f64.powf(-(*r as f64) / 2.0);
            phase_to_complex(phase.to_int()) * norm
        }
    }
}

fn statevector(state: &StabilizerCHForm) -> Vec<Complex64> {
    state.to_statevector().iter().map(scalar_to_complex).collect()
}

fn assert_eq_complex_vec(a: &[Complex64], b: &[Complex64]) {
    assert_eq!(a.len(), b.len(), "Vectors have different lengths.");
    for (i, (x, y)) in a.iter().zip(b.iter()).enumerate() {
        let diff = (x - y).norm();
        assert!(
            diff <= 1e-8,
            "Vectors differ at index {}: |{} - {}| = {} > {}",
            i,
            x,
            y,
            diff,
            1e-8
        );
    }
}

#[test]
fn test_hadamard() {
    let mut ch_form = StabilizerCHForm::new(1);
    ch_form.apply_h(0).unwrap();

    let statevec = statevector(&ch_form);
    println!("Statevector after H: {:?}", statevec);
    let expected = vec![
        Complex64::new(1.0 / 2f64.sqrt(), 0.0),
        Complex64::new(1.0 / 2f64.sqrt(), 0.0),
    ];
    assert_eq_complex_vec(&statevec, &expected);
}

#[test]
fn test_bell_state() {
    let mut ch_form = StabilizerCHForm::new(2);
    ch_form.apply_h(0).unwrap();
    ch_form.apply_cx(0, 1).unwrap();

    let statevec = statevector(&ch_form);
    let expected = vec![
        Complex64::new(1.0 / 2f64.sqrt(), 0.0),
        Complex64::new(0.0, 0.0),
        Complex64::new(0.0, 0.0),
        Complex64::new(1.0 / 2f64.sqrt(), 0.0),
    ];
    assert_eq_complex_vec(&statevec, &expected);
}

#[test]
fn test_hadamard_behaviour() {
    let mut ch_form = StabilizerCHForm::new(1);
    ch_form.apply_h(0).unwrap();

    let statevec = statevector(&ch_form);
    println!("Statevector after H: {:?}", statevec);
    let expected = vec![
        Complex64::new(1.0 / 2f64.sqrt(), 0.0),
        Complex64::new(1.0 / 2f64.sqrt(), 0.0),
    ];
    assert_eq_complex_vec(&statevec, &expected);
}

#[test]
fn test_bell_state_with_cz() {
    // On H(0)|00>, a CZ acts trivially, so the state stays an equal
    // superposition of |00> and |10>.
    let mut plain = StabilizerCHForm::new(2);
    plain.apply_h(0).unwrap();
    plain.apply_cz(0, 1).unwrap();
    let statevec = statevector(&plain);
    let expected = vec![
        Complex64::new(1.0 / 2f64.sqrt(), 0.0),
        Complex64::new(1.0 / 2f64.sqrt(), 0.0),
        Complex64::new(0.0, 0.0),
        Complex64::new(0.0, 0.0),
    ];
    assert_eq_complex_vec(&statevec, &expected);

    // Conjugating the CZ by H on the target turns it into a CX, so
    // H(0), H(1), CZ(0,1), H(1) builds the Bell state.
    let mut ch_form = StabilizerCHForm::new(2);
    ch_form.apply_h(0).unwrap();
    ch_form.apply_h(1).unwrap();
    ch_form.apply_cz(0, 1).unwrap();
    ch_form.apply_h(1).unwrap();
    let bell = statevector(&ch_form);
    let expected_bell = vec![
        Complex64::new(1.0 / 2f64.sqrt(), 0.0),
        Complex64::new(0.0, 0.0),
        Complex64::new(0.0, 0.0),
        Complex64::new(1.0 / 2f64.sqrt(), 0.0),
    ];
    assert_eq_complex_vec(&bell, &expected_bell);
}
