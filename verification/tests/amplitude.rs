use num_complex::Complex64;
use stabilizer_ch_form::{PhaseFactor, Scalar, StabilizerCHForm};

const EPSILON: f64 = 1e-15;

fn phase_to_complex(k: u8) -> Complex64 {
    let angle = (k as f64) * std::f64::consts::FRAC_PI_4;
    Complex64::new(angle.cos(), angle.sin())
}

fn scalar_to_complex(s: &Scalar) -> Complex64 {
    match s {
        Scalar::Zero => Complex64::new(0.0, 0.0),
        Scalar::NonZero { phase, r } => {
            let norm = 2.0_f64.powf(-(*r as f64) / 2.0);
            phase_to_complex(phase.to_int()) * norm
        }
    }
}

fn complex_approx_eq(a: Complex64, b: Complex64) -> bool {
    (a.re - b.re).abs() < EPSILON && (a.im - b.im).abs() < EPSILON
}

#[test]
fn test_amplitude_to_complex() {
    let amp1 = Scalar::Zero;
    assert!(complex_approx_eq(
        scalar_to_complex(&amp1),
        Complex64::new(0.0, 0.0)
    ));

    let amp2 = Scalar::NonZero {
        phase: PhaseFactor::plus_one(),
        r: 0,
    };
    assert!(complex_approx_eq(
        scalar_to_complex(&amp2),
        Complex64::new(1.0, 0.0)
    ));

    let amp3 = Scalar::NonZero {
        phase: PhaseFactor::plus_i(),
        r: 1,
    };
    assert!(complex_approx_eq(
        scalar_to_complex(&amp3),
        Complex64::new(0.0, 1.0 / (2f64).sqrt())
    ));

    let amp4 = Scalar::NonZero {
        phase: PhaseFactor::minus_one(),
        r: 2,
    };
    assert!(complex_approx_eq(
        scalar_to_complex(&amp4),
        Complex64::new(-1.0 / 2.0, 0.0)
    ));

    let amp5 = Scalar::NonZero {
        phase: PhaseFactor::minus_i(),
        r: 3,
    };
    assert!(complex_approx_eq(
        scalar_to_complex(&amp5),
        Complex64::new(0.0, -1.0 / (2f64 * 2f64.sqrt()))
    ));
}

#[test]
fn test_phase_factor_arithmetic() {
    let i = PhaseFactor::plus_i();
    assert_eq!(i.mul(i).to_int(), 4);
    assert_eq!(i.mul(i).mul(i).mul(i).to_int(), 0);
    assert_eq!(i.conjugated().to_int(), 6);
    assert_eq!(PhaseFactor::plus_one().conjugated().to_int(), 0);
    assert_eq!(PhaseFactor::minus_one().flipped().to_int(), 0);
    assert_eq!(PhaseFactor::new(13).to_int(), 5);
    assert_eq!(PhaseFactor::exp_i_pi_4().mul(PhaseFactor::exp_i_7pi_4()).to_int(), 0);

    let mut p = PhaseFactor::exp_i_pi_4();
    p.conjugate_mut();
    assert_eq!(p.to_int(), 7);
    p.flip_sign();
    assert_eq!(p.to_int(), 3);
}

#[test]
fn test_scalar_multiplication() {
    let a = Scalar::NonZero {
        phase: PhaseFactor::plus_i(),
        r: 1,
    };
    let b = Scalar::NonZero {
        phase: PhaseFactor::minus_i(),
        r: 2,
    };
    assert_eq!(
        a.mul(b),
        Scalar::NonZero {
            phase: PhaseFactor::plus_one(),
            r: 3,
        }
    );
    assert_eq!(a.mul(Scalar::Zero), Scalar::Zero);
    assert_eq!(
        a.mul_phase(PhaseFactor::plus_i()),
        Scalar::NonZero {
            phase: PhaseFactor::minus_one(),
            r: 1,
        }
    );
}

#[test]
fn test_amplitudes_of_plus_state() {
    let mut state = StabilizerCHForm::new(2);
    state.apply_h(0).unwrap();
    state.apply_h(1).unwrap();

    assert_eq!(
        state.amplitude_at_zero(),
        Scalar::NonZero {
            phase: PhaseFactor::plus_one(),
            r: 2,
        }
    );
    let bits = vec![true, true];
    assert_eq!(
        state.amplitude_at_computational_basis(&bits),
        Ok(Scalar::NonZero {
            phase: PhaseFactor::plus_one(),
            r: 2,
        })
    );
    let wrong_len = vec![true];
    assert_eq!(
        state.amplitude_at_computational_basis(&wrong_len),
        Err(stabilizer_ch_form::SimError::InvalidArgument)
    );
}
