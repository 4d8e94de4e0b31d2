//! Stabilizer-state simulator in the CH form.
//!
//! A stabilizer state on `n` qubits is held as boolean matrices `G`, `F`, `M`,
//! a vector `gamma` of discrete phases, boolean vectors `v` and `s`, and two
//! global phases, all updated in place by Clifford gates, measurement and
//! structural operations in polynomial time.

pub mod circuit;
pub mod error;
pub mod laws;
pub mod model;
pub mod parser;
pub mod phase_factor;
pub mod scalar;
pub mod state;

pub use circuit::{CliffordCircuit, CliffordGate, QuantumCircuit, QuantumGate};
pub use error::SimError;
pub use parser::from_qasm_str;
pub use phase_factor::PhaseFactor;
pub use scalar::Scalar;
pub use state::inner::InternalGate;
pub use state::measure::QubitState;
pub use state::StabilizerCHForm;
