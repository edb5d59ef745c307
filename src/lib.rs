//! Steane [[7,1,3]] error-correction layer over a stabilizer simulator.
//!
//! Each logical qubit is encoded in seven physical qubits; six shared
//! ancillae carry the syndrome of one block at a time.
use vstd::prelude::*;

pub mod ops;
pub mod code;
pub mod backend;
pub mod layer;
pub mod pauli;
pub mod correction;

pub use ops::{Gate, LogicalOp, LogicalOps, PhysOp, Syndrome};
pub use code::{required_physical_qubits, push_recovery, push_syndrome_circuit};
pub use backend::Simulator;
pub use layer::{SteaneBuffer, SteaneLayer, SyndromeReport};

verus! {

} // verus!
