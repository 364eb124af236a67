//! Error type shared by every fallible engine operation.

use vstd::prelude::*;
use vstd::string::StringExecFns;

verus! {

/// Everything a graph, planner, verifier or backend call can fail with.
/// Failures are surfaced to the caller, never swallowed and never retried.
#[derive(Debug)]
pub enum GPError {
    /// Two shapes that had to agree did not; carries both, with their
    /// element counts.
    IncompatibleShapes { expected: Vec<usize>, found: Vec<usize>, exp_len: usize, found_len: usize },
    /// A tensor is not in the storage an operation expects.
    DeviceMismatch(String),
    /// A malformed tensor was handed in or produced.
    TensorError(String),
    /// The backend refused or failed a kernel call.
    BackendError(String),
    /// `execute` or `backward` was invoked before a backend was attached,
    /// typically right after deserialization.
    BackendNotInitialized,
    /// The persisted form of a graph could not be produced or read back.
    SerializationError(String),
    /// A structural fault found while scheduling or executing: a cycle, a
    /// missing input value, an out-of-range node.
    InferenceError(String),
    /// The engine was asked for an operation it does not provide.
    NotImplemented(String),
    Unknown(String),
}

impl GPError {
    /// A human-readable description of the failure.
    pub fn message(&self) -> String {
        match self {
            GPError::IncompatibleShapes { .. } => {
                String::from_str("Shape mismatch: incompatible shapes")
            },
            GPError::DeviceMismatch(s) => {
                String::from_str("Device mismatch: ").concat(s.as_str())
            },
            GPError::TensorError(s) => String::from_str("Tensor error: ").concat(s.as_str()),
            GPError::BackendError(s) => String::from_str("Backend error: ").concat(s.as_str()),
            GPError::BackendNotInitialized => {
                String::from_str("Backend not initialized. Call set_backend() before execution.")
            },
            GPError::SerializationError(s) => {
                String::from_str("Serialization error: ").concat(s.as_str())
            },
            GPError::InferenceError(s) => {
                String::from_str("Inference error: ").concat(s.as_str())
            },
            GPError::NotImplemented(s) => {
                String::from_str("Operation not implemented: ").concat(s.as_str())
            },
            GPError::Unknown(s) => String::from_str("Unknown error: ").concat(s.as_str()),
        }
    }
}

pub type GPResult<T> = Result<T, GPError>;

/// Renders a number in decimal, for building failure descriptions without a
/// formatting machine.
pub fn decimal_string(n: usize) -> (r: String) {
    if n == 0 {
        return String::from_str("0");
    }
    let mut digits: Vec<u8> = Vec::new();
    let mut val: usize = n;
    while val > 0
        invariant
            digits@.len() >= 1 || val >= 1,
        decreases val,
    {
        let d = (val % 10) as u8;
        proof {
            assert(val / 10 < val) by (nonlinear_arith)
                requires
                    val >= 1,
            ;
        }
        digits.push(d);
        val = val / 10;
    }
    let mut out = String::from_str("");
    let mut i: usize = digits.len();
    while i > 0
        invariant
            i <= digits@.len(),
        decreases i,
    {
        i = i - 1;
        let piece = match digits[i] {
            0u8 => "0",
            1u8 => "1",
            2u8 => "2",
            3u8 => "3",
            4u8 => "4",
            5u8 => "5",
            6u8 => "6",
            7u8 => "7",
            8u8 => "8",
            _ => "9",
        };
        out.append(piece);
    }
    out
}

} // verus!
