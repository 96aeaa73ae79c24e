use vstd::prelude::*;
use vstd::string::StringExecFns;
use crate::text::{text, push_decimal, decimal};

verus! {

/// Why the host runtime failed.
#[derive(Debug, Clone)]
pub enum HostError {
    /// The guest reported an execution failure with this message.
    GuestExecution(String),
    /// Execution consumed more gas than its limit.
    GasExhausted {
        /// Gas consumed before the limit was hit.
        consumed: u64,
        /// The limit that was exceeded.
        limit: u64,
    },
    /// Execution reached the instruction ceiling.
    InstructionCeiling {
        /// Instructions run before the ceiling was hit.
        count: u64,
        /// The ceiling that was reached.
        ceiling: u64,
    },
    /// A native contract call failed with this message.
    NativeContractError(String),
    /// The PolkaVM engine failed with this message.
    PolkaVm(String),
    /// The guest's result could not be decoded.
    DecodeError(String),
    /// A memory operation failed.
    MemoryError(String),
    /// An encoding step failed.
    SerializationError(String),
    /// The built-in host callback is disabled in release builds.
    BuiltinDisabled,
    /// Any other failure, with its message.
    Other(String),
}

/// The message of an error, as its display form reads.
pub open spec fn host_error_text(e: HostError) -> Seq<char> {
    match e {
        HostError::GuestExecution(m) => "guest execution failed: "@ + m@,
        HostError::GasExhausted { consumed, limit } => "gas exhausted: consumed "@ + decimal(consumed) + ", limit "@
            + decimal(limit),
        HostError::InstructionCeiling { count, ceiling } => "instruction ceiling reached: "@ + decimal(count) + "/"@
            + decimal(ceiling),
        HostError::NativeContractError(m) => "native contract execution failed: "@ + m@,
        HostError::PolkaVm(m) => "PolkaVM error: "@ + m@,
        HostError::DecodeError(m) => "failed to decode result: "@ + m@,
        HostError::MemoryError(m) => "memory error: "@ + m@,
        HostError::SerializationError(m) => "serialization error: "@ + m@,
        HostError::BuiltinDisabled => "builtin host callback is disabled in release builds"@,
        HostError::Other(m) => m@,
    }
}

impl HostError {
    /// The message of the error.
    pub fn message(&self) -> (r: String)
        ensures
            r@ == host_error_text(*self),
    {
        match self {
            HostError::GuestExecution(m) => {
                let mut s = text("guest execution failed: ");
                s.append(m.as_str());
                s
            },
            HostError::GasExhausted { consumed, limit } => {
                let mut s = text("gas exhausted: consumed ");
                push_decimal(&mut s, *consumed);
                s.append(", limit ");
                push_decimal(&mut s, *limit);
                s
            },
            HostError::InstructionCeiling { count, ceiling } => {
                let mut s = text("instruction ceiling reached: ");
                push_decimal(&mut s, *count);
                s.append("/");
                push_decimal(&mut s, *ceiling);
                s
            },
            HostError::NativeContractError(m) => {
                let mut s = text("native contract execution failed: ");
                s.append(m.as_str());
                s
            },
            HostError::PolkaVm(m) => {
                let mut s = text("PolkaVM error: ");
                s.append(m.as_str());
                s
            },
            HostError::DecodeError(m) => {
                let mut s = text("failed to decode result: ");
                s.append(m.as_str());
                s
            },
            HostError::MemoryError(m) => {
                let mut s = text("memory error: ");
                s.append(m.as_str());
                s
            },
            HostError::SerializationError(m) => {
                let mut s = text("serialization error: ");
                s.append(m.as_str());
                s
            },
            HostError::BuiltinDisabled => text("builtin host callback is disabled in release builds"),
            HostError::Other(m) => m.clone(),
        }
    }
}

impl From<String> for HostError {
    fn from(s: String) -> (r: HostError) {
        HostError::Other(s)
    }
}

impl vstd::std_specs::convert::FromSpecImpl<String> for HostError {
    open spec fn obeys_from_spec() -> bool {
        true
    }

    open spec fn from_spec(s: String) -> HostError {
        HostError::Other(s)
    }
}

} // verus!
