//! Verified decision logic of a NeoVM runtime hosted on PolkaVM: operand rules, integer and
//! modular arithmetic, the retained-stack codec, the built-in storage cache and syscalls,
//! fee and gas accounting, and the stack items exchanged with syscalls and the host adapter.

pub mod stack_value;
pub mod storage;
pub mod retained;
pub mod text;
pub mod pricing;
pub mod abi;
pub mod interop;
pub mod syscalls;
pub mod bridge;
pub mod integer;
pub mod compound;
pub mod values;
pub mod native;
pub mod execution;
pub mod error;
pub mod profiling;
pub mod modular;
pub mod guest_abi;
pub mod render;
