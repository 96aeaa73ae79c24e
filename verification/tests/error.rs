use neo_riscv_vm::error::HostError;
use neo_riscv_vm::profiling::{get_current_memory, get_peak_memory, reset};

#[test]
fn host_error_messages_match_their_display_forms() {
    assert_eq!(HostError::GuestExecution("bad".to_string()).message(), "guest execution failed: bad");
    assert_eq!(
        HostError::GasExhausted { consumed: 120, limit: 100 }.message(),
        "gas exhausted: consumed 120, limit 100"
    );
    assert_eq!(
        HostError::InstructionCeiling { count: 7, ceiling: 7 }.message(),
        "instruction ceiling reached: 7/7"
    );
    assert_eq!(
        HostError::NativeContractError("x".to_string()).message(),
        "native contract execution failed: x"
    );
    assert_eq!(HostError::PolkaVm("trap".to_string()).message(), "PolkaVM error: trap");
    assert_eq!(HostError::DecodeError("eof".to_string()).message(), "failed to decode result: eof");
    assert_eq!(HostError::MemoryError("oob".to_string()).message(), "memory error: oob");
    assert_eq!(HostError::SerializationError("s".to_string()).message(), "serialization error: s");
    assert_eq!(HostError::BuiltinDisabled.message(), "builtin host callback is disabled in release builds");
    assert_eq!(HostError::Other("plain".to_string()).message(), "plain");
}

#[test]
fn host_error_from_string_is_other() {
    let e: HostError = HostError::from("some failure".to_string());
    assert!(matches!(e, HostError::Other(ref m) if m == "some failure"));
    assert_eq!(e.message(), "some failure");
}

#[test]
fn memory_counters_stay_zero() {
    assert_eq!(get_peak_memory(), 0);
    assert_eq!(get_current_memory(), 0);
    reset();
    assert_eq!(get_peak_memory(), 0);
    assert_eq!(get_current_memory(), 0);
}
