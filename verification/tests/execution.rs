use neo_riscv_vm::abi::{AbiStackValue, ExecutionResult, VmState};
use neo_riscv_vm::execution::{
    align_up_u32, builtin_aux_size, check_result_size, native_aux_size, native_failure_message, native_method_id,
    native_fallback_stack, required_aux_size, settle_execution, MAX_RESULT_SIZE,
};

fn result(state: VmState, fault_message: Option<&str>) -> ExecutionResult {
    ExecutionResult {
        fee_consumed_pico: 0,
        state,
        stack: vec![AbiStackValue::Integer(1)],
        fault_message: fault_message.map(|m| m.to_string()),
        fault_ip: Some(3),
        fault_locals: None,
    }
}

#[test]
fn align_up_rounds_to_multiples_and_saturates() {
    assert_eq!(align_up_u32(0, 8), 0);
    assert_eq!(align_up_u32(1, 8), 8);
    assert_eq!(align_up_u32(8, 8), 8);
    assert_eq!(align_up_u32(9, 8), 16);
    assert_eq!(align_up_u32(10, 3), 12);
    assert_eq!(align_up_u32(u32::MAX, 8), u32::MAX);
    assert_eq!(align_up_u32(u32::MAX - 3, 8), u32::MAX);
}

#[test]
fn required_aux_size_is_aligned_script_plus_stack() {
    assert_eq!(required_aux_size(0, 0), 0);
    assert_eq!(required_aux_size(0, 5), 5);
    assert_eq!(required_aux_size(3, 0), 8);
    assert_eq!(required_aux_size(9, 4), 20);
    assert_eq!(required_aux_size(u32::MAX, 10), u32::MAX);
}

#[test]
fn native_and_builtin_aux_sizes() {
    assert_eq!(builtin_aux_size(0), Ok(0));
    assert_eq!(builtin_aux_size(13), Ok(16));
    assert_eq!(native_aux_size(10, 6), Ok(32));
    assert_eq!(native_aux_size(0, 0), Ok(16));
    if usize::BITS > 32 {
        let too_large = (u32::MAX as usize) + 1;
        assert_eq!(builtin_aux_size(too_large), Err("native contract stack too large".to_string()));
        assert_eq!(native_aux_size(too_large - 16, 0), Err("native contract stack too large".to_string()));
    }
}

#[test]
fn native_method_id_is_fnv1a() {
    assert_eq!(native_method_id(""), 2166136261);
    assert_eq!(native_method_id("a"), 0xe40c292c);
    assert_eq!(native_method_id("foobar"), 0xbf9cf968);
    assert_ne!(native_method_id("balanceOf"), native_method_id("transfer"));
}

#[test]
fn check_result_size_refuses_past_the_maximum() {
    assert_eq!(check_result_size(0, true), Ok(()));
    assert_eq!(check_result_size(MAX_RESULT_SIZE, true), Ok(()));
    assert_eq!(
        check_result_size(MAX_RESULT_SIZE + 1, true),
        Err("guest result size 16777217 exceeds maximum 16777216".to_string())
    );
    assert_eq!(
        check_result_size(MAX_RESULT_SIZE + 1, false),
        Err("native result size 16777217 exceeds maximum 16777216".to_string())
    );
}

#[test]
fn settle_execution_sets_fee_and_surfaces_faults() {
    let halted = settle_execution(Ok(result(VmState::Halt, None)), 42, &None).unwrap();
    assert_eq!(halted.fee_consumed_pico, 42);
    assert_eq!(halted.state, VmState::Halt);
    assert_eq!(halted.stack, vec![AbiStackValue::Integer(1)]);
    assert_eq!(halted.fault_ip, Some(3));

    let charged = Some("charge failed".to_string());
    assert_eq!(
        settle_execution(Ok(result(VmState::Fault, Some("guest fault"))), 1, &charged).unwrap_err(),
        "charge failed"
    );
    assert_eq!(
        settle_execution(Ok(result(VmState::Fault, Some("guest fault"))), 1, &None).unwrap_err(),
        "guest fault"
    );
    let bare_fault = settle_execution(Ok(result(VmState::Fault, None)), 9, &None).unwrap();
    assert_eq!(bare_fault.state, VmState::Fault);
    assert_eq!(bare_fault.fee_consumed_pico, 9);
    assert_eq!(settle_execution(Err("trap".to_string()), 1, &charged).unwrap_err(), "trap");
    let halted_with_charge = settle_execution(Ok(result(VmState::Halt, None)), 5, &charged).unwrap();
    assert_eq!(halted_with_charge.state, VmState::Halt);
}

#[test]
fn native_failure_message_prefers_the_metered_charge() {
    let host = Some("host refused".to_string());
    assert_eq!(
        native_failure_message(Some("metered".to_string()), true, &host),
        Some("metered".to_string())
    );
    assert_eq!(native_failure_message(None, true, &host), Some("Insufficient GAS.".to_string()));
    assert_eq!(native_failure_message(None, false, &host), Some("host refused".to_string()));
    assert_eq!(native_failure_message(None, false, &None), None);
}

#[test]
fn fallback_stack_puts_the_method_name_first() {
    let stack = vec![AbiStackValue::Integer(4), AbiStackValue::Array(vec![AbiStackValue::Null])];
    assert_eq!(
        native_fallback_stack("transfer", &stack),
        vec![
            AbiStackValue::ByteString(b"transfer".to_vec()),
            AbiStackValue::Integer(4),
            AbiStackValue::Array(vec![AbiStackValue::Null]),
        ]
    );
    assert_eq!(native_fallback_stack("", &[]), vec![AbiStackValue::ByteString(vec![])]);
}
