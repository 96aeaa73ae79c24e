use neo_riscv_vm::abi::AbiStackValue;
use neo_riscv_vm::interop::{
    CONTRACT_GET_CALL_FLAGS, CRYPTO_CHECK_SIG, ITERATOR_NEXT, RUNTIME_GAS_LEFT, RUNTIME_GET_NETWORK,
    RUNTIME_GET_NOTIFICATIONS, RUNTIME_GET_RANDOM, RUNTIME_GET_TIME, RUNTIME_GET_TRIGGER, RUNTIME_LOG,
    RUNTIME_PLATFORM, STORAGE_GET, STORAGE_GET_CONTEXT, CONTRACT_CREATE_STANDARD_ACCOUNT,
};
use neo_riscv_vm::pricing::RuntimeContext;
use neo_riscv_vm::syscalls::builtin_host_callback;

fn ctx(timestamp: Option<u64>) -> RuntimeContext {
    RuntimeContext { trigger: 0x40, network: 860833102, address_version: 53, timestamp, gas_left: 777, exec_fee_factor_pico: 1 }
}

fn answer(api: u32, timestamp: Option<u64>) -> Result<Vec<AbiStackValue>, String> {
    builtin_host_callback(true, api, ctx(timestamp), &[]).map(|r| r.stack)
}

#[test]
fn builtin_callback_answers_from_the_context() {
    assert_eq!(answer(RUNTIME_PLATFORM, None), Ok(vec![AbiStackValue::ByteString(b"NEO".to_vec())]));
    assert_eq!(answer(RUNTIME_GET_TRIGGER, None), Ok(vec![AbiStackValue::Integer(0x40)]));
    assert_eq!(answer(RUNTIME_GET_NETWORK, None), Ok(vec![AbiStackValue::Integer(860833102)]));
    assert_eq!(answer(RUNTIME_GAS_LEFT, None), Ok(vec![AbiStackValue::Integer(777)]));
    assert_eq!(answer(RUNTIME_GET_TIME, Some(1234)), Ok(vec![AbiStackValue::Integer(1234)]));
    assert_eq!(answer(RUNTIME_GET_TIME, None), Err("GetTime requires a persisting block timestamp".to_string()));
}

#[test]
fn builtin_callback_neutral_answers() {
    assert_eq!(answer(STORAGE_GET, None), Ok(vec![AbiStackValue::Null]));
    assert_eq!(answer(STORAGE_GET_CONTEXT, None), Ok(vec![AbiStackValue::Integer(1)]));
    assert_eq!(answer(RUNTIME_LOG, None), Ok(vec![]));
    assert_eq!(answer(RUNTIME_GET_RANDOM, None), Ok(vec![AbiStackValue::Integer(42)]));
    assert_eq!(answer(RUNTIME_GET_NOTIFICATIONS, None), Ok(vec![AbiStackValue::Array(vec![])]));
    assert_eq!(answer(CRYPTO_CHECK_SIG, None), Ok(vec![AbiStackValue::Boolean(true)]));
    assert_eq!(answer(ITERATOR_NEXT, None), Ok(vec![AbiStackValue::Boolean(false)]));
    assert_eq!(answer(CONTRACT_GET_CALL_FLAGS, None), Ok(vec![AbiStackValue::Integer(0x0f)]));
    assert_eq!(answer(CONTRACT_CREATE_STANDARD_ACCOUNT, None), Ok(vec![AbiStackValue::ByteString(vec![0; 20])]));
}

#[test]
fn builtin_callback_refuses_unknown_services() {
    assert_eq!(answer(0x0000_00ab, None), Err("unsupported syscall 0x000000ab".to_string()));
    assert_eq!(answer(0xdead_beef, None), Err("unsupported syscall 0xdeadbeef".to_string()));
}

#[test]
fn builtin_table_refuses_every_call_when_disabled() {
    for api in [RUNTIME_PLATFORM, STORAGE_GET, STORAGE_GET_CONTEXT, 0x1234_5678] {
        assert_eq!(
            builtin_host_callback(false, api, ctx(Some(1)), &[]).map(|r| r.stack),
            Err("builtin host callback is disabled in release builds".to_string())
        );
    }
}
