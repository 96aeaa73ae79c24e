use neo_riscv_vm::abi::{AbiStackValue, ExecutionResult, VmState};
use neo_riscv_vm::native::{
    copy_native_host_result, copy_native_stack_items, serialize_stack_items, settle_host_callback, write_err_result,
    write_ok_result, NativeHostResult, NativeStackItem, NATIVE_KIND_ARRAY, NATIVE_KIND_BIG_INTEGER,
    NATIVE_KIND_BOOLEAN, NATIVE_KIND_BYTE_STRING, NATIVE_KIND_INTEGER, NATIVE_KIND_INTEROP, NATIVE_KIND_ITERATOR,
    NATIVE_KIND_MAP, NATIVE_KIND_NULL, NATIVE_KIND_POINTER, NATIVE_KIND_STRUCT, VM_STATE_FAULT, VM_STATE_HALT,
};

fn scalar(kind: u32, value: i64) -> NativeStackItem {
    NativeStackItem { kind, integer_value: value, bytes: Vec::new(), items: Vec::new() }
}

fn sample_stack() -> Vec<AbiStackValue> {
    vec![
        AbiStackValue::Integer(-5),
        AbiStackValue::BigInteger(vec![1, 2, 3]),
        AbiStackValue::ByteString(b"neo".to_vec()),
        AbiStackValue::Boolean(true),
        AbiStackValue::Pointer(12),
        AbiStackValue::Array(vec![AbiStackValue::Null, AbiStackValue::Integer(1)]),
        AbiStackValue::Struct(vec![AbiStackValue::Boolean(false)]),
        AbiStackValue::Dictionary(vec![(AbiStackValue::Integer(1), AbiStackValue::ByteString(vec![9]))]),
        AbiStackValue::Interop(77),
        AbiStackValue::Iterator(78),
        AbiStackValue::Null,
    ]
}

#[test]
fn serialize_gives_each_item_its_kind_and_payload() {
    let items = serialize_stack_items(&sample_stack());
    let kinds: Vec<u32> = items.iter().map(|i| i.kind).collect();
    assert_eq!(
        kinds,
        vec![
            NATIVE_KIND_INTEGER,
            NATIVE_KIND_BIG_INTEGER,
            NATIVE_KIND_BYTE_STRING,
            NATIVE_KIND_BOOLEAN,
            NATIVE_KIND_POINTER,
            NATIVE_KIND_ARRAY,
            NATIVE_KIND_STRUCT,
            NATIVE_KIND_MAP,
            NATIVE_KIND_INTEROP,
            NATIVE_KIND_ITERATOR,
            NATIVE_KIND_NULL,
        ]
    );
    assert_eq!(items[0].integer_value, -5);
    assert_eq!(items[1].bytes, vec![1, 2, 3]);
    assert_eq!(items[2].bytes, b"neo".to_vec());
    assert_eq!(items[3].integer_value, 1);
    assert_eq!(items[4].integer_value, 12);
    assert_eq!(items[5].items.len(), 2);
    assert_eq!(items[7].items.len(), 2);
    assert_eq!(items[7].items[1].bytes, vec![9]);
    assert_eq!(items[8].integer_value, 77);
    assert_eq!(items[9].integer_value, 78);
}

#[test]
fn native_items_read_back_as_written() {
    let stack = sample_stack();
    let items = serialize_stack_items(&stack);
    assert_eq!(copy_native_stack_items(&items), Ok(stack));
}

#[test]
fn native_map_with_odd_entries_is_refused() {
    let map = NativeStackItem {
        kind: NATIVE_KIND_MAP,
        integer_value: 0,
        bytes: Vec::new(),
        items: vec![scalar(NATIVE_KIND_INTEGER, 1)],
    };
    assert_eq!(
        copy_native_stack_items(&[map]),
        Err("map stack item contains an odd number of entries".to_string())
    );
}

#[test]
fn native_unknown_kind_is_refused() {
    assert_eq!(
        copy_native_stack_items(&[scalar(NATIVE_KIND_NULL, 0), scalar(11, 0)]),
        Err("unsupported native stack item kind 11".to_string())
    );
    let nested = NativeStackItem {
        kind: NATIVE_KIND_ARRAY,
        integer_value: 0,
        bytes: Vec::new(),
        items: vec![scalar(42, 0)],
    };
    assert_eq!(copy_native_stack_items(&[nested]), Err("unsupported native stack item kind 42".to_string()));
}

#[test]
fn native_boolean_reads_any_nonzero_as_true() {
    assert_eq!(
        copy_native_stack_items(&[scalar(NATIVE_KIND_BOOLEAN, 7), scalar(NATIVE_KIND_BOOLEAN, 0)]),
        Ok(vec![AbiStackValue::Boolean(true), AbiStackValue::Boolean(false)])
    );
}

#[test]
fn host_result_error_wins_over_its_stack() {
    let result = NativeHostResult {
        stack: vec![scalar(NATIVE_KIND_INTEGER, 1)],
        error: Some("denied".to_string()),
    };
    assert_eq!(copy_native_host_result(&result).unwrap_err(), "denied");
    let ok = NativeHostResult { stack: vec![scalar(NATIVE_KIND_INTEGER, 3)], error: None };
    assert_eq!(copy_native_host_result(&ok).unwrap().stack, vec![AbiStackValue::Integer(3)]);
}

#[test]
fn settle_host_callback_names_the_syscall_when_not_invoked() {
    let result = NativeHostResult { stack: Vec::new(), error: None };
    assert_eq!(
        settle_host_callback(false, 0x2a, &result).unwrap_err(),
        "host callback invocation failed for syscall 0x0000002a"
    );
    assert_eq!(settle_host_callback(true, 0x2a, &result).unwrap().stack, Vec::<AbiStackValue>::new());
}

#[test]
fn write_ok_and_err_results() {
    let result = ExecutionResult {
        fee_consumed_pico: 5,
        state: VmState::Halt,
        stack: vec![AbiStackValue::Integer(9)],
        fault_message: None,
        fault_ip: None,
        fault_locals: None,
    };
    let ok = write_ok_result(&result, 1234);
    assert_eq!(ok.fee_consumed_pico, 1234);
    assert_eq!(ok.state, VM_STATE_HALT);
    assert_eq!(ok.stack.len(), 1);
    assert_eq!(ok.stack[0].integer_value, 9);
    assert!(ok.error.is_none());

    let err = write_err_result("boom".to_string(), 77);
    assert_eq!(err.fee_consumed_pico, 77);
    assert_eq!(err.state, VM_STATE_FAULT);
    assert!(err.stack.is_empty());
    assert_eq!(err.error.as_deref(), Some("boom"));
}
