use neo_riscv_vm::compound::CompoundIds;
use neo_riscv_vm::render::debug_text;
use neo_riscv_vm::stack_value::StackValue;
use neo_riscv_vm::values::convert_value;

#[test]
fn debug_text_spells_each_variant() {
    assert_eq!(debug_text(&StackValue::Integer(-5)), "Integer(-5)");
    assert_eq!(debug_text(&StackValue::Integer(i64::MIN)), "Integer(-9223372036854775808)");
    assert_eq!(debug_text(&StackValue::BigInteger(vec![])), "BigInteger([])");
    assert_eq!(debug_text(&StackValue::ByteString(vec![1, 255])), "ByteString([1, 255])");
    assert_eq!(debug_text(&StackValue::Boolean(false)), "Boolean(false)");
    assert_eq!(debug_text(&StackValue::Pointer(12)), "Pointer(12)");
    assert_eq!(debug_text(&StackValue::Buffer(2, vec![7])), "Buffer(2, [7])");
    assert_eq!(debug_text(&StackValue::Interop(9)), "Interop(9)");
    assert_eq!(debug_text(&StackValue::Iterator(10)), "Iterator(10)");
    assert_eq!(debug_text(&StackValue::Null), "Null");
    assert_eq!(
        debug_text(&StackValue::Array(1, vec![StackValue::Null, StackValue::Struct(4, vec![])])),
        "Array(1, [Null, Struct(4, [])])"
    );
    assert_eq!(
        debug_text(&StackValue::Dictionary(3, vec![
            (StackValue::Integer(1), StackValue::Null),
            (StackValue::ByteString(vec![0]), StackValue::Boolean(true)),
        ])),
        "Map(3, [(Integer(1), Null), (ByteString([0]), Boolean(true))])"
    );
}

#[test]
fn convert_errors_show_the_map_name() {
    let mut ids = CompoundIds::new();
    assert_eq!(
        convert_value(0x28, StackValue::Dictionary(3, vec![]), &mut ids),
        Err("unsupported CONVERT source for ByteString: Map(3, [])".to_string())
    );
}
