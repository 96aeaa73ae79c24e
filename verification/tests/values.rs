use neo_riscv_vm::compound::CompoundIds;
use neo_riscv_vm::integer::ShiftValue;
use neo_riscv_vm::stack_value::StackValue;
use neo_riscv_vm::values::{
    boolean_value, compute_jump_target_offset, convert_value, integer_value_for_collection_index,
    integer_value_for_equality, item_to_boolean_strict, num_equal, numeric_value, peek_item, pop_boolean, pop_bytes,
    pop_integer, pop_integer_pair_allowing_null_false, pop_item, pop_numeric_value, pop_optional_integer_for_comparison,
    pop_shift_count, pop_shift_value, primitive_key_equals, read_offset, stack_item_to_bytes, validate_map_key,
    vm_equal, Offset,
};

#[test]
fn pops_and_underflow() {
    let mut stack = vec![StackValue::Integer(3), StackValue::Boolean(true)];
    assert_eq!(peek_item(&stack), Ok(StackValue::Boolean(true)));
    assert_eq!(pop_integer(&mut stack), Ok(1));
    assert_eq!(pop_item(&mut stack), Ok(StackValue::Integer(3)));
    assert_eq!(pop_item(&mut stack), Err("stack underflow".to_string()));
    assert_eq!(peek_item(&stack), Err("stack underflow".to_string()));
    let mut other = vec![StackValue::Null];
    assert_eq!(pop_integer(&mut other), Err("expected integer on stack".to_string()));
    assert!(other.is_empty());
}

#[test]
fn comparison_operands() {
    let mut stack = vec![StackValue::Integer(4), StackValue::Integer(9)];
    assert_eq!(pop_integer_pair_allowing_null_false(&mut stack), Ok(Some((4, 9))));
    let mut nulls = vec![StackValue::Null, StackValue::Null];
    assert_eq!(pop_integer_pair_allowing_null_false(&mut nulls), Ok(Some((0, 0))));
    let mut mixed = vec![StackValue::Integer(1), StackValue::Null];
    assert_eq!(pop_integer_pair_allowing_null_false(&mut mixed), Ok(None));
    let mut bad = vec![StackValue::ByteString(vec![1])];
    assert_eq!(pop_optional_integer_for_comparison(&mut bad), Err("expected integer on stack".to_string()));
}

#[test]
fn numeric_readings() {
    let mut stack = vec![StackValue::Buffer(1, vec![0xff]), StackValue::ByteString(vec![2, 1])];
    assert_eq!(pop_numeric_value(&mut stack), Ok(258));
    assert_eq!(pop_shift_count(&mut stack), Ok(-1));
    let mut shifts = vec![StackValue::Null, StackValue::BigInteger(vec![5])];
    assert!(matches!(pop_shift_value(&mut shifts), Ok(ShiftValue::ByteString(5))));
    assert!(matches!(pop_shift_value(&mut shifts), Ok(ShiftValue::Integer(0))));
    assert_eq!(numeric_value(&StackValue::Pointer(1)), Err("expected numeric-compatible value".to_string()));
    assert_eq!(integer_value_for_equality(&StackValue::Boolean(true)), Ok(1));
    assert_eq!(
        integer_value_for_collection_index(&StackValue::Buffer(0, vec![1])),
        Err("expected integer-compatible collection index".to_string())
    );
    assert_eq!(
        pop_numeric_value(&mut vec![StackValue::ByteString(vec![0; 9])]),
        Err("integer-compatible byte string too large".to_string())
    );
}

#[test]
fn equality_rules() {
    assert_eq!(num_equal(&StackValue::Integer(1), &StackValue::Boolean(true)), Ok(true));
    assert_eq!(num_equal(&StackValue::Null, &StackValue::Integer(0)), Ok(true));
    assert_eq!(num_equal(&StackValue::ByteString(vec![1]), &StackValue::ByteString(vec![1])), Ok(true));
    assert_eq!(
        num_equal(&StackValue::ByteString(vec![1]), &StackValue::Integer(1)),
        Err("NUMEQUAL expects primitive numeric or byte string values".to_string())
    );
    assert!(primitive_key_equals(&StackValue::ByteString(vec![1, 2]), &StackValue::ByteString(vec![1, 2])));
    assert!(!primitive_key_equals(&StackValue::Integer(1), &StackValue::Boolean(true)));
}

#[test]
fn vm_equal_compares_structs_item_by_item() {
    let a = StackValue::Struct(1, vec![StackValue::Integer(1), StackValue::Struct(2, vec![StackValue::Null])]);
    let b = StackValue::Struct(5, vec![StackValue::BigInteger(vec![1]), StackValue::Struct(6, vec![StackValue::Null])]);
    let c = StackValue::Struct(7, vec![StackValue::Integer(1), StackValue::Struct(8, vec![StackValue::Boolean(false)])]);
    assert!(vm_equal(&a, &b));
    assert!(!vm_equal(&a, &c));
    assert!(vm_equal(&StackValue::Array(3, vec![]), &StackValue::Array(3, vec![StackValue::Null])));
    assert!(!vm_equal(&StackValue::Array(3, vec![]), &StackValue::Array(4, vec![])));
    assert!(!vm_equal(&StackValue::Struct(1, vec![]), &StackValue::Struct(2, vec![StackValue::Null])));
    assert!(vm_equal(&StackValue::Integer(-1), &StackValue::BigInteger(vec![0xff])));
    assert!(!vm_equal(&StackValue::Integer(1), &StackValue::ByteString(vec![1])));
}

#[test]
fn truth_readings() {
    assert_eq!(boolean_value(&StackValue::ByteString(vec![0, 0])), Ok(false));
    assert_eq!(boolean_value(&StackValue::Buffer(1, vec![0])), Ok(true));
    let mut stack = vec![StackValue::Buffer(1, vec![0])];
    assert_eq!(pop_boolean(&mut stack), Ok(false));
    assert_eq!(item_to_boolean_strict(&StackValue::ByteString(vec![0; 33])), Err("integer size exceeds maximum".to_string()));
    assert_eq!(item_to_boolean_strict(&StackValue::BigInteger(vec![0, 1])), Ok(true));
    assert_eq!(item_to_boolean_strict(&StackValue::Interop(1)), Ok(true));
}

#[test]
fn map_keys_and_bytes() {
    assert_eq!(validate_map_key(&StackValue::ByteString(vec![0; 64])), Ok(()));
    assert_eq!(validate_map_key(&StackValue::ByteString(vec![0; 65])), Err("map key exceeds maximum size".to_string()));
    assert_eq!(validate_map_key(&StackValue::Array(1, vec![])), Err("map key must be primitive".to_string()));
    assert_eq!(stack_item_to_bytes(StackValue::Integer(256)), Ok(vec![0, 1]));
    assert_eq!(stack_item_to_bytes(StackValue::Boolean(true)), Ok(vec![1]));
    assert_eq!(stack_item_to_bytes(StackValue::Null), Ok(vec![]));
    assert_eq!(
        stack_item_to_bytes(StackValue::Pointer(0)),
        Err("expected byte string-compatible item on stack".to_string())
    );
    let mut stack: Vec<StackValue> = vec![];
    assert_eq!(pop_bytes(&mut stack), Err("stack underflow".to_string()));
}

#[test]
fn convert_between_types() {
    let mut ids = CompoundIds::new();
    assert_eq!(convert_value(0x20, StackValue::Integer(2), &mut ids), Ok(StackValue::Boolean(true)));
    assert_eq!(convert_value(0x21, StackValue::ByteString(vec![1, 1]), &mut ids), Ok(StackValue::Integer(257)));
    assert_eq!(convert_value(0x28, StackValue::Integer(-1), &mut ids), Ok(StackValue::ByteString(vec![0xff])));
    assert_eq!(convert_value(0x30, StackValue::ByteString(vec![7]), &mut ids), Ok(StackValue::Buffer(0, vec![7])));
    assert_eq!(
        convert_value(0x40, StackValue::Struct(9, vec![StackValue::Null]), &mut ids),
        Ok(StackValue::Array(1, vec![StackValue::Null]))
    );
    assert_eq!(convert_value(0x41, StackValue::Array(4, vec![]), &mut ids), Ok(StackValue::Struct(2, vec![])));
    assert_eq!(convert_value(0x99, StackValue::Null, &mut ids), Err("unsupported CONVERT target 0x99".to_string()));
    assert_eq!(convert_value(0x48, StackValue::Null, &mut ids), Ok(StackValue::Null));
    assert_eq!(
        convert_value(0x60, StackValue::Integer(1), &mut ids),
        Err("unsupported CONVERT source for Interop: Integer(1)".to_string())
    );
}

#[test]
fn jump_operands() {
    let script = [0x22, 0xfe, 0x23, 0x10, 0x00, 0x00, 0x80];
    assert_eq!(read_offset(&script, 0, &Offset::Short, "JMP"), Ok((-2, 2)));
    assert_eq!(read_offset(&script, 2, &Offset::Long, "JMP"), Ok((i32::MIN as isize + 0x10, 5)));
    assert_eq!(read_offset(&script, 6, &Offset::Short, "JMP"), Err("truncated JMP operand".to_string()));
    assert_eq!(read_offset(&script, 3, &Offset::Long, "CALL"), Err("truncated CALL_L operand".to_string()));
    assert_eq!(compute_jump_target_offset(4, -4, 7, "JMP"), Ok(0));
    assert_eq!(compute_jump_target_offset(4, 3, 7, "JMP"), Ok(7));
    assert_eq!(compute_jump_target_offset(4, 4, 7, "JMP"), Err("JMP target out of bounds".to_string()));
    assert_eq!(compute_jump_target_offset(4, -5, 7, "JMP"), Err("JMP target out of bounds".to_string()));
}
