use neo_riscv_vm::compound::CompoundIds;
use neo_riscv_vm::guest_abi::{apply_abi_stack, complete_syscall, finish_syscall, syscall_arguments, to_abi_stack, to_abi_value, GuestAbiValue};
use neo_riscv_vm::stack_value::StackValue;

fn nested_value() -> StackValue {
    StackValue::Struct(
        7,
        vec![
            StackValue::Array(3, vec![StackValue::Integer(1), StackValue::Pointer(12)]),
            StackValue::Dictionary(4, vec![(StackValue::ByteString(vec![1]), StackValue::Buffer(5, vec![9, 9]))]),
            StackValue::Null,
        ],
    )
}

#[test]
fn to_abi_value_drops_identities() {
    assert_eq!(
        to_abi_value(&nested_value()),
        GuestAbiValue::Struct(vec![
            GuestAbiValue::Array(vec![GuestAbiValue::Integer(1), GuestAbiValue::Pointer(12)]),
            GuestAbiValue::Dictionary(vec![(GuestAbiValue::ByteString(vec![1]), GuestAbiValue::Buffer(vec![9, 9]))]),
            GuestAbiValue::Null,
        ])
    );
    assert_eq!(to_abi_value(&StackValue::Interop(5)), GuestAbiValue::Interop(5));
    assert_eq!(to_abi_value(&StackValue::Boolean(true)), GuestAbiValue::Boolean(true));
}

#[test]
fn import_abi_gives_fresh_identities_children_first() {
    let mut ids = CompoundIds::new();
    let imported = ids.import_abi(to_abi_value(&nested_value()));
    assert_eq!(
        imported,
        StackValue::Struct(
            3,
            vec![
                StackValue::Array(0, vec![StackValue::Integer(1), StackValue::Pointer(12)]),
                StackValue::Dictionary(2, vec![(StackValue::ByteString(vec![1]), StackValue::Buffer(1, vec![9, 9]))]),
                StackValue::Null,
            ],
        )
    );
    assert_eq!(to_abi_value(&imported), to_abi_value(&nested_value()));
}

#[test]
fn export_then_import_matches_deep_clone() {
    let mut a = CompoundIds::new();
    let mut b = CompoundIds::new();
    let via_abi = a.import_abi(to_abi_value(&nested_value()));
    let cloned = b.deep_clone(&nested_value());
    assert_eq!(via_abi, cloned);
}

#[test]
fn apply_abi_stack_replaces_the_stack() {
    let mut ids = CompoundIds::new();
    let mut stack = vec![StackValue::Integer(1), StackValue::Integer(2)];
    let handed = to_abi_stack(&[StackValue::Array(9, vec![]), StackValue::ByteString(vec![3])]);
    assert_eq!(handed, vec![GuestAbiValue::Array(vec![]), GuestAbiValue::ByteString(vec![3])]);
    apply_abi_stack(&mut stack, handed, &mut ids);
    assert_eq!(stack, vec![StackValue::Array(0, vec![]), StackValue::ByteString(vec![3])]);
}

#[test]
fn syscall_takes_the_top_arguments_and_pushes_its_results() {
    let mut stack = vec![StackValue::Integer(1), StackValue::Integer(2), StackValue::Array(4, vec![])];
    let (keep, args) = syscall_arguments(&stack, 2);
    assert_eq!(keep, 1);
    assert_eq!(args, vec![GuestAbiValue::Integer(2), GuestAbiValue::Array(vec![])]);
    let (keep_all, all) = syscall_arguments(&stack, 10);
    assert_eq!(keep_all, 0);
    assert_eq!(all.len(), 3);

    let mut ids = CompoundIds::new();
    complete_syscall(&mut stack, keep, vec![GuestAbiValue::Struct(vec![GuestAbiValue::Null])], &mut ids);
    assert_eq!(stack, vec![StackValue::Integer(1), StackValue::Struct(0, vec![StackValue::Null])]);
}

#[test]
fn a_failed_syscall_leaves_the_stack_alone() {
    let mut stack = vec![StackValue::Integer(1), StackValue::Integer(2)];
    let mut ids = CompoundIds::new();
    let (keep, _args) = syscall_arguments(&stack, 1);
    assert_eq!(finish_syscall(&mut stack, keep, Err("denied".to_string()), &mut ids), Err("denied".to_string()));
    assert_eq!(stack, vec![StackValue::Integer(1), StackValue::Integer(2)]);
    assert_eq!(finish_syscall(&mut stack, keep, Ok(vec![GuestAbiValue::Array(vec![])]), &mut ids), Ok(()));
    assert_eq!(stack, vec![StackValue::Integer(1), StackValue::Array(0, vec![])]);
}
