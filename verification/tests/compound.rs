use neo_riscv_vm::compound::{
    compound_id, contains_compound_id, find_affected_indices, propagate_update, replace_alias, CompoundIds,
};
use neo_riscv_vm::stack_value::StackValue;

#[test]
fn compound_ids_are_handed_out_in_order() {
    let mut ids = CompoundIds::new();
    let a = ids.array(vec![StackValue::Integer(1)]);
    let s = ids.struct_value(vec![]);
    let m = ids.dictionary(vec![]);
    let b = ids.buffer(vec![1, 2]);
    assert_eq!(compound_id(&a), Some(0));
    assert_eq!(compound_id(&s), Some(1));
    assert_eq!(compound_id(&m), Some(2));
    assert_eq!(compound_id(&b), Some(3));
    assert_eq!(compound_id(&StackValue::Integer(7)), None);
    assert_eq!(compound_id(&StackValue::Null), None);
}

#[test]
fn contains_compound_id_looks_at_every_depth() {
    let inner = StackValue::Buffer(9, vec![1]);
    let nested = StackValue::Array(1, vec![StackValue::Struct(2, vec![inner])]);
    assert!(contains_compound_id(&nested, 1));
    assert!(contains_compound_id(&nested, 2));
    assert!(contains_compound_id(&nested, 9));
    assert!(!contains_compound_id(&nested, 3));
    let map = StackValue::Dictionary(4, vec![(StackValue::Integer(1), StackValue::Array(5, vec![]))]);
    assert!(contains_compound_id(&map, 5));
    assert!(!contains_compound_id(&StackValue::Integer(5), 5));
}

#[test]
fn find_affected_indices_lists_positions_in_order() {
    let stack = vec![
        StackValue::Array(1, vec![]),
        StackValue::Integer(1),
        StackValue::Struct(2, vec![StackValue::Array(1, vec![])]),
        StackValue::Array(3, vec![]),
    ];
    assert_eq!(find_affected_indices(1, &stack), vec![0, 2]);
    assert_eq!(find_affected_indices(3, &stack), vec![3]);
    assert_eq!(find_affected_indices(8, &stack), Vec::<usize>::new());
}

#[test]
fn replace_alias_swaps_every_copy_of_the_item() {
    let updated = StackValue::Array(1, vec![StackValue::Integer(42)]);
    let mut target = StackValue::Struct(
        2,
        vec![StackValue::Array(1, vec![]), StackValue::Integer(3), StackValue::Array(7, vec![])],
    );
    replace_alias(&mut target, &updated);
    assert_eq!(
        target,
        StackValue::Struct(
            2,
            vec![
                StackValue::Array(1, vec![StackValue::Integer(42)]),
                StackValue::Integer(3),
                StackValue::Array(7, vec![]),
            ],
        )
    );
}

#[test]
fn propagate_update_refreshes_selected_stack_items_locals_and_statics() {
    let updated = StackValue::Array(1, vec![StackValue::Integer(5)]);
    let mut stack = vec![StackValue::Array(1, vec![]), StackValue::Array(1, vec![])];
    let mut locals = vec![StackValue::Struct(3, vec![StackValue::Array(1, vec![])])];
    let mut statics = vec![StackValue::Array(1, vec![]), StackValue::Integer(0)];
    let indices = [1usize, 9usize];
    propagate_update(&updated, &mut stack, &mut locals, &mut statics, Some(&indices[..]));
    assert_eq!(stack[0], StackValue::Array(1, vec![]));
    assert_eq!(stack[1], updated);
    assert_eq!(locals[0], StackValue::Struct(3, vec![StackValue::Array(1, vec![StackValue::Integer(5)])]));
    assert_eq!(statics[0], updated);
    assert_eq!(statics[1], StackValue::Integer(0));

    let mut all = vec![StackValue::Array(1, vec![]), StackValue::Integer(2)];
    let mut no_locals: Vec<StackValue> = Vec::new();
    let mut no_statics: Vec<StackValue> = Vec::new();
    propagate_update(&updated, &mut all, &mut no_locals, &mut no_statics, None);
    assert_eq!(all[0], updated);
    assert_eq!(all[1], StackValue::Integer(2));
}

#[test]
fn deep_clone_gives_fresh_identities_children_first() {
    let mut ids = CompoundIds::new();
    let _ = ids.array(vec![]);
    let _ = ids.array(vec![]);
    let original = StackValue::Struct(
        0,
        vec![StackValue::Array(1, vec![StackValue::Integer(4)]), StackValue::ByteString(vec![1, 2])],
    );
    let copy = ids.deep_clone(&original);
    assert_eq!(
        copy,
        StackValue::Struct(
            3,
            vec![StackValue::Array(2, vec![StackValue::Integer(4)]), StackValue::ByteString(vec![1, 2])],
        )
    );
    let next = ids.array(vec![]);
    assert_eq!(compound_id(&next), Some(4));
}

#[test]
fn clone_struct_for_storage_copies_only_structs() {
    let mut ids = CompoundIds::new();
    let array = StackValue::Array(10, vec![StackValue::Integer(1)]);
    assert_eq!(ids.clone_struct_for_storage(&array), array);
    let st = StackValue::Struct(11, vec![StackValue::Boolean(true)]);
    assert_eq!(ids.clone_struct_for_storage(&st), StackValue::Struct(0, vec![StackValue::Boolean(true)]));
    let next = ids.buffer(vec![]);
    assert_eq!(compound_id(&next), Some(1));
}
