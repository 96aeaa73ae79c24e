use neo_riscv_vm::bridge::{
    extract_last_bytestring, extract_last_two_bytestrings, host_storage_contains, host_storage_contains_small32,
    host_storage_get, host_storage_put, host_storage_put_and_contains_small32, read_u32, read_u8, skip_value,
    try_handle_builtin_storage_syscall, BuiltinResponse, STORAGE_MISSING, STORAGE_TOO_LARGE,
};
use neo_riscv_vm::interop::{
    RUNTIME_PLATFORM, STORAGE_DELETE, STORAGE_FIND, STORAGE_GET, STORAGE_GET_CONTEXT, STORAGE_LOCAL_GET,
    STORAGE_PUT,
};
use neo_riscv_vm::storage::BuiltinStorage;

fn bytes_item(b: &[u8]) -> Vec<u8> {
    let mut out = vec![0x03];
    out.extend_from_slice(&(b.len() as u32).to_le_bytes());
    out.extend_from_slice(b);
    out
}

fn stack(items: &[Vec<u8>]) -> Vec<u8> {
    let mut out = (items.len() as u32).to_le_bytes().to_vec();
    for item in items {
        out.extend_from_slice(item);
    }
    out
}

#[test]
fn interop_hashes_are_truncated_sha256_of_the_name() {
    assert_eq!(RUNTIME_PLATFORM, 0xf6fc79b2);
    assert_eq!(STORAGE_GET, 0x31e85d92);
}

#[test]
fn readers_stop_at_the_end() {
    assert_eq!(read_u8(&[7, 8], 1), Some((8, 2)));
    assert_eq!(read_u8(&[7, 8], 2), None);
    assert_eq!(read_u32(&[1, 2, 3, 4, 5], 1), Some(0x05040302));
    assert_eq!(read_u32(&[1, 2, 3], 0), None);
}

#[test]
fn skip_value_walks_every_kind() {
    let integer = [0x01, 0, 0, 0, 0, 0, 0, 0, 0];
    assert_eq!(skip_value(&integer, 0), Some(9));
    let boolean = [0x04, 1];
    assert_eq!(skip_value(&boolean, 0), Some(2));
    assert_eq!(skip_value(&[0x0A], 0), Some(1));
    let bytes = bytes_item(&[1, 2, 3]);
    assert_eq!(skip_value(&bytes, 0), Some(8));
    let mut array = vec![0x05, 2, 0, 0, 0];
    array.extend_from_slice(&bytes);
    array.push(0x0A);
    assert_eq!(skip_value(&array, 0), Some(array.len()));
    let mut map = vec![0x07, 1, 0, 0, 0];
    map.extend_from_slice(&bytes);
    map.extend_from_slice(&[0x04, 0]);
    assert_eq!(skip_value(&map, 0), Some(map.len()));
    assert_eq!(skip_value(&[0xEE], 0), None);
    assert_eq!(skip_value(&[0x03, 9, 0, 0, 0, 1], 0), None);
}

#[test]
fn last_byte_strings_are_found_at_top_level_only() {
    let mut nested = vec![0x05, 1, 0, 0, 0];
    nested.extend_from_slice(&bytes_item(b"inner"));
    let raw = stack(&[bytes_item(b"key"), nested.clone(), vec![0x0A], bytes_item(b"value"), nested]);
    assert_eq!(extract_last_bytestring(&raw), Some(&b"value"[..]));
    assert_eq!(extract_last_two_bytestrings(&raw), Some((b"key".to_vec(), b"value".to_vec())));

    let one = stack(&[bytes_item(b"only")]);
    assert_eq!(extract_last_bytestring(&one), Some(&b"only"[..]));
    assert_eq!(extract_last_two_bytestrings(&one), None);
    assert_eq!(extract_last_bytestring(&stack(&[vec![0x0A]])), None);
    assert_eq!(extract_last_bytestring(&[1, 0]), None);
    assert_eq!(extract_last_bytestring(&stack(&[vec![0x99]])), None);
}

#[test]
fn storage_syscalls_write_read_and_delete() {
    let mut storage = BuiltinStorage::new();
    assert_eq!(
        try_handle_builtin_storage_syscall(STORAGE_GET_CONTEXT, &[], &mut storage),
        Some(BuiltinResponse::OkInt1)
    );
    let put = stack(&[bytes_item(b"k"), bytes_item(b"v1")]);
    assert_eq!(try_handle_builtin_storage_syscall(STORAGE_PUT, &put, &mut storage), Some(BuiltinResponse::OkEmpty));
    let get = stack(&[vec![0x0A], bytes_item(b"k")]);
    assert_eq!(
        try_handle_builtin_storage_syscall(STORAGE_GET, &get, &mut storage),
        Some(BuiltinResponse::OkByteString(b"v1".to_vec()))
    );
    assert_eq!(
        try_handle_builtin_storage_syscall(STORAGE_LOCAL_GET, &get, &mut storage),
        Some(BuiltinResponse::OkByteString(b"v1".to_vec()))
    );
    assert_eq!(try_handle_builtin_storage_syscall(STORAGE_DELETE, &get, &mut storage), Some(BuiltinResponse::OkEmpty));
    assert_eq!(try_handle_builtin_storage_syscall(STORAGE_GET, &get, &mut storage), Some(BuiltinResponse::OkNull));
    assert_eq!(try_handle_builtin_storage_syscall(STORAGE_FIND, &get, &mut storage), Some(BuiltinResponse::OkNull));
    assert_eq!(try_handle_builtin_storage_syscall(RUNTIME_PLATFORM, &get, &mut storage), None);
    assert_eq!(try_handle_builtin_storage_syscall(STORAGE_PUT, &get, &mut storage), None);
    assert_eq!(try_handle_builtin_storage_syscall(STORAGE_GET, &stack(&[]), &mut storage), None);
}

#[test]
fn fixed_answers_have_fixed_encodings() {
    assert_eq!(BuiltinResponse::OkEmpty.fixed_bytes(), Some(vec![2]));
    assert_eq!(BuiltinResponse::OkNull.fixed_bytes(), Some(vec![5]));
    assert_eq!(BuiltinResponse::OkInt1.fixed_bytes(), Some(vec![3, 1, 0, 0, 0, 0, 0, 0, 0]));
    assert_eq!(BuiltinResponse::OkByteString(vec![1]).fixed_bytes(), None);
}

#[test]
fn storage_imports_answer_codes() {
    let mut storage = BuiltinStorage::new();
    assert_eq!(host_storage_get(&mut storage, b"k", 10), (STORAGE_MISSING, None));
    assert_eq!(host_storage_put(&mut storage, b"k", b"value"), 1);
    assert_eq!(host_storage_get(&mut storage, b"k", 10), (5, Some(b"value".to_vec())));
    assert_eq!(host_storage_get(&mut storage, b"k", 4), (STORAGE_TOO_LARGE, None));
    assert_eq!(host_storage_contains(&mut storage, b"k"), 1);
    assert_eq!(host_storage_contains(&mut storage, b"x"), 0);
}

#[test]
fn small_word_imports_read_the_low_bytes() {
    let mut storage = BuiltinStorage::new();
    assert_eq!(host_storage_put_and_contains_small32(&mut storage, 0x0403_0201, 2, 0xAABB_CCDD, 1), 1);
    assert_eq!(storage.get(&[0x01, 0x02]), Some(&[0xDD][..]));
    assert_eq!(host_storage_contains_small32(&mut storage, 0xFFFF_0201, 2), 1);
    assert_eq!(host_storage_contains_small32(&mut storage, 0x0201, 3), 0);
    assert_eq!(host_storage_contains_small32(&mut storage, 0x0201, 5), 0);
    assert_eq!(host_storage_put_and_contains_small32(&mut storage, 1, 5, 1, 1), 0);
}

#[test]
fn small_put_is_taken_whenever_a_slot_has_room() {
    let mut storage = BuiltinStorage::new();
    for i in 0..16u32 {
        assert_eq!(host_storage_put_and_contains_small32(&mut storage, i, 1, i, 1), 1);
    }
    assert_eq!(host_storage_put_and_contains_small32(&mut storage, 0x99, 1, 1, 1), 0);
    assert_eq!(host_storage_put_and_contains_small32(&mut storage, 3, 1, 7, 1), 1);
}
