use neo_riscv_vm::retained::{
    decode_retained_prefix, decode_retained_prefix_into, encode_retained_prefix_to_slice, RetainedError,
    MAX_RETAINED_COLLECTION_LEN,
};
use neo_riscv_vm::stack_value::StackValue;

#[test]
fn retained_prefix_codec_round_trips_nested_compound_ids() {
    let shared_buffer = StackValue::Buffer(7, b"value".to_vec());
    let stack = vec![
        shared_buffer.clone(),
        StackValue::Array(
            11,
            vec![
                shared_buffer.clone(),
                StackValue::Struct(
                    12,
                    vec![
                        StackValue::Dictionary(13, vec![(shared_buffer.clone(), StackValue::Integer(5))]),
                        StackValue::Null,
                    ],
                ),
            ],
        ),
    ];

    let mut buf = vec![0u8; 1024];
    let len = encode_retained_prefix_to_slice(&stack, &mut buf)
        .expect("retained prefix should encode into the scratch buffer");
    let decoded = decode_retained_prefix(&buf[..len]).expect("retained prefix should decode from the scratch buffer");

    assert_eq!(decoded, stack);
}

#[test]
fn retained_prefix_codec_rejects_oversized_top_level_stack() {
    let stack = vec![StackValue::Null; MAX_RETAINED_COLLECTION_LEN + 1];
    let mut buf = vec![0u8; 1024];

    let err = encode_retained_prefix_to_slice(&stack, &mut buf).expect_err("oversized retained prefixes must be rejected");

    assert_eq!(err, "collection length exceeds maximum");
}

#[test]
fn retained_prefix_round_trips_every_scalar_kind() {
    let stack = vec![
        StackValue::Integer(-2),
        StackValue::Integer(i64::MIN),
        StackValue::BigInteger(vec![1, 2, 3, 0x80]),
        StackValue::ByteString(vec![]),
        StackValue::Boolean(true),
        StackValue::Boolean(false),
        StackValue::Pointer(42),
        StackValue::Interop(u64::MAX),
        StackValue::Iterator(9),
        StackValue::Buffer(3, vec![0xff; 10]),
        StackValue::Null,
    ];
    let mut buf = vec![0u8; 256];
    let len = encode_retained_prefix_to_slice(&stack, &mut buf).unwrap();
    assert_eq!(decode_retained_prefix(&buf[..len]).unwrap(), stack);
}

#[test]
fn retained_prefix_encoding_layout_is_tag_then_payload() {
    let stack = vec![StackValue::Integer(1), StackValue::Null, StackValue::Boolean(true)];
    let mut buf = vec![0xEEu8; 20];
    let len = encode_retained_prefix_to_slice(&stack, &mut buf).unwrap();
    assert_eq!(len, 4 + 9 + 1 + 2);
    assert_eq!(&buf[..len], &[3, 0, 0, 0, 0x01, 1, 0, 0, 0, 0, 0, 0, 0, 0x0A, 0x04, 1]);
    assert_eq!(&buf[len..], &[0xEE; 4]);
}

#[test]
fn retained_prefix_rejects_too_small_buffers() {
    let mut tiny = vec![0u8; 3];
    assert_eq!(encode_retained_prefix_to_slice(&[], &mut tiny), Err("retained prefix buffer too small".to_string()));
    let mut small = vec![0u8; 8];
    assert_eq!(
        encode_retained_prefix_to_slice(&[StackValue::Integer(1)], &mut small),
        Err("retained prefix buffer too small".to_string())
    );
}

#[test]
fn retained_prefix_decode_errors() {
    assert_eq!(decode_retained_prefix(&[1, 0]), Err("truncated retained prefix length".to_string()));
    assert_eq!(decode_retained_prefix(&[1, 0, 0, 0]), Err("truncated retained prefix tag".to_string()));
    assert_eq!(decode_retained_prefix(&[1, 0, 0, 0, 0x01, 1]), Err("truncated retained prefix".to_string()));
    assert_eq!(decode_retained_prefix(&[1, 0, 0, 0, 0x03, 5, 0, 0, 0, 1]), Err("truncated retained prefix bytes".to_string()));
    assert_eq!(decode_retained_prefix(&[1, 0, 0, 0, 0x7f]), Err("invalid retained prefix tag 0x7f".to_string()));
    assert_eq!(decode_retained_prefix(&[0, 0, 0, 0, 0x0A]), Err("retained prefix has trailing bytes".to_string()));
    assert_eq!(decode_retained_prefix(&[0x01, 0x10, 0, 0]), Err("collection length exceeds maximum".to_string()));
    assert_eq!(decode_retained_prefix(&[0, 0, 0, 0]), Ok(vec![]));
}

#[test]
fn retained_prefix_decode_rejects_excessive_nesting() {
    let mut bytes = vec![1, 0, 0, 0];
    for _ in 0..66 {
        bytes.push(0x05);
        bytes.extend_from_slice(&[0; 8]);
        bytes.extend_from_slice(&[1, 0, 0, 0]);
    }
    bytes.push(0x0A);
    assert_eq!(decode_retained_prefix(&bytes), Err("decode depth exceeds maximum".to_string()));
}

#[test]
fn retained_prefix_into_replaces_and_keeps_on_early_errors() {
    let mut stack = vec![StackValue::Integer(9)];
    assert!(decode_retained_prefix_into(&[1, 0], &mut stack).is_err());
    assert_eq!(stack, vec![StackValue::Integer(9)]);

    assert!(decode_retained_prefix_into(&[1, 0, 0, 0, 0x7f], &mut stack).is_err());
    assert!(stack.is_empty());

    decode_retained_prefix_into(&[1, 0, 0, 0, 0x0A], &mut stack).unwrap();
    assert_eq!(stack, vec![StackValue::Null]);

    // Values decoded before a failure stay on the stack.
    assert_eq!(
        decode_retained_prefix_into(&[2, 0, 0, 0, 0x0A, 0x7f], &mut stack),
        Err("invalid retained prefix tag 0x7f".to_string())
    );
    assert_eq!(stack, vec![StackValue::Null]);
    assert_eq!(
        decode_retained_prefix_into(&[1, 0, 0, 0, 0x0A, 0x0A], &mut stack),
        Err("retained prefix has trailing bytes".to_string())
    );
    assert_eq!(stack, vec![StackValue::Null]);
}

#[test]
fn retained_error_messages() {
    assert_eq!(RetainedError::InvalidTag(0xab).message(), "invalid retained prefix tag 0xab");
    assert_eq!(RetainedError::LengthExceedsU32.message(), "retained prefix length exceeds u32");
    assert_eq!(RetainedError::PointerOutOfRange.message(), "pointer out of range");
}

#[test]
fn any_byte_after_an_encoded_stack_is_refused() {
    let stack = vec![StackValue::Integer(3), StackValue::Array(1, vec![StackValue::Null])];
    let mut buf = vec![0u8; 256];
    let len = encode_retained_prefix_to_slice(&stack, &mut buf).unwrap();
    for extra in [0u8, 0x0A, 0xff] {
        let mut bytes = buf[..len].to_vec();
        bytes.push(extra);
        assert_eq!(decode_retained_prefix(&bytes), Err("retained prefix has trailing bytes".to_string()));
    }
}

#[test]
fn a_stack_nested_past_the_decoder_limit_encodes_but_does_not_decode() {
    let mut value = StackValue::Null;
    for id in 0..66u64 {
        value = StackValue::Array(id, vec![value]);
    }
    let mut buf = vec![0u8; 4096];
    let len = encode_retained_prefix_to_slice(&[value], &mut buf).unwrap();
    assert_eq!(decode_retained_prefix(&buf[..len]), Err("decode depth exceeds maximum".to_string()));
}
