use neo_riscv_vm::integer::{
    bigint_or_integer, bitwise_result, bitwise_signed_bytes, bytes_to_integer, decode_signed_le_bytes,
    encode_integer, shift_left, trim_le_bytes, trim_le_bytes_slice, BitOp, ShiftValue,
};
use neo_riscv_vm::stack_value::StackValue;

#[test]
fn encode_integer_is_shortest_twos_complement() {
    assert_eq!(encode_integer(0), Vec::<u8>::new());
    assert_eq!(encode_integer(1), vec![1]);
    assert_eq!(encode_integer(127), vec![0x7f]);
    assert_eq!(encode_integer(128), vec![0x80, 0x00]);
    assert_eq!(encode_integer(255), vec![0xff, 0x00]);
    assert_eq!(encode_integer(256), vec![0x00, 0x01]);
    assert_eq!(encode_integer(-1), vec![0xff]);
    assert_eq!(encode_integer(-128), vec![0x80]);
    assert_eq!(encode_integer(-129), vec![0x7f, 0xff]);
    assert_eq!(encode_integer(i64::MAX), vec![0xff, 0xff, 0xff, 0xff, 0xff, 0xff, 0xff, 0x7f]);
    assert_eq!(encode_integer(i64::MIN), vec![0, 0, 0, 0, 0, 0, 0, 0x80]);
}

#[test]
fn integer_encoding_round_trips() {
    for v in [0i64, 1, -1, 127, 128, -128, -129, 255, 256, 65535, -65536, i64::MAX, i64::MIN, 1 << 40, -(1 << 40)] {
        let bytes = encode_integer(v);
        assert_eq!(decode_signed_le_bytes(&bytes), Ok(v));
        assert_eq!(bytes_to_integer(&bytes), v);
    }
}

#[test]
fn decode_signed_le_bytes_extends_the_sign() {
    assert_eq!(decode_signed_le_bytes(&[]), Ok(0));
    assert_eq!(decode_signed_le_bytes(&[0xff]), Ok(-1));
    assert_eq!(decode_signed_le_bytes(&[0xff, 0x00]), Ok(255));
    assert_eq!(decode_signed_le_bytes(&[0x00, 0x80]), Ok(-32768));
    assert_eq!(
        decode_signed_le_bytes(&[0; 9]),
        Err("integer-compatible byte string too large".to_string())
    );
}

#[test]
fn bytes_to_integer_keeps_low_eight_bytes() {
    assert_eq!(bytes_to_integer(&[]), 0);
    assert_eq!(bytes_to_integer(&[1, 0, 0, 0, 0, 0, 0, 0, 0xff]), 1);
    assert_eq!(bytes_to_integer(&[0xff; 9]), -1);
}

#[test]
fn trim_drops_redundant_sign_bytes() {
    assert_eq!(trim_le_bytes(vec![]), Vec::<u8>::new());
    assert_eq!(trim_le_bytes(vec![1, 0, 0]), vec![1]);
    assert_eq!(trim_le_bytes(vec![0x80, 0, 0]), vec![0x80, 0]);
    assert_eq!(trim_le_bytes(vec![0xff, 0xff]), vec![0xff]);
    assert_eq!(trim_le_bytes(vec![0x7f, 0xff]), vec![0x7f, 0xff]);
    assert_eq!(trim_le_bytes_slice(&[0, 0, 0]), vec![0]);
}

#[test]
fn bigint_or_integer_picks_by_length() {
    assert_eq!(bigint_or_integer(vec![5, 0, 0]), StackValue::Integer(5));
    let big = vec![1, 2, 3, 4, 5, 6, 7, 8, 9];
    assert_eq!(bigint_or_integer(big.clone()), StackValue::BigInteger(big));
}

#[test]
fn bitwise_bytes_sign_extend_the_shorter_operand() {
    assert_eq!(bitwise_signed_bytes(&[], &[], BitOp::Xor), Ok(vec![0]));
    assert_eq!(bitwise_signed_bytes(&[0xff], &[0x0f, 0x01], BitOp::And), Ok(vec![0x0f, 0x01]));
    assert_eq!(bitwise_signed_bytes(&[0x01], &[0x00, 0x01], BitOp::Or), Ok(vec![0x01, 0x01]));
    assert_eq!(
        bitwise_signed_bytes(&[0; 33], &[0], BitOp::And),
        Err("bitwise operand exceeds supported size".to_string())
    );
}

#[test]
fn bitwise_result_on_each_kind() {
    assert_eq!(bitwise_result(&StackValue::Integer(12), &StackValue::Integer(10), BitOp::And), Ok(StackValue::Integer(8)));
    assert_eq!(bitwise_result(&StackValue::Integer(12), &StackValue::Integer(10), BitOp::Or), Ok(StackValue::Integer(14)));
    assert_eq!(bitwise_result(&StackValue::Integer(-1), &StackValue::Integer(5), BitOp::Xor), Ok(StackValue::Integer(-6)));
    assert_eq!(bitwise_result(&StackValue::Boolean(true), &StackValue::Boolean(false), BitOp::Or), Ok(StackValue::Integer(1)));
    assert_eq!(bitwise_result(&StackValue::Null, &StackValue::Null, BitOp::And), Ok(StackValue::Integer(0)));
    assert_eq!(
        bitwise_result(&StackValue::ByteString(vec![0x0f]), &StackValue::ByteString(vec![0x3c]), BitOp::And),
        Ok(StackValue::Integer(0x0c))
    );
    assert_eq!(
        bitwise_result(&StackValue::Integer(1), &StackValue::Null, BitOp::And),
        Err("bitwise op expects matching integer, boolean, or byte string types".to_string())
    );
}

#[test]
fn shifts() {
    assert_eq!(shift_left(5, 0), Ok(5));
    assert_eq!(shift_left(5, 2), Ok(20));
    assert_eq!(shift_left(1, 63), Ok(i64::MIN));
    assert_eq!(shift_left(0, 64), Ok(0));
    assert_eq!(shift_left(3, 64), Err("integer overflow for SHL".to_string()));
    assert_eq!(ShiftValue::Integer(3).shift_left(1), Ok(StackValue::Integer(6)));
    assert_eq!(ShiftValue::ByteString(3).shift_left(7), Ok(StackValue::ByteString(vec![0x80, 0x01])));
    assert_eq!(ShiftValue::Integer(-8).shift_right(1), StackValue::Integer(-4));
    assert_eq!(ShiftValue::Integer(-8).shift_right(70), StackValue::Integer(-1));
    assert_eq!(ShiftValue::Integer(8).shift_right(70), StackValue::Integer(0));
    assert_eq!(ShiftValue::ByteString(256).shift_right(8), StackValue::ByteString(vec![1]));
}

#[test]
fn encoded_integers_are_already_trimmed() {
    for v in [0i64, 1, -1, 127, 128, -128, -129, 255, 256, 65_535, -65_536, i64::MAX, i64::MIN] {
        let encoded = encode_integer(v);
        assert_eq!(trim_le_bytes(encoded.clone()), encoded);
        assert!(encoded.len() <= 8);
        assert_eq!(decode_signed_le_bytes(&encoded), Ok(v));
    }
    assert_eq!(decode_signed_le_bytes(&[]), Ok(0));
    assert!(decode_signed_le_bytes(&[0; 9]).is_err());
}
