use vstd::prelude::*;
use crate::retained::le_bytes_u64;
use crate::text::text;
use crate::stack_value::{StackValue, Item};

verus! {

broadcast use vstd::std_specs::vec::group_vec_axioms;

// ---------------------------------------------------------------------------
// Little-endian two's complement integers

/// 256 to the power `n`: the weight of the byte at position `n`.
pub open spec fn byte_weight(n: nat) -> int
    decreases n,
{
    if n == 0 { 1 } else { 256 * byte_weight((n - 1) as nat) }
}

/// The unsigned value of little-endian bytes.
pub open spec fn le_unsigned(s: Seq<u8>) -> int
    decreases s.len(),
{
    if s.len() == 0 {
        0
    } else {
        le_unsigned(s.drop_last()) + s.last() * byte_weight((s.len() - 1) as nat)
    }
}

/// Whether little-endian two's complement bytes stand for a negative number: the top bit of
/// the last byte is set.
pub open spec fn is_negative_le(s: Seq<u8>) -> bool {
    s.len() > 0 && s.last() >= 0x80
}

/// The value of little-endian two's complement bytes.
pub open spec fn signed_le(s: Seq<u8>) -> int {
    if is_negative_le(s) { le_unsigned(s) - byte_weight(s.len()) } else { le_unsigned(s) }
}

/// The byte that extends the sign of `s`: 0xff for a negative number, else 0.
pub open spec fn sign_fill(s: Seq<u8>) -> u8 {
    if is_negative_le(s) { 0xff } else { 0 }
}

/// `s` without trailing `fill` bytes that only repeat the sign of the byte before them.
pub open spec fn trim_from(s: Seq<u8>, fill: u8) -> Seq<u8>
    decreases s.len(),
{
    if s.len() > 1 && s.last() == fill && ((s[s.len() - 2] >= 0x80) == (fill == 0xff)) {
        trim_from(s.drop_last(), fill)
    } else {
        s
    }
}

/// The shortest little-endian two's complement form of the number that `s` stands for.
pub open spec fn trim_le(s: Seq<u8>) -> Seq<u8> {
    if s.len() == 0 { s } else { trim_from(s, sign_fill(s)) }
}

/// The canonical encoding of an integer: no bytes for zero, else the shortest little-endian
/// two's complement form.
pub open spec fn int_bytes(v: i64) -> Seq<u8> {
    if v == 0 { Seq::empty() } else { trim_le(le_bytes_u64(v as u64)) }
}

proof fn lemma_byte_weight_pos(n: nat)
    ensures
        byte_weight(n) >= 1,
    decreases n,
{
    if n > 0 {
        lemma_byte_weight_pos((n - 1) as nat);
    }
}

/// The unsigned value of `n` bytes is below `256^n`.
proof fn lemma_le_unsigned_bound(s: Seq<u8>)
    ensures
        0 <= le_unsigned(s) < byte_weight(s.len()),
    decreases s.len(),
{
    if s.len() > 0 {
        let d = s.drop_last();
        lemma_le_unsigned_bound(d);
        lemma_byte_weight_pos(d.len());
        let w = byte_weight(d.len());
        let a = le_unsigned(d);
        let b = s.last() as int;
        assert(0 <= a + b * w < 256 * w) by (nonlinear_arith)
            requires
                0 <= a < w,
                0 <= b < 256,
        ;
    }
}

/// The sign of two's complement bytes is the top bit of their last byte.
proof fn lemma_signed_le_range(s: Seq<u8>)
    requires
        s.len() > 0,
    ensures
        is_negative_le(s) ==> -byte_weight(s.len()) / 2 <= signed_le(s) < 0,
        !is_negative_le(s) ==> 0 <= signed_le(s) < byte_weight(s.len()) / 2,
        byte_weight(s.len()) == 256 * byte_weight((s.len() - 1) as nat),
{
    let d = s.drop_last();
    lemma_le_unsigned_bound(d);
    lemma_byte_weight_pos(d.len());
    let w = byte_weight(d.len());
    let a = le_unsigned(d);
    let b = s.last() as int;
    assert(le_unsigned(s) == a + b * w);
    if b >= 128 {
        assert(128 * w <= a + b * w < 256 * w) by (nonlinear_arith)
            requires
                0 <= a < w,
                128 <= b < 256,
        ;
    } else {
        assert(0 <= a + b * w < 128 * w) by (nonlinear_arith)
            requires
                0 <= a < w,
                0 <= b < 128,
        ;
    }
}

/// Dropping a trailing byte that only repeats the sign keeps the value.
proof fn lemma_drop_sign_byte(s: Seq<u8>)
    requires
        s.len() > 1,
        s.last() == sign_fill(s),
        (s[s.len() - 2] >= 0x80) == (sign_fill(s) == 0xff),
    ensures
        signed_le(s.drop_last()) == signed_le(s),
        sign_fill(s.drop_last()) == sign_fill(s),
{
    let d = s.drop_last();
    assert(d.last() == s[s.len() - 2]);
    let w = byte_weight(d.len());
    assert(byte_weight(s.len()) == 256 * w);
}

/// Trimming keeps the value and the sign, and never lengthens.
proof fn lemma_trim_from(s: Seq<u8>)
    requires
        s.len() > 0,
    ensures
        signed_le(trim_from(s, sign_fill(s))) == signed_le(s),
        trim_from(s, sign_fill(s)).len() <= s.len(),
        trim_from(s, sign_fill(s)).len() >= 1,
        sign_fill(trim_from(s, sign_fill(s))) == sign_fill(s),
    decreases s.len(),
{
    let f = sign_fill(s);
    if s.len() > 1 && s.last() == f && ((s[s.len() - 2] >= 0x80) == (f == 0xff)) {
        lemma_drop_sign_byte(s);
        lemma_trim_from(s.drop_last());
    }
}

/// The eight little-endian bytes of `x as u64` stand for `x`.
proof fn lemma_le_bytes_u64_value(x: i64)
    ensures
        signed_le(le_bytes_u64(x as u64)) == x,
        le_bytes_u64(x as u64).len() == 8,
{
    let u = x as u64;
    let s = le_bytes_u64(u);
    let b0 = (u & 0xff) as u8;
    let b1 = ((u >> 8u64) & 0xff) as u8;
    let b2 = ((u >> 16u64) & 0xff) as u8;
    let b3 = ((u >> 24u64) & 0xff) as u8;
    let b4 = ((u >> 32u64) & 0xff) as u8;
    let b5 = ((u >> 40u64) & 0xff) as u8;
    let b6 = ((u >> 48u64) & 0xff) as u8;
    let b7 = ((u >> 56u64) & 0xff) as u8;
    assert(u == b0 + 0x100 * b1 + 0x1_0000 * b2 + 0x100_0000 * b3 + 0x1_0000_0000 * b4 + 0x100_0000_0000 * b5
        + 0x1_0000_0000_0000 * b6 + 0x100_0000_0000_0000 * b7) by (bit_vector)
        requires
            b0 == (u & 0xff) as u8,
            b1 == ((u >> 8u64) & 0xff) as u8,
            b2 == ((u >> 16u64) & 0xff) as u8,
            b3 == ((u >> 24u64) & 0xff) as u8,
            b4 == ((u >> 32u64) & 0xff) as u8,
            b5 == ((u >> 40u64) & 0xff) as u8,
            b6 == ((u >> 48u64) & 0xff) as u8,
            b7 == ((u >> 56u64) & 0xff) as u8,
    ;
    assert(b7 >= 0x80 <==> u >= 0x8000_0000_0000_0000) by (bit_vector)
        requires
            b7 == ((u >> 56u64) & 0xff) as u8,
    ;
    assert(u >= 0x8000_0000_0000_0000 ==> x == u - 0x1_0000_0000_0000_0000) by (bit_vector)
        requires
            u == x as u64,
    ;
    assert(u < 0x8000_0000_0000_0000 ==> x == u) by (bit_vector)
        requires
            u == x as u64,
    ;
    let d1 = s.drop_last();
    let d2 = d1.drop_last();
    let d3 = d2.drop_last();
    let d4 = d3.drop_last();
    let d5 = d4.drop_last();
    let d6 = d5.drop_last();
    let d7 = d6.drop_last();
    let d8 = d7.drop_last();
    assert(d8 =~= Seq::<u8>::empty());
    assert(d7.len() == 1 && d7.last() == s[0] && s[0] == b0);
    assert(d6.len() == 2 && d6.last() == s[1] && s[1] == b1);
    assert(d5.len() == 3 && d5.last() == s[2] && s[2] == b2);
    assert(d4.len() == 4 && d4.last() == s[3] && s[3] == b3);
    assert(d3.len() == 5 && d3.last() == s[4] && s[4] == b4);
    assert(d2.len() == 6 && d2.last() == s[5] && s[5] == b5);
    assert(d1.len() == 7 && d1.last() == s[6] && s[6] == b6);
    assert(s.len() == 8 && s.last() == s[7] && s[7] == b7);
    reveal_with_fuel(byte_weight, 8);
    assert(byte_weight(7) == 0x100_0000_0000_0000);
    assert(byte_weight(8) == 0x1_0000_0000_0000_0000);
    assert(le_unsigned(d8) == 0);
    assert(byte_weight(0) == 1);
    assert(byte_weight(1) == 0x100);
    assert(byte_weight(2) == 0x1_0000);
    assert(byte_weight(3) == 0x100_0000);
    assert(byte_weight(4) == 0x1_0000_0000);
    assert(byte_weight(5) == 0x100_0000_0000);
    assert(byte_weight(6) == 0x1_0000_0000_0000);
    assert(byte_weight(7) == 0x100_0000_0000_0000);
    assert(le_unsigned(d7) == le_unsigned(d7.drop_last()) + d7.last() * 1);
    assert(le_unsigned(d7) == b0);
    assert(le_unsigned(d6) == le_unsigned(d6.drop_last()) + d6.last() * 0x100);
    assert(le_unsigned(d6) == b0 + 0x100 * b1);
    assert(le_unsigned(d5) == le_unsigned(d5.drop_last()) + d5.last() * 0x1_0000);
    assert(le_unsigned(d5) == b0 + 0x100 * b1 + 0x1_0000 * b2);
    assert(le_unsigned(d4) == le_unsigned(d4.drop_last()) + d4.last() * 0x100_0000);
    assert(le_unsigned(d4) == b0 + 0x100 * b1 + 0x1_0000 * b2 + 0x100_0000 * b3);
    assert(le_unsigned(d3) == le_unsigned(d3.drop_last()) + d3.last() * 0x1_0000_0000);
    assert(le_unsigned(d3) == b0 + 0x100 * b1 + 0x1_0000 * b2 + 0x100_0000 * b3 + 0x1_0000_0000 * b4);
    assert(le_unsigned(d2) == le_unsigned(d2.drop_last()) + d2.last() * 0x100_0000_0000);
    assert(le_unsigned(d2) == b0 + 0x100 * b1 + 0x1_0000 * b2 + 0x100_0000 * b3 + 0x1_0000_0000 * b4 + 0x100_0000_0000 * b5);
    assert(le_unsigned(d1) == le_unsigned(d1.drop_last()) + d1.last() * 0x1_0000_0000_0000);
    assert(le_unsigned(d1) == b0 + 0x100 * b1 + 0x1_0000 * b2 + 0x100_0000 * b3 + 0x1_0000_0000 * b4 + 0x100_0000_0000 * b5 + 0x1_0000_0000_0000 * b6);
    assert(le_unsigned(s) == le_unsigned(s.drop_last()) + s.last() * 0x100_0000_0000_0000);
    assert(le_unsigned(s) == b0 + 0x100 * b1 + 0x1_0000 * b2 + 0x100_0000 * b3 + 0x1_0000_0000 * b4 + 0x100_0000_0000 * b5 + 0x1_0000_0000_0000 * b6 + 0x100_0000_0000_0000 * b7);
    assert(le_unsigned(s) == u);
}

/// The canonical encoding of `v` stands for `v` and has at most eight bytes.
pub proof fn lemma_int_bytes_value(v: i64)
    ensures
        signed_le(int_bytes(v)) == v,
        int_bytes(v).len() <= 8,
{
    if v != 0 {
        lemma_le_bytes_u64_value(v);
        lemma_trim_from(le_bytes_u64(v as u64));
    }
}

/// Shortens `bytes` to the shortest two's complement form of the same number.
pub fn trim_le_bytes(bytes: Vec<u8>) -> (r: Vec<u8>)
    ensures
        r@ == trim_le(bytes@),
{
    let mut bytes = bytes;
    if bytes.len() == 0 {
        return bytes;
    }
    let last = bytes[bytes.len() - 1];
    let fill: u8 = if last & 0x80 != 0 { 0xff } else { 0x00 };
    proof {
        assert(last & 0x80 != 0 <==> last >= 0x80) by (bit_vector);
    }
    let ghost orig = bytes@;
    loop
        invariant
            bytes@.len() >= 1,
            fill == sign_fill(orig),
            trim_le(orig) == trim_from(bytes@, fill),
        ensures
            trim_le(orig) == bytes@,
        decreases bytes.len(),
    {
        let n = bytes.len();
        if n <= 1 || bytes[n - 1] != fill {
            break;
        }
        let next = bytes[n - 2];
        proof {
            assert(next & 0x80 != 0 <==> next >= 0x80) by (bit_vector);
        }
        if (next & 0x80 != 0) != (fill == 0xff) {
            break;
        }
        let ghost before = bytes@;
        bytes.pop();
        assert(bytes@ =~= before.drop_last());
    }
    bytes
}


/// Shortens a byte string to the shortest two's complement form of the same number.
pub fn trim_le_bytes_slice(bytes: &[u8]) -> (r: Vec<u8>)
    ensures
        r@ == trim_le(bytes@),
{
    trim_le_bytes(crate::storage::bytes_to_vec(bytes))
}

proof fn lemma_byte_weight_mono(i: nat, j: nat)
    requires
        i <= j,
    ensures
        byte_weight(i) <= byte_weight(j),
    decreases j,
{
    if i < j {
        lemma_byte_weight_mono(i, (j - 1) as nat);
        lemma_byte_weight_pos((j - 1) as nat);
    }
}

proof fn lemma_byte_weight_8()
    ensures
        byte_weight(8) == 0x1_0000_0000_0000_0000,
{
    reveal_with_fuel(byte_weight, 9);
}

/// The value of at most eight little-endian two's complement bytes.
fn signed_value(bytes: &[u8]) -> (r: i64)
    requires
        bytes@.len() <= 8,
    ensures
        r == signed_le(bytes@),
{
    let n = bytes.len();
    if n == 0 {
        return 0;
    }
    proof {
        lemma_byte_weight_8();
        lemma_byte_weight_mono(n as nat, 8);
    }
    let mut acc: u128 = 0;
    let mut weight: u128 = 1;
    let mut i: usize = 0;
    while i < n
        invariant
            n == bytes@.len(),
            1 <= n <= 8,
            i <= n,
            weight == byte_weight(i as nat),
            weight <= 0x1_0000_0000_0000_0000,
            acc == le_unsigned(bytes@.subrange(0, i as int)),
            acc < weight,
        decreases n - i,
    {
        proof {
            lemma_byte_weight_mono((i + 1) as nat, 8);
            lemma_byte_weight_8();
            let pre = bytes@.subrange(0, i as int + 1);
            assert(pre.drop_last() =~= bytes@.subrange(0, i as int));
            let b = bytes@[i as int] as int;
            assert(acc + b * weight < 256 * weight) by (nonlinear_arith)
                requires
                    acc < weight,
                    0 <= b < 256,
            ;
        }
        acc = acc + (bytes[i] as u128) * weight;
        weight = weight * 256;
        i += 1;
    }
    proof {
        assert(bytes@.subrange(0, n as int) =~= bytes@);
        lemma_signed_le_range(bytes@);
    }
    let last = bytes[n - 1];
    proof {
        assert(last & 0x80 != 0 <==> last >= 0x80) by (bit_vector);
    }
    if last & 0x80 != 0 {
        ((acc as i128) - (weight as i128)) as i64
    } else {
        acc as i64
    }
}

/// Reads little-endian two's complement bytes as an integer: no bytes read as zero, more
/// than eight are refused.
pub fn decode_signed_le_bytes(bytes: &[u8]) -> (r: Result<i64, String>)
    ensures
        match r {
            Ok(v) => bytes@.len() <= 8 && v == signed_le(bytes@),
            Err(msg) => bytes@.len() > 8 && msg@ == "integer-compatible byte string too large"@,
        },
{
    if bytes.len() == 0 {
        return Ok(0);
    }
    if bytes.len() > 8 {
        return Err(text("integer-compatible byte string too large"));
    }
    Ok(signed_value(bytes))
}

/// Reads little-endian two's complement bytes as an integer, keeping only the low eight bytes
/// of a longer string.
pub fn bytes_to_integer(bytes: &[u8]) -> (r: i64)
    ensures
        r == signed_le(if bytes@.len() <= 8 { bytes@ } else { bytes@.subrange(0, 8) }),
{
    if bytes.len() <= 8 {
        signed_value(bytes)
    } else {
        signed_value(vstd::slice::slice_subrange(bytes, 0, 8))
    }
}

/// The canonical bytes of an integer: none for zero, else its shortest little-endian two's
/// complement form.
pub fn encode_integer(value: i64) -> (r: Vec<u8>)
    ensures
        r@ == int_bytes(value),
{
    if value == 0 {
        return Vec::new();
    }
    let x = value as u64;
    let full: Vec<u8> = vec![
        (x & 0xff) as u8,
        ((x >> 8u64) & 0xff) as u8,
        ((x >> 16u64) & 0xff) as u8,
        ((x >> 24u64) & 0xff) as u8,
        ((x >> 32u64) & 0xff) as u8,
        ((x >> 40u64) & 0xff) as u8,
        ((x >> 48u64) & 0xff) as u8,
        ((x >> 56u64) & 0xff) as u8,
    ];
    assert(full@ =~= le_bytes_u64(x));
    trim_le_bytes(full)
}

/// The canonical bytes of an integer read back give the integer: for every `i64` `v`,
/// `signed_le(int_bytes(v)) == v`, in at most eight bytes.
pub proof fn law_integer_encoding_round_trip(v: i64)
    ensures
        signed_le(int_bytes(v)) == v,
        int_bytes(v).len() <= 8,
{
    lemma_int_bytes_value(v);
}

/// Trimming keeps the number a byte string stands for: `signed_le(trim_le(s)) == signed_le(s)`.
pub proof fn law_trim_keeps_value(s: Seq<u8>)
    ensures
        signed_le(trim_le(s)) == signed_le(s),
        trim_le(s).len() <= s.len(),
{
    if s.len() > 0 {
        lemma_trim_from(s);
    }
}


proof fn lemma_trim_from_settles(s: Seq<u8>, fill: u8)
    ensures
        trim_from(trim_from(s, fill), fill) == trim_from(s, fill),
        trim_from(s, fill).len() <= s.len(),
        s.len() >= 1 ==> trim_from(s, fill).len() >= 1,
        trim_from(s, fill).len() == s.len() ==> trim_from(s, fill) == s,
        trim_from(s, fill).len() < s.len() ==> is_negative_le(trim_from(s, fill)) == (fill == 0xff),
    decreases s.len(),
{
    if s.len() > 1 && s.last() == fill && ((s[s.len() - 2] >= 0x80) == (fill == 0xff)) {
        let d = s.drop_last();
        lemma_trim_from_settles(d, fill);
        if trim_from(d, fill).len() == d.len() {
            assert(d.last() == s[s.len() - 2]);
        }
    }
}

/// Trimming is done once: `trim_le(trim_le(s)) == trim_le(s)`.
pub proof fn law_trim_is_idempotent(s: Seq<u8>)
    ensures
        trim_le(trim_le(s)) == trim_le(s),
{
    if s.len() > 0 {
        let fill = sign_fill(s);
        let t = trim_from(s, fill);
        lemma_trim_from_settles(s, fill);
        assert(sign_fill(t) == fill);
    }
}

/// The canonical bytes of an integer are already trimmed: for every `i64` `v`,
/// `trim_le(int_bytes(v)) == int_bytes(v)`.
pub proof fn law_integer_encoding_is_trimmed(v: i64)
    ensures
        trim_le(int_bytes(v)) == int_bytes(v),
{
    if v != 0 {
        law_trim_is_idempotent(le_bytes_u64(v as u64));
    }
}

// ---------------------------------------------------------------------------
// Results that may be small or big

/// A number given as bytes: an `Integer` when its shortest form fits eight bytes, else a
/// `BigInteger` holding that shortest form.
pub open spec fn big_or_int(b: Seq<u8>) -> Item {
    if trim_le(b).len() <= 8 {
        Item::Integer(signed_le(trim_le(b)) as i64)
    } else {
        Item::BigInteger(trim_le(b))
    }
}

/// The stack item for a number given as bytes.
pub fn bigint_or_integer(bytes: Vec<u8>) -> (r: StackValue)
    ensures
        r.model() == big_or_int(bytes@),
{
    let trimmed = trim_le_bytes(bytes);
    if trimmed.len() <= 8 {
        StackValue::Integer(bytes_to_integer(trimmed.as_slice()))
    } else {
        StackValue::BigInteger(trimmed)
    }
}

// ---------------------------------------------------------------------------
// Bitwise operations

/// A byte-wise bit operation.
#[derive(Clone, Copy, Debug, PartialEq, Eq, Structural)]
pub enum BitOp {
    And,
    Or,
    Xor,
}

/// `op` applied to two bytes.
pub open spec fn apply_bit_op(op: BitOp, a: u8, b: u8) -> u8 {
    match op {
        BitOp::And => a & b,
        BitOp::Or => a | b,
        BitOp::Xor => a ^ b,
    }
}

fn bit_op(op: BitOp, a: u8, b: u8) -> (r: u8)
    ensures
        r == apply_bit_op(op, a, b),
{
    match op {
        BitOp::And => a & b,
        BitOp::Or => a | b,
        BitOp::Xor => a ^ b,
    }
}

/// The byte of `s` at `i`, or its sign fill past its end.
pub open spec fn byte_or_fill(s: Seq<u8>, i: int) -> u8 {
    if i < s.len() { s[i] } else { sign_fill(s) }
}

/// `op` applied byte by byte to two two's complement numbers, the shorter one sign-extended;
/// one byte `op(0, 0)` for two empty strings; `None` past 32 bytes.
pub open spec fn bitwise_bytes(l: Seq<u8>, r: Seq<u8>, op: BitOp) -> Option<Seq<u8>> {
    let len = if l.len() >= r.len() { l.len() } else { r.len() };
    if len == 0 {
        Some(seq![apply_bit_op(op, 0, 0)])
    } else if len > 32 {
        None
    } else {
        Some(Seq::new(len, |i: int| apply_bit_op(op, byte_or_fill(l, i), byte_or_fill(r, i))))
    }
}

/// Applies `op` byte by byte to two little-endian two's complement numbers.
pub fn bitwise_signed_bytes(left: &[u8], right: &[u8], op: BitOp) -> (r: Result<Vec<u8>, String>)
    ensures
        match r {
            Ok(b) => bitwise_bytes(left@, right@, op) == Some(b@),
            Err(msg) => bitwise_bytes(left@, right@, op) is None && msg@ == "bitwise operand exceeds supported size"@,
        },
{
    let len = if left.len() >= right.len() { left.len() } else { right.len() };
    if len == 0 {
        let v = vec![bit_op(op, 0, 0)];
        return Ok(v);
    }
    if len > 32 {
        return Err(text("bitwise operand exceeds supported size"));
    }
    let left_fill: u8 = if left.len() > 0 && left[left.len() - 1] & 0x80 != 0 { 0xff } else { 0x00 };
    let right_fill: u8 = if right.len() > 0 && right[right.len() - 1] & 0x80 != 0 { 0xff } else { 0x00 };
    proof {
        if left.len() > 0 {
            let b = left@.last();
            assert(b & 0x80 != 0 <==> b >= 0x80) by (bit_vector);
        }
        if right.len() > 0 {
            let b = right@.last();
            assert(b & 0x80 != 0 <==> b >= 0x80) by (bit_vector);
        }
    }
    let ghost want = Seq::new(len as nat, |i: int| apply_bit_op(op, byte_or_fill(left@, i), byte_or_fill(right@, i)));
    let mut result: Vec<u8> = Vec::with_capacity(len);
    let mut i: usize = 0;
    while i < len
        invariant
            len <= 32,
            len == (if left@.len() >= right@.len() { left@.len() } else { right@.len() }),
            left_fill == sign_fill(left@),
            right_fill == sign_fill(right@),
            want.len() == len,
            want == Seq::new(len as nat, |i: int| apply_bit_op(op, byte_or_fill(left@, i), byte_or_fill(right@, i))),
            i <= len,
            result@ == want.subrange(0, i as int),
        decreases len - i,
    {
        let lb = if i < left.len() { left[i] } else { left_fill };
        let rb = if i < right.len() { right[i] } else { right_fill };
        result.push(bit_op(op, lb, rb));
        i += 1;
        assert(result@ =~= want.subrange(0, i as int));
    }
    assert(want.subrange(0, len as int) =~= want);
    Ok(result)
}

/// The words of the error for operands of mismatched kinds.
pub open spec fn bitwise_kind_error() -> Seq<char> {
    "bitwise op expects matching integer, boolean, or byte string types"@
}

/// What a bitwise operation on two stack items gives: booleans and nulls combine as 0 and 1,
/// integers through their canonical bytes, big integers and byte strings byte by byte.
pub open spec fn bitwise_item(l: Item, r: Item, op: BitOp) -> Result<Item, Seq<char>> {
    match (l, r) {
        (Item::Boolean(a), Item::Boolean(b)) =>
            Ok(Item::Integer(apply_bit_op(op, if a { 1 } else { 0 }, if b { 1 } else { 0 }) as i64)),
        (Item::Integer(a), Item::Integer(b)) => match bitwise_bytes(int_bytes(a), int_bytes(b), op) {
            Some(bs) => Ok(Item::Integer(signed_le(bs) as i64)),
            None => Err("bitwise operand exceeds supported size"@),
        },
        (Item::BigInteger(a), Item::BigInteger(b)) | (Item::ByteString(a), Item::ByteString(b)) =>
            match bitwise_bytes(a, b, op) {
                Some(bs) => Ok(big_or_int(bs)),
                None => Err("bitwise operand exceeds supported size"@),
            },
        (Item::Null, Item::Null) => Ok(Item::Integer(apply_bit_op(op, 0, 0) as i64)),
        _ => Err(bitwise_kind_error()),
    }
}

/// Applies a bitwise operation to two stack items of matching kinds.
pub fn bitwise_result(left: &StackValue, right: &StackValue, op: BitOp) -> (r: Result<StackValue, String>)
    ensures
        match r {
            Ok(v) => bitwise_item(left.model(), right.model(), op) == Ok::<Item, Seq<char>>(v.model()),
            Err(msg) => bitwise_item(left.model(), right.model(), op) == Err::<Item, Seq<char>>(msg@),
        },
{
    match (left, right) {
        (StackValue::Boolean(l), StackValue::Boolean(r)) => {
            let a: u8 = if *l { 1 } else { 0 };
            let b: u8 = if *r { 1 } else { 0 };
            Ok(StackValue::Integer(bit_op(op, a, b) as i64))
        },
        (StackValue::Integer(l), StackValue::Integer(r)) => {
            let lb = encode_integer(*l);
            let rb = encode_integer(*r);
            proof {
                lemma_int_bytes_value(*l);
                lemma_int_bytes_value(*r);
            }
            match bitwise_signed_bytes(lb.as_slice(), rb.as_slice(), op) {
                Ok(bytes) => Ok(StackValue::Integer(bytes_to_integer(bytes.as_slice()))),
                Err(e) => Err(e),
            }
        },
        (StackValue::BigInteger(l), StackValue::BigInteger(r)) => {
            match bitwise_signed_bytes(l.as_slice(), r.as_slice(), op) {
                Ok(bytes) => Ok(bigint_or_integer(bytes)),
                Err(e) => Err(e),
            }
        },
        (StackValue::ByteString(l), StackValue::ByteString(r)) => {
            match bitwise_signed_bytes(l.as_slice(), r.as_slice(), op) {
                Ok(bytes) => Ok(bigint_or_integer(bytes)),
                Err(e) => Err(e),
            }
        },
        (StackValue::Null, StackValue::Null) => Ok(StackValue::Integer(bit_op(op, 0, 0) as i64)),
        _ => Err(text("bitwise op expects matching integer, boolean, or byte string types")),
    }
}

// ---------------------------------------------------------------------------
// Shifts

/// Shifts an integer left. A shift of 64 or more is refused unless the integer is zero; a
/// shorter one drops the bits shifted past the top, as `i64::checked_shl` does.
pub fn shift_left(value: i64, shift: u32) -> (r: Result<i64, String>)
    ensures
        shift == 0 ==> r == Ok::<i64, String>(value),
        0 < shift < 64 ==> r == Ok::<i64, String>(value << shift),
        shift >= 64 && value == 0 ==> r == Ok::<i64, String>(0),
        shift >= 64 && value != 0 ==> (r matches Err(msg) && msg@ == "integer overflow for SHL"@),
{
    if shift == 0 {
        return Ok(value);
    }
    if shift >= 64 {
        return if value == 0 {
            Ok(0)
        } else {
            Err(text("integer overflow for SHL"))
        };
    }
    Ok(value << shift)
}

/// A shift operand, remembering whether it came as a byte string.
pub enum ShiftValue {
    Integer(i64),
    ByteString(i64),
}

impl ShiftValue {
    /// The number shifted.
    pub open spec fn number(self) -> i64 {
        match self {
            ShiftValue::Integer(v) | ShiftValue::ByteString(v) => v,
        }
    }

    /// A result of the operand's kind: an integer, or the canonical bytes of the number.
    pub open spec fn result_item(self, v: i64) -> Item {
        match self {
            ShiftValue::Integer(_) => Item::Integer(v),
            ShiftValue::ByteString(_) => Item::ByteString(int_bytes(v)),
        }
    }

    /// Shifts left as `shift_left` does, keeping the operand's kind.
    pub fn shift_left(self, shift: u32) -> (r: Result<StackValue, String>)
        ensures
            shift == 0 ==> (r matches Ok(v) && v.model() == self.result_item(self.number())),
            0 < shift < 64 ==> (r matches Ok(v) && v.model() == self.result_item(self.number() << shift)),
            shift >= 64 && self.number() == 0 ==> (r matches Ok(v) && v.model() == self.result_item(0)),
            shift >= 64 && self.number() != 0 ==> (r matches Err(msg) && msg@ == "integer overflow for SHL"@),
    {
        let value = match self {
            ShiftValue::Integer(v) | ShiftValue::ByteString(v) => match shift_left(v, shift) {
                Ok(x) => x,
                Err(e) => return Err(e),
            },
        };
        match self {
            ShiftValue::Integer(_) => Ok(StackValue::Integer(value)),
            ShiftValue::ByteString(_) => Ok(StackValue::ByteString(encode_integer(value))),
        }
    }

    /// Shifts right arithmetically, keeping the operand's kind; a shift of 64 or more leaves
    /// only the sign (-1 or 0).
    pub fn shift_right(self, shift: u32) -> (r: StackValue)
        ensures
            shift < 64 ==> r.model() == self.result_item(self.number() >> shift),
            shift >= 64 ==> r.model() == self.result_item(if self.number() < 0 { -1i64 } else { 0i64 }),
    {
        let value = match self {
            ShiftValue::Integer(v) | ShiftValue::ByteString(v) => {
                if shift >= 64 {
                    if v < 0 {
                        -1
                    } else {
                        0
                    }
                } else {
                    v >> shift
                }
            },
        };
        match self {
            ShiftValue::Integer(_) => StackValue::Integer(value),
            ShiftValue::ByteString(_) => StackValue::ByteString(encode_integer(value)),
        }
    }
}

} // verus!
