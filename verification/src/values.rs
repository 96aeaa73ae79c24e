use vstd::prelude::*;
use crate::stack_value::{StackValue, Item};
use crate::integer::{decode_signed_le_bytes, encode_integer, signed_le, int_bytes, ShiftValue, le_unsigned,
    law_integer_encoding_round_trip};
use crate::text::text;
use crate::render::{debug_text, debug_text_of};
use crate::compound::CompoundIds;
use vstd::string::StringExecFns;

verus! {

broadcast use vstd::std_specs::vec::group_vec_axioms;

// ---------------------------------------------------------------------------
// Results in words

/// A result with its error message taken as characters.
pub open spec fn outcome<T>(r: Result<T, String>) -> Result<T, Seq<char>> {
    match r {
        Ok(v) => Ok(v),
        Err(m) => Err(m@),
    }
}

/// A result holding a stack item, with the item taken by its model.
pub open spec fn item_outcome(r: Result<StackValue, String>) -> Result<Item, Seq<char>> {
    match r {
        Ok(v) => Ok(v.model()),
        Err(m) => Err(m@),
    }
}

/// A result holding bytes, taken as a sequence.
pub open spec fn bytes_outcome(r: Result<Vec<u8>, String>) -> Result<Seq<u8>, Seq<char>> {
    match r {
        Ok(v) => Ok(v@),
        Err(m) => Err(m@),
    }
}

/// The words of the error for an empty stack.
pub open spec fn underflow() -> Seq<char> {
    "stack underflow"@
}

/// 1 for `true`, 0 for `false`.
pub open spec fn bool_num(b: bool) -> i64 {
    if b { 1 } else { 0 }
}

/// Whether some byte of `s` is not zero.
pub open spec fn any_nonzero(s: Seq<u8>) -> bool {
    exists|i: int| 0 <= i < s.len() && s[i] != 0
}

fn bytes_any_nonzero(bytes: &[u8]) -> (r: bool)
    ensures
        r == any_nonzero(bytes@),
{
    let mut i: usize = 0;
    while i < bytes.len()
        invariant
            i <= bytes@.len(),
            forall|j: int| 0 <= j < i ==> bytes@[j] == 0,
        decreases bytes.len() - i,
    {
        if bytes[i] != 0 {
            return true;
        }
        i += 1;
    }
    false
}

/// What reading bytes as an integer gives: their two's complement value, or an error past
/// eight bytes.
pub open spec fn decoded(s: Seq<u8>) -> Result<i64, Seq<char>> {
    if s.len() <= 8 {
        Ok(signed_le(s) as i64)
    } else {
        Err("integer-compatible byte string too large"@)
    }
}

fn decode_bytes(bytes: &[u8]) -> (r: Result<i64, String>)
    ensures
        outcome(r) == decoded(bytes@),
{
    decode_signed_le_bytes(bytes)
}

// ---------------------------------------------------------------------------
// Taking items off the stack

/// The top item of the stack, left in place.
pub fn peek_item(stack: &[StackValue]) -> (r: Result<StackValue, String>)
    ensures
        stack@.len() == 0 ==> (r matches Err(m) && m@ == underflow()),
        stack@.len() > 0 ==> item_outcome(r) == Ok::<Item, Seq<char>>(stack@.last().model()),
{
    if stack.len() == 0 {
        Err(text("stack underflow"))
    } else {
        Ok(stack[stack.len() - 1].clone())
    }
}

/// The stack after an item was taken: one shorter, or as it was when it was empty.
pub open spec fn after_pop(before: Seq<StackValue>, after: Seq<StackValue>) -> bool {
    if before.len() == 0 { after == before } else { after == before.drop_last() }
}

/// Takes the top item off the stack.
pub fn pop_item(stack: &mut Vec<StackValue>) -> (r: Result<StackValue, String>)
    ensures
        after_pop(old(stack)@, final(stack)@),
        old(stack)@.len() == 0 ==> (r matches Err(m) && m@ == underflow()),
        old(stack)@.len() > 0 ==> (r matches Ok(v) && v == old(stack)@.last()),
{
    match stack.pop() {
        Some(v) => Ok(v),
        None => Err(text("stack underflow")),
    }
}

/// The integer that an integer or a boolean stands for.
pub open spec fn integer_of(i: Item) -> Result<i64, Seq<char>> {
    match i {
        Item::Integer(v) => Ok(v),
        Item::Boolean(b) => Ok(bool_num(b)),
        _ => Err("expected integer on stack"@),
    }
}

/// Takes an integer (or a boolean, as 0 or 1) off the stack; any other item is taken and
/// refused.
pub fn pop_integer(stack: &mut Vec<StackValue>) -> (r: Result<i64, String>)
    ensures
        after_pop(old(stack)@, final(stack)@),
        old(stack)@.len() == 0 ==> outcome(r) == Err::<i64, Seq<char>>(underflow()),
        old(stack)@.len() > 0 ==> outcome(r) == integer_of(old(stack)@.last().model()),
{
    match stack.pop() {
        Some(StackValue::Integer(value)) => Ok(value),
        Some(StackValue::Boolean(value)) => Ok(if value { 1 } else { 0 }),
        Some(_) => Err(text("expected integer on stack")),
        None => Err(text("stack underflow")),
    }
}

/// The integer an item stands for in a comparison: `None` for null.
pub open spec fn comparison_integer_of(i: Item) -> Result<Option<i64>, Seq<char>> {
    match i {
        Item::Integer(v) => Ok(Some(v)),
        Item::Boolean(b) => Ok(Some(bool_num(b))),
        Item::Null => Ok(None),
        _ => Err("expected integer on stack"@),
    }
}

/// Takes a comparison operand off the stack: an integer, a boolean (0 or 1), or null.
pub fn pop_optional_integer_for_comparison(stack: &mut Vec<StackValue>) -> (r: Result<Option<i64>, String>)
    ensures
        after_pop(old(stack)@, final(stack)@),
        old(stack)@.len() == 0 ==> outcome(r) == Err::<Option<i64>, Seq<char>>(underflow()),
        old(stack)@.len() > 0 ==> outcome(r) == comparison_integer_of(old(stack)@.last().model()),
{
    match stack.pop() {
        Some(StackValue::Integer(value)) => Ok(Some(value)),
        Some(StackValue::Boolean(value)) => Ok(Some(if value { 1 } else { 0 })),
        Some(StackValue::Null) => Ok(None),
        Some(_) => Err(text("expected integer on stack")),
        None => Err(text("stack underflow")),
    }
}

/// Two comparison operands: both integers, both null (compared as 0 and 0), or `None` when
/// only one is null.
pub open spec fn comparison_pair(left: Option<i64>, right: Option<i64>) -> Option<(i64, i64)> {
    match (left, right) {
        (Some(l), Some(r)) => Some((l, r)),
        (None, None) => Some((0, 0)),
        _ => None,
    }
}

/// Takes the right, then the left comparison operand off the stack.
pub fn pop_integer_pair_allowing_null_false(stack: &mut Vec<StackValue>) -> (r: Result<Option<(i64, i64)>, String>)
    ensures
        old(stack)@.len() == 0 ==> outcome(r) == Err::<Option<(i64, i64)>, Seq<char>>(underflow())
            && final(stack)@ == old(stack)@,
        old(stack)@.len() > 0 ==> match comparison_integer_of(old(stack)@.last().model()) {
            Err(e) => outcome(r) == Err::<Option<(i64, i64)>, Seq<char>>(e) && final(stack)@ == old(stack)@.drop_last(),
            Ok(right) => {
                let rest = old(stack)@.drop_last();
                &&& after_pop(rest, final(stack)@)
                &&& rest.len() == 0 ==> outcome(r) == Err::<Option<(i64, i64)>, Seq<char>>(underflow())
                &&& rest.len() > 0 ==> match comparison_integer_of(rest.last().model()) {
                    Err(e) => outcome(r) == Err::<Option<(i64, i64)>, Seq<char>>(e),
                    Ok(left) => outcome(r) == Ok::<Option<(i64, i64)>, Seq<char>>(comparison_pair(left, right)),
                }
            },
        },
{
    let right = match pop_optional_integer_for_comparison(stack) {
        Ok(v) => v,
        Err(e) => return Err(e),
    };
    let left = match pop_optional_integer_for_comparison(stack) {
        Ok(v) => v,
        Err(e) => return Err(e),
    };
    Ok(
        match (left, right) {
            (Some(l), Some(r)) => Some((l, r)),
            (None, None) => Some((0, 0)),
            _ => None,
        },
    )
}

/// The integer an item stands for as a shift count.
pub open spec fn shift_count_of(i: Item) -> Result<i64, Seq<char>> {
    match i {
        Item::Integer(v) => Ok(v),
        Item::Boolean(b) => Ok(bool_num(b)),
        Item::ByteString(b) | Item::BigInteger(b) | Item::Buffer(_, b) => decoded(b),
        Item::Null => Ok(0),
        _ => Err("expected integer-compatible shift count"@),
    }
}

/// Takes a shift count off the stack.
pub fn pop_shift_count(stack: &mut Vec<StackValue>) -> (r: Result<i64, String>)
    ensures
        after_pop(old(stack)@, final(stack)@),
        old(stack)@.len() == 0 ==> outcome(r) == Err::<i64, Seq<char>>(underflow()),
        old(stack)@.len() > 0 ==> outcome(r) == shift_count_of(old(stack)@.last().model()),
{
    match stack.pop() {
        Some(StackValue::Integer(value)) => Ok(value),
        Some(StackValue::Boolean(value)) => Ok(if value { 1 } else { 0 }),
        Some(StackValue::ByteString(value)) => decode_bytes(value.as_slice()),
        Some(StackValue::BigInteger(value)) => decode_bytes(value.as_slice()),
        Some(StackValue::Null) => Ok(0),
        Some(StackValue::Buffer(_, bytes)) => decode_bytes(bytes.as_slice()),
        Some(_) => Err(text("expected integer-compatible shift count")),
        None => Err(text("stack underflow")),
    }
}

/// The integer an item stands for as a numeric operand.
pub open spec fn numeric_operand_of(i: Item) -> Result<i64, Seq<char>> {
    match i {
        Item::Integer(v) => Ok(v),
        Item::Boolean(b) => Ok(bool_num(b)),
        Item::ByteString(b) | Item::BigInteger(b) | Item::Buffer(_, b) => decoded(b),
        Item::Null => Ok(0),
        _ => Err("expected integer-compatible value"@),
    }
}

/// Takes a numeric operand off the stack.
pub fn pop_numeric_value(stack: &mut Vec<StackValue>) -> (r: Result<i64, String>)
    ensures
        after_pop(old(stack)@, final(stack)@),
        old(stack)@.len() == 0 ==> outcome(r) == Err::<i64, Seq<char>>(underflow()),
        old(stack)@.len() > 0 ==> outcome(r) == numeric_operand_of(old(stack)@.last().model()),
{
    match stack.pop() {
        Some(StackValue::Integer(value)) => Ok(value),
        Some(StackValue::Boolean(value)) => Ok(if value { 1 } else { 0 }),
        Some(StackValue::ByteString(value)) => decode_bytes(value.as_slice()),
        Some(StackValue::BigInteger(value)) => decode_bytes(value.as_slice()),
        Some(StackValue::Null) => Ok(0),
        Some(StackValue::Buffer(_, bytes)) => decode_bytes(bytes.as_slice()),
        Some(_) => Err(text("expected integer-compatible value")),
        None => Err(text("stack underflow")),
    }
}

/// The shift operand an item stands for: integers, booleans and null as integers, byte
/// strings, big integers and buffers as byte strings holding their number.
pub open spec fn shift_value_of(i: Item) -> Result<ShiftValue, Seq<char>> {
    match i {
        Item::Integer(v) => Ok(ShiftValue::Integer(v)),
        Item::Boolean(b) => Ok(ShiftValue::Integer(bool_num(b))),
        Item::ByteString(b) | Item::BigInteger(b) | Item::Buffer(_, b) => match decoded(b) {
            Ok(v) => Ok(ShiftValue::ByteString(v)),
            Err(e) => Err(e),
        },
        Item::Null => Ok(ShiftValue::Integer(0)),
        _ => Err("expected integer-compatible shift value"@),
    }
}

fn decode_shift_bytes(bytes: &[u8]) -> (r: Result<ShiftValue, String>)
    ensures
        outcome(r) == match decoded(bytes@) {
            Ok(v) => Ok::<ShiftValue, Seq<char>>(ShiftValue::ByteString(v)),
            Err(e) => Err(e),
        },
{
    match decode_bytes(bytes) {
        Ok(v) => Ok(ShiftValue::ByteString(v)),
        Err(e) => Err(e),
    }
}

/// Takes a shift operand off the stack.
pub fn pop_shift_value(stack: &mut Vec<StackValue>) -> (r: Result<ShiftValue, String>)
    ensures
        after_pop(old(stack)@, final(stack)@),
        old(stack)@.len() == 0 ==> outcome(r) == Err::<ShiftValue, Seq<char>>(underflow()),
        old(stack)@.len() > 0 ==> outcome(r) == shift_value_of(old(stack)@.last().model()),
{
    match stack.pop() {
        Some(StackValue::Integer(value)) => Ok(ShiftValue::Integer(value)),
        Some(StackValue::Boolean(value)) => Ok(ShiftValue::Integer(if value { 1 } else { 0 })),
        Some(StackValue::ByteString(value)) => decode_shift_bytes(value.as_slice()),
        Some(StackValue::BigInteger(value)) => decode_shift_bytes(value.as_slice()),
        Some(StackValue::Null) => Ok(ShiftValue::Integer(0)),
        Some(StackValue::Buffer(_, bytes)) => decode_shift_bytes(bytes.as_slice()),
        Some(_) => Err(text("expected integer-compatible shift value")),
        None => Err(text("stack underflow")),
    }
}


// ---------------------------------------------------------------------------
// Reading items as numbers, booleans and bytes

/// The integer a primitive stands for in an equality test: integers, booleans and null.
pub open spec fn equality_integer_of(i: Item) -> Result<i64, Seq<char>> {
    match i {
        Item::Integer(v) => Ok(v),
        Item::Boolean(b) => Ok(bool_num(b)),
        Item::Null => Ok(0),
        _ => Err("expected integer-compatible value"@),
    }
}

/// The integer a primitive stands for in an equality test.
pub fn integer_value_for_equality(value: &StackValue) -> (r: Result<i64, String>)
    ensures
        outcome(r) == equality_integer_of(value.model()),
{
    match value {
        StackValue::Integer(v) => Ok(*v),
        StackValue::Boolean(b) => Ok(if *b { 1 } else { 0 }),
        StackValue::Null => Ok(0),
        _ => Err(text("expected integer-compatible value")),
    }
}

/// Whether an item is an integer, a boolean or null.
pub open spec fn is_numeric_primitive(i: Item) -> bool {
    i is Integer || i is Boolean || i is Null
}

/// What `NUMEQUAL` answers: byte strings compare by their bytes, integers, booleans and null
/// by the integers they stand for; anything else is refused.
pub open spec fn num_equal_of(l: Item, r: Item) -> Result<bool, Seq<char>> {
    if l is ByteString && r is ByteString {
        Ok(l->ByteString_0 == r->ByteString_0)
    } else if is_numeric_primitive(l) && is_numeric_primitive(r) {
        Ok(equality_integer_of(l)->Ok_0 == equality_integer_of(r)->Ok_0)
    } else {
        Err("NUMEQUAL expects primitive numeric or byte string values"@)
    }
}

/// Compares two primitives by number, or two byte strings by bytes.
pub fn num_equal(left: &StackValue, right: &StackValue) -> (r: Result<bool, String>)
    ensures
        outcome(r) == num_equal_of(left.model(), right.model()),
{
    match (left, right) {
        (StackValue::ByteString(l), StackValue::ByteString(r)) => Ok(crate::storage::bytes_equal(l.as_slice(), r.as_slice())),
        (
            StackValue::Integer(_) | StackValue::Boolean(_) | StackValue::Null,
            StackValue::Integer(_) | StackValue::Boolean(_) | StackValue::Null,
        ) => {
            let l = match integer_value_for_equality(left) {
                Ok(v) => v,
                Err(e) => return Err(e),
            };
            let r = match integer_value_for_equality(right) {
                Ok(v) => v,
                Err(e) => return Err(e),
            };
            Ok(l == r)
        },
        _ => Err(text("NUMEQUAL expects primitive numeric or byte string values")),
    }
}

/// The integer an item stands for as a collection index.
pub open spec fn collection_index_of(i: Item) -> Result<i64, Seq<char>> {
    match i {
        Item::Integer(v) => Ok(v),
        Item::Boolean(b) => Ok(bool_num(b)),
        Item::ByteString(b) | Item::BigInteger(b) => decoded(b),
        Item::Null => Ok(0),
        _ => Err("expected integer-compatible collection index"@),
    }
}

/// The integer an item stands for as a collection index.
pub fn integer_value_for_collection_index(value: &StackValue) -> (r: Result<i64, String>)
    ensures
        outcome(r) == collection_index_of(value.model()),
{
    match value {
        StackValue::Integer(v) => Ok(*v),
        StackValue::Boolean(b) => Ok(if *b { 1 } else { 0 }),
        StackValue::ByteString(b) => decode_bytes(b.as_slice()),
        StackValue::BigInteger(b) => decode_bytes(b.as_slice()),
        StackValue::Null => Ok(0),
        _ => Err(text("expected integer-compatible collection index")),
    }
}

/// Longest byte string accepted as a map key.
pub const MAX_MAP_KEY_SIZE: usize = 64;

/// Whether an item may key a map: an integer, a boolean, null, or a byte string of at most
/// 64 bytes.
pub open spec fn map_key_check(i: Item) -> Result<(), Seq<char>> {
    match i {
        Item::Integer(_) | Item::Boolean(_) | Item::Null => Ok(()),
        Item::ByteString(b) => if b.len() > MAX_MAP_KEY_SIZE {
            Err("map key exceeds maximum size"@)
        } else {
            Ok(())
        },
        _ => Err("map key must be primitive"@),
    }
}

/// Refuses an item that may not key a map.
pub fn validate_map_key(key: &StackValue) -> (r: Result<(), String>)
    ensures
        outcome(r) == map_key_check(key.model()),
{
    match key {
        StackValue::Integer(_) | StackValue::Boolean(_) | StackValue::Null => Ok(()),
        StackValue::ByteString(value) => {
            if value.len() > MAX_MAP_KEY_SIZE {
                Err(text("map key exceeds maximum size"))
            } else {
                Ok(())
            }
        },
        _ => Err(text("map key must be primitive")),
    }
}

/// Whether two map keys are the same: same kind and same value.
pub open spec fn same_key(l: Item, r: Item) -> bool {
    match (l, r) {
        (Item::Integer(a), Item::Integer(b)) => a == b,
        (Item::Boolean(a), Item::Boolean(b)) => a == b,
        (Item::Null, Item::Null) => true,
        (Item::ByteString(a), Item::ByteString(b)) => a == b,
        _ => false,
    }
}

/// Whether two map keys are the same.
pub fn primitive_key_equals(left: &StackValue, right: &StackValue) -> (r: bool)
    ensures
        r == same_key(left.model(), right.model()),
{
    match (left, right) {
        (StackValue::Integer(l), StackValue::Integer(r)) => *l == *r,
        (StackValue::Boolean(l), StackValue::Boolean(r)) => *l == *r,
        (StackValue::Null, StackValue::Null) => true,
        (StackValue::ByteString(l), StackValue::ByteString(r)) => crate::storage::bytes_equal(l.as_slice(), r.as_slice()),
        _ => false,
    }
}

/// The integer an item stands for as a numeric value.
pub open spec fn numeric_of(i: Item) -> Result<i64, Seq<char>> {
    match i {
        Item::Integer(v) => Ok(v),
        Item::Boolean(b) => Ok(bool_num(b)),
        Item::ByteString(b) | Item::BigInteger(b) | Item::Buffer(_, b) => decoded(b),
        Item::Null => Ok(0),
        _ => Err("expected numeric-compatible value"@),
    }
}

/// The integer an item stands for.
pub fn numeric_value(value: &StackValue) -> (r: Result<i64, String>)
    ensures
        outcome(r) == numeric_of(value.model()),
{
    match value {
        StackValue::Integer(v) => Ok(*v),
        StackValue::Boolean(b) => Ok(if *b { 1 } else { 0 }),
        StackValue::ByteString(b) => decode_bytes(b.as_slice()),
        StackValue::BigInteger(b) => decode_bytes(b.as_slice()),
        StackValue::Buffer(_, b) => decode_bytes(b.as_slice()),
        StackValue::Null => Ok(0),
        _ => Err(text("expected numeric-compatible value")),
    }
}

/// The truth of an item: a nonzero integer, a byte string or big integer with a nonzero
/// byte, any compound item or handle; null is false.
pub open spec fn truth_of(i: Item) -> bool {
    match i {
        Item::Boolean(b) => b,
        Item::Integer(v) => v != 0,
        Item::BigInteger(b) | Item::ByteString(b) => any_nonzero(b),
        Item::Null => false,
        _ => true,
    }
}

/// The truth of an item; never refused.
pub fn boolean_value(value: &StackValue) -> (r: Result<bool, String>)
    ensures
        outcome(r) == Ok::<bool, Seq<char>>(truth_of(value.model())),
{
    match value {
        StackValue::Boolean(b) => Ok(*b),
        StackValue::Integer(v) => Ok(*v != 0),
        StackValue::BigInteger(b) => Ok(bytes_any_nonzero(b.as_slice())),
        StackValue::ByteString(b) => Ok(bytes_any_nonzero(b.as_slice())),
        StackValue::Null => Ok(false),
        _ => Ok(true),
    }
}

/// The truth of an item taken off the stack: like `truth_of`, except that a buffer is true
/// when one of its bytes is nonzero.
pub open spec fn popped_truth_of(i: Item) -> bool {
    match i {
        Item::Buffer(_, b) => any_nonzero(b),
        _ => truth_of(i),
    }
}

/// Takes an item off the stack as a boolean.
pub fn pop_boolean(stack: &mut Vec<StackValue>) -> (r: Result<bool, String>)
    ensures
        after_pop(old(stack)@, final(stack)@),
        old(stack)@.len() == 0 ==> outcome(r) == Err::<bool, Seq<char>>(underflow()),
        old(stack)@.len() > 0 ==> outcome(r) == Ok::<bool, Seq<char>>(popped_truth_of(old(stack)@.last().model())),
{
    match stack.pop() {
        Some(StackValue::Boolean(value)) => Ok(value),
        Some(StackValue::Integer(value)) => Ok(value != 0),
        Some(StackValue::BigInteger(value)) => Ok(bytes_any_nonzero(value.as_slice())),
        Some(StackValue::ByteString(value)) => Ok(bytes_any_nonzero(value.as_slice())),
        Some(StackValue::Buffer(_, value)) => Ok(bytes_any_nonzero(value.as_slice())),
        Some(StackValue::Null) => Ok(false),
        Some(_) => Ok(true),
        None => Err(text("stack underflow")),
    }
}

/// Longest byte string read as an integer for its truth.
pub const MAX_INTEGER_SIZE: usize = 32;

/// The truth of an item read through its integer: byte strings, big integers and buffers
/// longer than 32 bytes are refused.
pub open spec fn strict_truth_of(i: Item) -> Result<bool, Seq<char>> {
    match i {
        Item::Boolean(b) => Ok(b),
        Item::Integer(v) => Ok(v != 0),
        Item::BigInteger(b) | Item::ByteString(b) | Item::Buffer(_, b) => if b.len() > MAX_INTEGER_SIZE {
            Err("integer size exceeds maximum"@)
        } else {
            Ok(any_nonzero(b))
        },
        Item::Null => Ok(false),
        _ => Ok(true),
    }
}

fn strict_bytes_truth(bytes: &[u8]) -> (r: Result<bool, String>)
    ensures
        outcome(r) == if bytes@.len() > MAX_INTEGER_SIZE {
            Err::<bool, Seq<char>>("integer size exceeds maximum"@)
        } else {
            Ok(any_nonzero(bytes@))
        },
{
    if bytes.len() > MAX_INTEGER_SIZE {
        return Err(text("integer size exceeds maximum"));
    }
    Ok(bytes_any_nonzero(bytes))
}

/// The truth of an item read through its integer, as NeoVM's `GetBoolean` reads it.
pub fn item_to_boolean_strict(item: &StackValue) -> (r: Result<bool, String>)
    ensures
        outcome(r) == strict_truth_of(item.model()),
{
    match item {
        StackValue::Boolean(b) => Ok(*b),
        StackValue::Integer(v) => Ok(*v != 0),
        StackValue::BigInteger(b) => strict_bytes_truth(b.as_slice()),
        StackValue::ByteString(b) => strict_bytes_truth(b.as_slice()),
        StackValue::Buffer(_, b) => strict_bytes_truth(b.as_slice()),
        StackValue::Null => Ok(false),
        _ => Ok(true),
    }
}

/// The bytes an item stands for: byte strings, buffers and big integers as they are, an
/// integer by its canonical bytes, a boolean as one byte, null as none.
pub open spec fn bytes_of(i: Item) -> Result<Seq<u8>, Seq<char>> {
    match i {
        Item::ByteString(b) | Item::Buffer(_, b) | Item::BigInteger(b) => Ok(b),
        Item::Integer(v) => Ok(int_bytes(v)),
        Item::Boolean(b) => Ok(seq![if b { 1u8 } else { 0u8 }]),
        Item::Null => Ok(Seq::empty()),
        _ => Err("expected byte string-compatible item on stack"@),
    }
}

/// The bytes an item stands for.
pub fn stack_item_to_bytes(item: StackValue) -> (r: Result<Vec<u8>, String>)
    ensures
        bytes_outcome(r) == bytes_of(item.model()),
{
    match item {
        StackValue::ByteString(value) => Ok(value),
        StackValue::Buffer(_, value) => Ok(value),
        StackValue::Integer(value) => Ok(encode_integer(value)),
        StackValue::BigInteger(value) => Ok(value),
        StackValue::Boolean(value) => {
            let byte: u8 = if value { 1 } else { 0 };
            let mut out: Vec<u8> = Vec::new();
            out.push(byte);
            assert(out@ =~= seq![byte]);
            Ok(out)
        },
        StackValue::Null => {
            let out: Vec<u8> = Vec::new();
            assert(out@ =~= Seq::<u8>::empty());
            Ok(out)
        },
        _ => Err(text("expected byte string-compatible item on stack")),
    }
}

/// Takes an item off the stack as bytes.
pub fn pop_bytes(stack: &mut Vec<StackValue>) -> (r: Result<Vec<u8>, String>)
    ensures
        after_pop(old(stack)@, final(stack)@),
        old(stack)@.len() == 0 ==> bytes_outcome(r) == Err::<Seq<u8>, Seq<char>>(underflow()),
        old(stack)@.len() > 0 ==> bytes_outcome(r) == bytes_of(old(stack)@.last().model()),
{
    match stack.pop() {
        Some(item) => stack_item_to_bytes(item),
        None => Err(text("stack underflow")),
    }
}


// ---------------------------------------------------------------------------
// Equality of stack items

/// NeoVM equality: primitives by value (an integer equals a big integer holding its
/// canonical bytes), arrays, maps and buffers by identity, structs by identity or else item
/// by item.
pub open spec fn vm_eq(l: Item, r: Item) -> bool
    decreases l, 0nat, 0nat,
{
    match (l, r) {
        (Item::Integer(a), Item::Integer(b)) => a == b,
        (Item::Integer(a), Item::BigInteger(b)) => int_bytes(a) == b,
        (Item::BigInteger(b), Item::Integer(a)) => int_bytes(a) == b,
        (Item::BigInteger(a), Item::BigInteger(b)) => a == b,
        (Item::ByteString(a), Item::ByteString(b)) => a == b,
        (Item::Boolean(a), Item::Boolean(b)) => a == b,
        (Item::Pointer(a), Item::Pointer(b)) => a == b,
        (Item::Null, Item::Null) => true,
        (Item::Interop(a), Item::Interop(b)) => a == b,
        (Item::Iterator(a), Item::Iterator(b)) => a == b,
        (Item::Array(i, _), Item::Array(j, _)) => i == j,
        (Item::Dictionary(i, _), Item::Dictionary(j, _)) => i == j,
        (Item::Buffer(i, _), Item::Buffer(j, _)) => i == j,
        (Item::Struct(i, a), Item::Struct(j, b)) => i == j || (a.len() == b.len() && items_eq(a, b, a.len())),
        _ => false,
    }
}

/// The first `n` items of `a` and `b` are equal position by position.
pub open spec fn items_eq(a: Seq<Item>, b: Seq<Item>, n: nat) -> bool
    decreases a, 1nat, n,
{
    if n == 0 {
        true
    } else if n > a.len() {
        false
    } else {
        items_eq(a, b, (n - 1) as nat) && vm_eq(a[n - 1], b[n - 1])
    }
}

proof fn lemma_items_eq(a: Seq<Item>, b: Seq<Item>, n: nat)
    requires
        n <= a.len(),
        n <= b.len(),
    ensures
        items_eq(a, b, n) <==> forall|k: int| 0 <= k < n ==> #[trigger] vm_eq(a[k], b[k]),
    decreases n,
{
    if n > 0 {
        lemma_items_eq(a, b, (n - 1) as nat);
        if items_eq(a, b, n) {
            assert forall|k: int| 0 <= k < n implies #[trigger] vm_eq(a[k], b[k]) by {
                if k < n - 1 {
                    assert(vm_eq(a[k], b[k]));
                }
            }
        }
        if forall|k: int| 0 <= k < n ==> #[trigger] vm_eq(a[k], b[k]) {
            assert forall|k: int| 0 <= k < n - 1 implies #[trigger] vm_eq(a[k], b[k]) by {
                assert(vm_eq(a[k], b[k]));
            }
            assert(vm_eq(a[n - 1], b[n - 1]));
        }
    }
}

/// The number of items in `i`, itself included, at any depth.
pub open spec fn item_size(i: Item) -> nat
    decreases i, 0nat,
{
    match i {
        Item::Array(_, s) | Item::Struct(_, s) => 1 + items_size(s),
        Item::Dictionary(_, e) => 1 + entries_size(e),
        _ => 1,
    }
}

/// The sizes of the items of `s`, added up.
pub open spec fn items_size(s: Seq<Item>) -> nat
    decreases s, 1nat,
{
    if s.len() == 0 { 0 } else { items_size(s.subrange(0, s.len() - 1)) + item_size(s[s.len() - 1]) }
}

/// The sizes of the keys and values of `s`, added up.
pub open spec fn entries_size(s: Seq<(Item, Item)>) -> nat
    decreases s, 1nat,
{
    if s.len() == 0 {
        0
    } else {
        entries_size(s.subrange(0, s.len() - 1)) + item_size(s[s.len() - 1].0) + item_size(s[s.len() - 1].1)
    }
}

/// The pairs still to compare, all equal.
pub open spec fn all_eq(p: Seq<(&StackValue, &StackValue)>) -> bool {
    forall|k: int| 0 <= k < p.len() ==> #[trigger] vm_eq(p[k].0.model(), p[k].1.model())
}

/// The sizes of the pairs still to compare, added up.
pub open spec fn pending_size(p: Seq<(&StackValue, &StackValue)>) -> nat
    decreases p.len(),
{
    if p.len() == 0 {
        0
    } else {
        pending_size(p.drop_last()) + item_size(p.last().0.model()) + item_size(p.last().1.model())
    }
}

/// Compares two structs item by item without recursing: pairs still to compare wait on a
/// list, and the first unequal pair ends the comparison.
fn struct_equal(left: &StackValue, right: &StackValue) -> (r: bool)
    ensures
        r == vm_eq(left.model(), right.model()),
{
    let mut pending: Vec<(&StackValue, &StackValue)> = Vec::new();
    pending.push((left, right));
    proof {
        assert(pending@.drop_last() =~= Seq::<(&StackValue, &StackValue)>::empty());
        assert(pending@.len() == 1 && pending@[0] == (left, right));
        assert(all_eq(pending@) == vm_eq(left.model(), right.model())) by {
            if vm_eq(left.model(), right.model()) {
                assert forall|k: int| 0 <= k < pending@.len() implies #[trigger] vm_eq(pending@[k].0.model(), pending@[k].1.model()) by {
                    assert(k == 0);
                }
            }
            if all_eq(pending@) {
                assert(vm_eq(pending@[0].0.model(), pending@[0].1.model()));
            }
        }
    }
    while pending.len() > 0
        invariant
            vm_eq(left.model(), right.model()) == all_eq(pending@),
        decreases pending_size(pending@),
    {
        let ghost before = pending@;
        let (l, r) = match pending.pop() {
            Some(pair) => pair,
            None => return true,
        };
        let ghost rest = pending@;
        proof {
            assert(rest =~= before.drop_last());
            assert(all_eq(before) == (all_eq(rest) && vm_eq(l.model(), r.model()))) by {
                if all_eq(rest) && vm_eq(l.model(), r.model()) {
                    assert forall|k: int| 0 <= k < before.len() implies #[trigger] vm_eq(before[k].0.model(), before[k].1.model()) by {
                        if k < rest.len() {
                            assert(before[k] == rest[k]);
                        }
                    }
                }
                if all_eq(before) {
                    assert(vm_eq(before[before.len() - 1].0.model(), before[before.len() - 1].1.model()));
                    assert forall|k: int| 0 <= k < rest.len() implies #[trigger] vm_eq(rest[k].0.model(), rest[k].1.model()) by {
                        assert(before[k] == rest[k]);
                    }
                }
            }
        }
        match (l, r) {
            (StackValue::Integer(a), StackValue::Integer(b)) => {
                if *a != *b {
                    return false;
                }
            },
            (StackValue::Integer(a), StackValue::BigInteger(b)) => {
                let enc = encode_integer(*a);
                if !crate::storage::bytes_equal(enc.as_slice(), b.as_slice()) {
                    return false;
                }
            },
            (StackValue::BigInteger(b), StackValue::Integer(a)) => {
                let enc = encode_integer(*a);
                if !crate::storage::bytes_equal(enc.as_slice(), b.as_slice()) {
                    return false;
                }
            },
            (StackValue::BigInteger(a), StackValue::BigInteger(b)) => {
                if !crate::storage::bytes_equal(a.as_slice(), b.as_slice()) {
                    return false;
                }
            },
            (StackValue::ByteString(a), StackValue::ByteString(b)) => {
                if !crate::storage::bytes_equal(a.as_slice(), b.as_slice()) {
                    return false;
                }
            },
            (StackValue::Boolean(a), StackValue::Boolean(b)) => {
                if *a != *b {
                    return false;
                }
            },
            (StackValue::Pointer(a), StackValue::Pointer(b)) => {
                if *a != *b {
                    return false;
                }
            },
            (StackValue::Null, StackValue::Null) => {},
            (StackValue::Interop(a), StackValue::Interop(b)) => {
                if *a != *b {
                    return false;
                }
            },
            (StackValue::Iterator(a), StackValue::Iterator(b)) => {
                if *a != *b {
                    return false;
                }
            },
            (StackValue::Array(a, _), StackValue::Array(b, _)) => {
                if *a != *b {
                    return false;
                }
            },
            (StackValue::Dictionary(a, _), StackValue::Dictionary(b, _)) => {
                if *a != *b {
                    return false;
                }
            },
            (StackValue::Buffer(a, _), StackValue::Buffer(b, _)) => {
                if *a != *b {
                    return false;
                }
            },
            (StackValue::Struct(a, litems), StackValue::Struct(b, ritems)) => {
                if *a != *b {
                    let ghost lm = crate::stack_value::model_seq(litems@);
                    let ghost rm = crate::stack_value::model_seq(ritems@);
                    proof {
                        crate::stack_value::lemma_model_seq_index(litems@);
                        crate::stack_value::lemma_model_seq_index(ritems@);
                    }
                    if litems.len() != ritems.len() {
                        return false;
                    }
                    proof {
                        lemma_items_eq(lm, rm, lm.len());
                    }
                    let n = litems.len();
                    let mut j: usize = 0;
                    while j < n
                        invariant
                            n == litems@.len(),
                            n == ritems@.len(),
                            lm.len() == n,
                            rm.len() == n,
                            lm == crate::stack_value::model_seq(litems@),
                            rm == crate::stack_value::model_seq(ritems@),
                            forall|k: int| 0 <= k < n ==> #[trigger] lm[k] == litems@[k].model(),
                            forall|k: int| 0 <= k < n ==> #[trigger] rm[k] == ritems@[k].model(),
                            j <= n,
                            pending@.len() == rest.len() + j,
                            forall|k: int| 0 <= k < rest.len() ==> #[trigger] pending@[k] == rest[k],
                            forall|k: int| 0 <= k < j ==> #[trigger] pending@[rest.len() + k] == (&litems@[k], &ritems@[k]),
                            pending_size(pending@) == pending_size(rest) + items_size(lm.subrange(0, j as int))
                                + items_size(rm.subrange(0, j as int)),
                        decreases n - j,
                    {
                        let ghost p0 = pending@;
                        pending.push((&litems[j], &ritems[j]));
                        proof {
                            assert(pending@.drop_last() =~= p0);
                            assert(lm.subrange(0, j + 1).subrange(0, j as int) =~= lm.subrange(0, j as int));
                            assert(rm.subrange(0, j + 1).subrange(0, j as int) =~= rm.subrange(0, j as int));
                        }
                        j += 1;
                    }
                    proof {
                        assert(lm.subrange(0, n as int) =~= lm);
                        assert(rm.subrange(0, n as int) =~= rm);
                        let after = pending@;
                        assert(all_eq(after) == (all_eq(rest) && items_eq(lm, rm, lm.len()))) by {
                            if all_eq(after) {
                                assert forall|k: int| 0 <= k < rest.len() implies #[trigger] vm_eq(rest[k].0.model(), rest[k].1.model()) by {
                                    assert(after[k] == rest[k]);
                                }
                                assert forall|k: int| 0 <= k < n implies #[trigger] vm_eq(lm[k], rm[k]) by {
                                    assert(after[rest.len() + k] == (&litems@[k], &ritems@[k]));
                                    assert(vm_eq(after[rest.len() + k].0.model(), after[rest.len() + k].1.model()));
                                }
                            }
                            if all_eq(rest) && items_eq(lm, rm, lm.len()) {
                                assert forall|k: int| 0 <= k < after.len() implies #[trigger] vm_eq(after[k].0.model(), after[k].1.model()) by {
                                    if k < rest.len() {
                                        assert(after[k] == rest[k]);
                                    } else {
                                        let m = k - rest.len();
                                        assert(after[rest.len() + m] == (&litems@[m], &ritems@[m]));
                                        assert(vm_eq(lm[m], rm[m]));
                                    }
                                }
                            }
                        }
                    }
                }
            },
            _ => {
                return false;
            },
        }
    }
    true
}

/// NeoVM equality of two stack items.
pub fn vm_equal(left: &StackValue, right: &StackValue) -> (r: bool)
    ensures
        r == vm_eq(left.model(), right.model()),
{
    match (left, right) {
        (StackValue::Struct(a, _), StackValue::Struct(b, _)) => {
            if *a == *b {
                true
            } else {
                struct_equal(left, right)
            }
        },
        _ => struct_equal(left, right),
    }
}


// ---------------------------------------------------------------------------
// CONVERT

/// The type bytes that `CONVERT` accepts: Boolean, Integer, ByteString, Buffer, Array,
/// Struct, Map and InteropInterface.
pub open spec fn convert_target_ok(kind: u8) -> bool {
    kind == 0x20 || kind == 0x21 || kind == 0x28 || kind == 0x30 || kind == 0x40 || kind == 0x41 || kind == 0x48
        || kind == 0x60
}

/// Whether converting `v` to `kind` makes a new compound item.
pub open spec fn convert_allocates(kind: u8, v: Item) -> bool {
    (kind == 0x30 && (v is ByteString || v is Integer)) || (kind == 0x40 && v is Struct) || (kind == 0x41 && v is Array)
}

/// What `CONVERT` to `kind` gives for `v`, a new compound item taking the identity `next`.
pub open spec fn convert_of(kind: u8, v: Item, next: u64) -> Result<Item, Seq<char>> {
    if !convert_target_ok(kind) {
        Err("unsupported CONVERT target 0x"@ + crate::text::hex2(kind))
    } else if v is Null {
        Ok(Item::Null)
    } else if kind == 0x20 {
        Ok(Item::Boolean(truth_of(v)))
    } else if kind == 0x21 {
        match numeric_of(v) {
            Ok(n) => Ok(Item::Integer(n)),
            Err(e) => Err(e),
        }
    } else if kind == 0x28 {
        match v {
            Item::ByteString(b) | Item::Buffer(_, b) | Item::BigInteger(b) => Ok(Item::ByteString(b)),
            Item::Integer(x) => Ok(Item::ByteString(int_bytes(x))),
            Item::Boolean(b) => Ok(Item::ByteString(seq![if b { 1u8 } else { 0u8 }])),
            _ => Err("unsupported CONVERT source for ByteString: "@ + debug_text_of(v)),
        }
    } else if kind == 0x30 {
        match v {
            Item::ByteString(b) => Ok(Item::Buffer(next, b)),
            Item::Buffer(_, _) => Ok(v),
            Item::Integer(x) => Ok(Item::Buffer(next, int_bytes(x))),
            _ => Err("unsupported CONVERT source for Buffer: "@ + debug_text_of(v)),
        }
    } else if kind == 0x40 {
        match v {
            Item::Array(_, _) => Ok(v),
            Item::Struct(_, items) => Ok(Item::Array(next, items)),
            _ => Err("unsupported CONVERT source for Array: "@ + debug_text_of(v)),
        }
    } else if kind == 0x41 {
        match v {
            Item::Struct(_, _) => Ok(v),
            Item::Array(_, items) => Ok(Item::Struct(next, items)),
            _ => Err("unsupported CONVERT source for Struct: "@ + debug_text_of(v)),
        }
    } else if kind == 0x48 {
        match v {
            Item::Dictionary(_, _) => Ok(v),
            _ => Err("unsupported CONVERT source for Map: "@ + debug_text_of(v)),
        }
    } else {
        match v {
            Item::Interop(_) => Ok(v),
            _ => Err("unsupported CONVERT source for Interop: "@ + debug_text_of(v)),
        }
    }
}

fn convert_error(prefix: &str, value: &StackValue) -> (r: String)
    ensures
        r@ == prefix@ + debug_text_of(value.model()),
{
    let mut s = text(prefix);
    let d = debug_text(value);
    s.append(d.as_str());
    s
}

/// Converts `value` to the stack item type `kind` (`CONVERT`). A new buffer, array or
/// struct takes its identity from `ids`.
pub fn convert_value(kind: u8, value: StackValue, ids: &mut CompoundIds) -> (r: Result<StackValue, String>)
    requires
        convert_allocates(kind, value.model()) ==> old(ids).next_id() < u64::MAX,
    ensures
        item_outcome(r) == convert_of(kind, value.model(), old(ids).next_id()),
        final(ids).next_id() == if convert_target_ok(kind) && !(value.model() is Null) && convert_allocates(kind, value.model()) {
            old(ids).next_id() + 1
        } else {
            old(ids).next_id() as int
        },
{
    if !(kind == 0x20 || kind == 0x21 || kind == 0x28 || kind == 0x30 || kind == 0x40 || kind == 0x41 || kind == 0x48
        || kind == 0x60) {
        let mut s = text("unsupported CONVERT target 0x");
        crate::text::push_hex2(&mut s, kind);
        return Err(s);
    }
    if let StackValue::Null = value {
        return Ok(StackValue::Null);
    }
    if kind == 0x20 {
        match boolean_value(&value) {
            Ok(b) => Ok(StackValue::Boolean(b)),
            Err(e) => Err(e),
        }
    } else if kind == 0x21 {
        match numeric_value(&value) {
            Ok(n) => Ok(StackValue::Integer(n)),
            Err(e) => Err(e),
        }
    } else if kind == 0x28 {
        match value {
            StackValue::ByteString(bytes) => Ok(StackValue::ByteString(bytes)),
            StackValue::Buffer(_, bytes) => Ok(StackValue::ByteString(bytes)),
            StackValue::Integer(x) => Ok(StackValue::ByteString(encode_integer(x))),
            StackValue::Boolean(b) => {
                let byte: u8 = if b { 1 } else { 0 };
                let mut out: Vec<u8> = Vec::new();
                out.push(byte);
                assert(out@ =~= seq![byte]);
                Ok(StackValue::ByteString(out))
            },
            StackValue::BigInteger(bytes) => Ok(StackValue::ByteString(bytes)),
            other => Err(convert_error("unsupported CONVERT source for ByteString: ", &other)),
        }
    } else if kind == 0x30 {
        match value {
            StackValue::ByteString(bytes) => Ok(ids.buffer(bytes)),
            StackValue::Buffer(id, bytes) => Ok(StackValue::Buffer(id, bytes)),
            StackValue::Integer(x) => Ok(ids.buffer(encode_integer(x))),
            other => Err(convert_error("unsupported CONVERT source for Buffer: ", &other)),
        }
    } else if kind == 0x40 {
        match value {
            StackValue::Array(id, items) => Ok(StackValue::Array(id, items)),
            StackValue::Struct(_, items) => Ok(ids.array(items)),
            other => Err(convert_error("unsupported CONVERT source for Array: ", &other)),
        }
    } else if kind == 0x41 {
        match value {
            StackValue::Struct(id, items) => Ok(StackValue::Struct(id, items)),
            StackValue::Array(_, items) => Ok(ids.struct_value(items)),
            other => Err(convert_error("unsupported CONVERT source for Struct: ", &other)),
        }
    } else if kind == 0x48 {
        match value {
            StackValue::Dictionary(id, entries) => Ok(StackValue::Dictionary(id, entries)),
            other => Err(convert_error("unsupported CONVERT source for Map: ", &other)),
        }
    } else {
        match value {
            StackValue::Interop(h) => Ok(StackValue::Interop(h)),
            other => Err(convert_error("unsupported CONVERT source for Interop: ", &other)),
        }
    }
}

// ---------------------------------------------------------------------------
// Jump operands

/// The width of a jump or call operand.
#[derive(Clone, Copy, Debug, PartialEq, Eq, Structural)]
pub enum Offset {
    /// A one-byte signed operand.
    Short,
    /// A four-byte little-endian signed operand (the `_L` forms).
    Long,
}

/// Reads the signed operand of the jump or call at `ip`: the offset and the length of the
/// instruction with its operand. `name` names the instruction in the error.
pub fn read_offset(script: &[u8], ip: usize, kind: &Offset, name: &str) -> (r: Result<(isize, usize), String>)
    requires
        ip + 5 <= usize::MAX,
    ensures
        *kind == Offset::Short ==> if ip + 2 > script@.len() {
            r matches Err(m) && m@ == "truncated "@ + name@ + " operand"@
        } else {
            r matches Ok((off, len)) && off == (script@[ip + 1] as i8) as isize && len == 2
        },
        *kind == Offset::Long ==> if ip + 5 > script@.len() {
            r matches Err(m) && m@ == "truncated "@ + name@ + "_L operand"@
        } else {
            r matches Ok((off, len)) && off == (crate::retained::le_u32_at(script@, ip + 1) as i32) as isize && len == 5
        },
{
    match kind {
        Offset::Short => {
            if ip + 2 > script.len() {
                let mut s = text("truncated ");
                s.append(name);
                s.append(" operand");
                return Err(s);
            }
            let offset = script[ip + 1] as i8;
            Ok((offset as isize, 2))
        },
        Offset::Long => {
            if ip + 5 > script.len() {
                let mut s = text("truncated ");
                s.append(name);
                s.append("_L operand");
                return Err(s);
            }
            let raw: u32 = (script[ip + 1] as u32) | ((script[ip + 2] as u32) << 8u32) | ((script[ip + 3] as u32) << 16u32)
                | ((script[ip + 4] as u32) << 24u32);
            Ok(((raw as i32) as isize, 5))
        },
    }
}

/// The target of a jump from `ip` by `offset`, which must lie within the script (its end
/// included). `name` names the instruction in the error.
pub fn compute_jump_target_offset(ip: usize, offset: isize, script_len: usize, name: &str) -> (r: Result<usize, String>)
    requires
        ip <= isize::MAX,
        isize::MIN <= ip + offset <= isize::MAX,
    ensures
        (ip + offset < 0 || ip + offset > script_len) ==> (r matches Err(m) && m@ == name@ + " target out of bounds"@),
        (0 <= ip + offset <= script_len) ==> r == Ok::<usize, String>((ip + offset) as usize),
{
    let target = ip as isize + offset;
    if target < 0 || target as usize > script_len {
        let mut s = text(name);
        s.append(" target out of bounds");
        return Err(s);
    }
    Ok(target as usize)
}

// ---------------------------------------------------------------------------
// What truth, equality and conversion mean

proof fn lemma_zero_bytes_read_zero(b: Seq<u8>)
    requires
        !any_nonzero(b),
    ensures
        le_unsigned(b) == 0,
        signed_le(b) == 0,
    decreases b.len(),
{
    if b.len() > 0 {
        let d = b.drop_last();
        assert(!any_nonzero(d)) by {
            if any_nonzero(d) {
                let i = choose|i: int| 0 <= i < d.len() && d[i] != 0;
                assert(b[i] == d[i]);
            }
        }
        lemma_zero_bytes_read_zero(d);
        assert(b.last() == b[b.len() - 1]);
        assert(b[b.len() - 1] == 0);
    }
}

/// An integer is true exactly when it is not zero, whether read as a condition, popped, or
/// read strictly; and its canonical bytes are true exactly when it is: for every `i64` `v`.
pub proof fn law_integer_truth_is_nonzero(v: i64)
    ensures
        truth_of(Item::Integer(v)) == (v != 0),
        popped_truth_of(Item::Integer(v)) == (v != 0),
        strict_truth_of(Item::Integer(v)) == Ok::<bool, Seq<char>>(v != 0),
        popped_truth_of(Item::ByteString(int_bytes(v))) == popped_truth_of(Item::Integer(v)),
{
    law_integer_encoding_round_trip(v);
    if v == 0 {
        assert(!any_nonzero(int_bytes(v)));
    } else if !any_nonzero(int_bytes(v)) {
        lemma_zero_bytes_read_zero(int_bytes(v));
    }
}

/// Popping an item as a boolean gives its truth: for every item that is not a buffer,
/// `popped_truth_of(i) == truth_of(i)`; a buffer is true exactly when one of its bytes is
/// not zero, as a byte string with the same bytes is.
pub proof fn law_popped_truth_is_truth(i: Item)
    ensures
        !(i is Buffer) ==> popped_truth_of(i) == truth_of(i),
        i matches Item::Buffer(_, b) ==> popped_truth_of(i) == any_nonzero(b)
            && popped_truth_of(i) == truth_of(Item::ByteString(b)),
{
}

/// Whether an item holds a plain value rather than a compound item with an identity.
pub open spec fn is_plain(i: Item) -> bool {
    !(i is Array || i is Struct || i is Dictionary || i is Buffer)
}

/// Plain values are VM-equal exactly when they are the same value, except that an integer
/// and a big integer compare by the integer's canonical bytes: for all plain `x` and `y`
/// that are not an integer and a big integer, `vm_eq(x, y) <==> x == y`.
pub proof fn law_plain_values_are_equal_when_identical(x: Item, y: Item)
    requires
        is_plain(x),
        is_plain(y),
        !(x is Integer && y is BigInteger),
        !(x is BigInteger && y is Integer),
    ensures
        vm_eq(x, y) <==> x == y,
{
}

/// Two byte strings are VM-equal exactly when they hold the same bytes: for all `a` and `b`,
/// `vm_eq(ByteString(a), ByteString(b)) <==> a == b`.
pub proof fn law_byte_strings_equal_by_content(a: Seq<u8>, b: Seq<u8>)
    ensures
        vm_eq(Item::ByteString(a), Item::ByteString(b)) <==> a == b,
{
}

/// Converting to a byte string gives the bytes the item stands for: for every item `v` that
/// is not `Null` and has bytes (`bytes_of(v)` is `Ok`), `CONVERT` to ByteString gives a byte
/// string of exactly those bytes.
pub proof fn law_convert_to_bytes_gives_item_bytes(v: Item, next: u64)
    requires
        !(v is Null),
        bytes_of(v) is Ok,
    ensures
        convert_of(0x28, v, next) == Ok::<Item, Seq<char>>(Item::ByteString(bytes_of(v)->Ok_0)),
{
}

/// A boolean converts to a byte string of exactly one byte, 1 for true and 0 for false, and
/// that byte string converts back to the same boolean: for every `b`.
pub proof fn law_boolean_bytes_are_one_byte(b: bool, next: u64)
    ensures
        convert_of(0x28, Item::Boolean(b), next) matches Ok(Item::ByteString(s))
            && s.len() == 1 && s[0] == (if b { 1u8 } else { 0u8 }),
        convert_of(0x20, Item::ByteString(seq![if b { 1u8 } else { 0u8 }]), next)
            == Ok::<Item, Seq<char>>(Item::Boolean(b)),
{
    let s = seq![if b { 1u8 } else { 0u8 }];
    if b {
        assert(s[0] != 0);
    } else {
        assert(!any_nonzero(s)) by {
            if any_nonzero(s) {
                let i = choose|i: int| 0 <= i < s.len() && s[i] != 0;
            }
        }
    }
}

} // verus!
