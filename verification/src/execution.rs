use vstd::prelude::*;
use crate::abi::{ExecutionResult, VmState, AbiStackValue, AbiItem, abi_model_seq, lemma_abi_model_seq_index};
use crate::storage::bytes_to_vec;
use crate::text::{text, push_decimal, decimal};
use vstd::string::{StringExecFns, StringSliceAdditionalSpecFns};

verus! {

// ---------------------------------------------------------------------------
// Laying out the guest's auxiliary memory

/// Largest result a guest may hand back, in bytes.
pub const MAX_RESULT_SIZE: u32 = 16 * 1024 * 1024;

/// `value` rounded up to a multiple of `align`, saturating at `u32::MAX`; zero stays zero.
pub open spec fn align_up_spec(value: u32, align: u32) -> u32 {
    if value == 0 {
        0
    } else {
        let up = ((value as int + align - 1) / (align as int)) * (align as int);
        if up > u32::MAX { u32::MAX } else { up as u32 }
    }
}

/// Rounds `value` up to a multiple of `align`, saturating at `u32::MAX`.
pub fn align_up_u32(value: u32, align: u32) -> (r: u32)
    requires
        align > 0,
    ensures
        r == align_up_spec(value, align),
{
    if value == 0 {
        return 0;
    }
    let v = value as u64;
    let al = align as u64;
    let quotient: u64 = v / al + if v % al != 0 { 1 } else { 0 };
    proof {
        assert(quotient as int == (v as int + al - 1) / (al as int) && quotient <= v) by (nonlinear_arith)
            requires
                quotient as int == v as int / al as int + if v as int % al as int != 0 { 1int } else { 0int },
                al > 0,
                v > 0,
        ;
        assert(quotient * al <= 0xFFFF_FFFE_0000_0001) by (nonlinear_arith)
            requires
                quotient <= 0xFFFF_FFFF,
                al <= 0xFFFF_FFFF,
        ;
    }
    let product: u64 = quotient * al;
    if product > u32::MAX as u64 {
        u32::MAX
    } else {
        product as u32
    }
}

/// The auxiliary memory a script and its encoded stack take: the script rounded up to eight
/// bytes, then the stack (saturating); nothing when both are empty.
pub open spec fn required_aux_size_spec(script_len: u32, stack_len: u32) -> u32 {
    if script_len == 0 && stack_len == 0 {
        0
    } else {
        let a = align_up_spec(script_len, 8);
        if a + stack_len > u32::MAX { u32::MAX } else { (a + stack_len) as u32 }
    }
}

/// The auxiliary memory a script and its encoded stack take.
pub fn required_aux_size(script_len: u32, stack_len: u32) -> (r: u32)
    ensures
        r == required_aux_size_spec(script_len, stack_len),
{
    if script_len == 0 && stack_len == 0 {
        0
    } else {
        align_up_u32(script_len, 8).saturating_add(stack_len)
    }
}

/// The auxiliary memory for a native contract's stack: the encoded stack, rounded up to
/// eight bytes; refused past `u32::MAX`.
pub open spec fn stack_aux_size_spec(len: int) -> Result<u32, Seq<char>> {
    if len == 0 {
        Ok(0)
    } else if len > u32::MAX {
        Err("native contract stack too large"@)
    } else {
        Ok(align_up_spec(len as u32, 8))
    }
}

fn stack_aux_size(len: usize) -> (r: Result<u32, String>)
    ensures
        match r {
            Ok(v) => stack_aux_size_spec(len as int) == Ok::<u32, Seq<char>>(v),
            Err(m) => stack_aux_size_spec(len as int) == Err::<u32, Seq<char>>(m@),
        },
{
    if len == 0 {
        return Ok(0);
    }
    if len > u32::MAX as usize {
        return Err(text("native contract stack too large"));
    }
    Ok(align_up_u32(len as u32, 8))
}

/// The auxiliary memory for calling a native contract's method by name: room for the encoded
/// stack or for the stack with the method name before it, whichever is larger (the name
/// taken at most `method_len + 16` bytes).
pub fn native_aux_size(stack_len: usize, method_len: usize) -> (r: Result<u32, String>)
    requires
        stack_len + method_len + 16 <= usize::MAX,
    ensures
        match r {
            Ok(v) => stack_aux_size_spec(stack_len + method_len + 16) == Ok::<u32, Seq<char>>(v),
            Err(m) => stack_aux_size_spec(stack_len + method_len + 16) == Err::<u32, Seq<char>>(m@),
        },
{
    let fallback_len_upper_bound = stack_len + method_len + 16;
    let max_stack_len = if stack_len > fallback_len_upper_bound { stack_len } else { fallback_len_upper_bound };
    stack_aux_size(max_stack_len)
}

/// The auxiliary memory for calling a native contract's method by its identifier.
pub fn builtin_aux_size(stack_len: usize) -> (r: Result<u32, String>)
    ensures
        match r {
            Ok(v) => stack_aux_size_spec(stack_len as int) == Ok::<u32, Seq<char>>(v),
            Err(m) => stack_aux_size_spec(stack_len as int) == Err::<u32, Seq<char>>(m@),
        },
{
    stack_aux_size(stack_len)
}

/// The stack a native contract receives through its plain `execute` export, which takes no
/// method identifier: the method's name as a byte string, then the initial stack.
pub fn native_fallback_stack(method: &str, initial_stack: &[AbiStackValue]) -> (r: Vec<AbiStackValue>)
    ensures
        abi_model_seq(r@) == seq![AbiItem::ByteString(method.spec_bytes())] + abi_model_seq(initial_stack@),
{
    let mut out: Vec<AbiStackValue> = Vec::new();
    out.push(AbiStackValue::ByteString(bytes_to_vec(method.as_bytes())));
    let mut i: usize = 0;
    while i < initial_stack.len()
        invariant
            i <= initial_stack@.len(),
            out@.len() == i + 1,
            out@[0].model() == AbiItem::ByteString(method.spec_bytes()),
            forall|j: int| 0 <= j < i ==> #[trigger] out@[j + 1].model() == initial_stack@[j].model(),
        decreases initial_stack.len() - i,
    {
        let d = initial_stack[i].duplicate();
        out.push(d);
        i += 1;
    }
    proof {
        lemma_abi_model_seq_index(out@);
        lemma_abi_model_seq_index(initial_stack@);
        let want = seq![AbiItem::ByteString(method.spec_bytes())] + abi_model_seq(initial_stack@);
        assert forall|j: int| 0 <= j < out@.len() implies #[trigger] abi_model_seq(out@)[j] == want[j] by {
            if j > 0 {
                assert(out@[(j - 1) + 1].model() == initial_stack@[j - 1].model());
            }
        }
        assert(abi_model_seq(out@) =~= want);
    }
    out
}

// ---------------------------------------------------------------------------
// Method identifiers

/// The 32-bit FNV-1a hash of `s`.
pub open spec fn fnv1a(s: Seq<u8>) -> u32
    decreases s.len(),
{
    if s.len() == 0 {
        2166136261
    } else {
        (fnv1a(s.drop_last()) ^ (s.last() as u32)).wrapping_mul(16777619)
    }
}

/// The dispatch identifier of a native contract method: the 32-bit FNV-1a hash of the
/// bytes of its name.
pub fn native_method_id(method: &str) -> (r: u32)
    ensures
        r == fnv1a(method.spec_bytes()),
{
    let bytes = method.as_bytes();
    let mut hash: u32 = 2166136261;
    let mut i: usize = 0;
    while i < bytes.len()
        invariant
            i <= bytes@.len(),
            bytes@ == method.spec_bytes(),
            hash == fnv1a(bytes@.subrange(0, i as int)),
        decreases bytes.len() - i,
    {
        proof {
            let pre = bytes@.subrange(0, i + 1);
            assert(pre.drop_last() =~= bytes@.subrange(0, i as int));
        }
        hash = (hash ^ (bytes[i] as u32)).wrapping_mul(16777619);
        i += 1;
    }
    proof {
        assert(bytes@.subrange(0, bytes@.len() as int) =~= bytes@);
    }
    hash
}

// ---------------------------------------------------------------------------
// Deciding how an execution ended

/// The words of the error for a result that is too large.
pub open spec fn result_size_text(guest: bool, len: u32) -> Seq<char> {
    (if guest { "guest result size "@ } else { "native result size "@ }) + decimal(len as u64)
        + " exceeds maximum "@ + decimal(MAX_RESULT_SIZE as u64)
}

/// Refuses a result longer than `MAX_RESULT_SIZE`; `guest` tells whether it comes from the
/// script guest or from a native contract, for the message.
pub fn check_result_size(res_len: u32, guest: bool) -> (r: Result<(), String>)
    ensures
        r is Ok <==> res_len <= MAX_RESULT_SIZE,
        r matches Err(m) ==> m@ == result_size_text(guest, res_len),
{
    if res_len > MAX_RESULT_SIZE {
        let mut s = if guest { text("guest result size ") } else { text("native result size ") };
        push_decimal(&mut s, res_len as u64);
        s.append(" exceeds maximum ");
        push_decimal(&mut s, MAX_RESULT_SIZE as u64);
        return Err(s);
    }
    Ok(())
}

/// What an execution that the guest finished gives: the fee the host charged, and for a
/// fault the reason, the host's own charge failure before the guest's message. A fault with
/// neither stays a result.
pub fn settle_execution(result: Result<ExecutionResult, String>, fee_consumed_pico: i64, charge_error: &Option<String>) -> (r: Result<ExecutionResult, String>)
    ensures
        match result {
            Err(e) => r matches Err(e2) && e2@ == e@,
            Ok(res) => if res.state == VmState::Fault && charge_error is Some {
                r matches Err(e) && e@ == charge_error.unwrap()@
            } else if res.state == VmState::Fault && res.fault_message is Some {
                r matches Err(e) && e@ == res.fault_message.unwrap()@
            } else {
                r matches Ok(out) && out.fee_consumed_pico == fee_consumed_pico && out.state == res.state
                    && out.stack@ == res.stack@ && out.fault_message == res.fault_message
                    && out.fault_ip == res.fault_ip && out.fault_locals == res.fault_locals
            },
        },
{
    match result {
        Err(e) => Err(e),
        Ok(mut res) => {
            res.fee_consumed_pico = fee_consumed_pico;
            if res.state == VmState::Fault {
                match charge_error {
                    Some(msg) => return Err(msg.clone()),
                    None => {},
                }
                match &res.fault_message {
                    Some(msg) => return Err(msg.clone()),
                    None => {},
                }
            }
            Ok(res)
        },
    }
}

/// Why a native call that failed failed, when it is a known reason: the metered charge's own
/// failure, else running out of gas, else a charge the host refused during the run.
pub fn native_failure_message(metered_charge_error: Option<String>, out_of_gas: bool, host_charge_error: &Option<String>) -> (r: Option<String>)
    ensures
        metered_charge_error is Some ==> r == metered_charge_error,
        metered_charge_error is None && out_of_gas ==> (r matches Some(m) && m@ == "Insufficient GAS."@),
        metered_charge_error is None && !out_of_gas ==> match host_charge_error {
            Some(h) => r matches Some(m) && m@ == h@,
            None => r is None,
        },
{
    match metered_charge_error {
        Some(m) => Some(m),
        None => {
            if out_of_gas {
                Some(text("Insufficient GAS."))
            } else {
                match host_charge_error {
                    Some(h) => Some(h.clone()),
                    None => None,
                }
            }
        },
    }
}

} // verus!
