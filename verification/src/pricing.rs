use vstd::prelude::*;
use crate::text::{text, push_decimal, decimal};
use vstd::arithmetic::div_mod::lemma_div_is_ordered;

verus! {

/// Hard ceiling on the number of NeoVM opcodes one execution may run. Hitting it
/// faults the execution with a bounded cost instead of letting it run on.
pub const NEO_INSTRUCTION_CEILING: u64 = 1_000_000_000;

/// The execution context that a script runs in.
#[derive(Clone, Copy, Debug)]
pub struct RuntimeContext {
    /// Trigger type (Application, Verification, ...).
    pub trigger: u8,
    /// Network magic number.
    pub network: u32,
    /// Address version byte.
    pub address_version: u8,
    /// Block timestamp, when a block is persisting.
    pub timestamp: Option<u64>,
    /// Remaining gas, in datoshi.
    pub gas_left: i64,
    /// Gas price factor, in pico units per fee unit.
    pub exec_fee_factor_pico: i64,
}

/// The words of the ceiling error for `count`.
pub open spec fn ceiling_error_text(count: u64) -> Seq<char> {
    "execution exceeded instruction ceiling "@ + decimal(NEO_INSTRUCTION_CEILING) + " (count="@ + decimal(count)
        + ")"@
}

/// Refuses `count` once it has reached the instruction ceiling. `count` is the count
/// already incremented for the current opcode.
pub fn check_instruction_ceiling(count: u64) -> (r: Result<(), String>)
    ensures
        r is Ok <==> count < NEO_INSTRUCTION_CEILING,
        r matches Err(msg) ==> msg@ == ceiling_error_text(count),
{
    if count >= NEO_INSTRUCTION_CEILING {
        let mut s = text("execution exceeded instruction ceiling ");
        push_decimal(&mut s, NEO_INSTRUCTION_CEILING);
        s.append(" (count=");
        push_decimal(&mut s, count);
        s.append(")");
        Err(s)
    } else {
        Ok(())
    }
}

// ---------------------------------------------------------------------------
// Opcode prices

/// The price of one opcode, in fee units: the NeoVM price table, and 65536 for a byte that
/// names no opcode.
pub open spec fn opcode_price_table(opcode: u8) -> i64 {
    if opcode == 0x38 || opcode == 0x40 || opcode == 0x41 || opcode == 0xE0 {
        // ABORT, RET, SYSCALL, ABORTMSG
        0
    } else if opcode <= 0x03 || opcode == 0x08 || opcode == 0x09 || opcode == 0x0B || (0x0F <= opcode
        && opcode <= 0x21) || opcode == 0x39 || opcode == 0xE1 {
        // PUSHINT8..PUSHINT64, PUSHT, PUSHF, PUSHNULL, PUSHM1, PUSH0..PUSH16, NOP, ASSERT, ASSERTMSG
        1
    } else if (0x22 <= opcode && opcode <= 0x33) || opcode == 0x43 || opcode == 0x45 || opcode == 0x46
        || opcode == 0x4A || opcode == 0x4B || opcode == 0x4D || opcode == 0x4E || opcode == 0x50
        || opcode == 0x51 || opcode == 0x53 || opcode == 0x54 || (0x58 <= opcode && opcode <= 0x87)
        || opcode == 0xD8 || opcode == 0xD9 {
        // jumps, stack shuffles, slot loads and stores, ISNULL, ISTYPE
        2
    } else if opcode == 0x04 || opcode == 0x05 || opcode == 0x0A || (0x3B <= opcode && opcode <= 0x3F)
        || opcode == 0x90 || (0x99 <= opcode && opcode <= 0x9D) || opcode == 0xAA || opcode == 0xB1
        || opcode == 0xCA {
        // PUSHINT128, PUSHINT256, PUSHA, TRY..ENDFINALLY, INVERT, SIGN..DEC, NOT, NZ, SIZE
        4
    } else if opcode == 0x0C || (0x91 <= opcode && opcode <= 0x93) || (0x9E <= opcode && opcode <= 0xA2)
        || opcode == 0xA8 || opcode == 0xA9 || opcode == 0xAB || opcode == 0xAC || (0xB3 <= opcode
        && opcode <= 0xBB) || opcode == 0xC8 {
        // PUSHDATA1, AND, OR, XOR, ADD..MOD, SHL, SHR, BOOLAND, BOOLOR, NUMEQUAL..WITHIN, NEWMAP
        8
    } else if opcode == 0x48 || opcode == 0x49 || opcode == 0x52 || opcode == 0x55 || opcode == 0x56
        || opcode == 0xC2 || opcode == 0xC5 || opcode == 0xCC || (0xD2 <= opcode && opcode <= 0xD4) {
        // XDROP, CLEAR, ROLL, REVERSEN, INITSSLOT, NEWARRAY0, NEWSTRUCT0, KEYS, REMOVE, CLEARITEMS, POPITEM
        16
    } else if opcode == 0x97 || opcode == 0x98 || opcode == 0xA5 {
        // EQUAL, NOTEQUAL, MODMUL
        32
    } else if opcode == 0x57 || opcode == 0xA3 || opcode == 0xA4 || opcode == 0xCB || opcode == 0xCE {
        // INITSLOT, POW, SQRT, HASKEY, PICKITEM
        64
    } else if opcode == 0x88 {
        // NEWBUFFER
        256
    } else if opcode == 0x0D || (0x34 <= opcode && opcode <= 0x36) || opcode == 0x3A || opcode == 0xC3
        || opcode == 0xC4 || opcode == 0xC6 {
        // PUSHDATA2, CALL, CALL_L, CALLA, THROW, NEWARRAY, NEWARRAY_T, NEWSTRUCT
        512
    } else if opcode == 0x89 || (0x8B <= opcode && opcode <= 0x8E) || opcode == 0xA6 || (0xBE <= opcode
        && opcode <= 0xC1) {
        // MEMCPY, CAT, SUBSTR, LEFT, RIGHT, MODPOW, PACKMAP, PACKSTRUCT, PACK, UNPACK
        2048
    } else if opcode == 0x0E {
        // PUSHDATA4
        4096
    } else if opcode == 0xCD || (0xCF <= opcode && opcode <= 0xD1) || opcode == 0xDB {
        // VALUES, APPEND, SETITEM, REVERSEITEMS, CONVERT
        8192
    } else if opcode == 0x37 {
        // CALLT
        32768
    } else {
        65536
    }
}

/// Whether `b` names a NeoVM instruction (the NeoVM instruction set, by opcode byte).
pub open spec fn is_neo_opcode(b: u8) -> bool {
    ||| b <= 0x05                       // PUSHINT8..PUSHINT256
    ||| (0x08 <= b && b <= 0x41)        // PUSHT..SYSCALL: constants, flow control
    ||| b == 0x43 || b == 0x45 || b == 0x46 // DEPTH, DROP, NIP
    ||| (0x48 <= b && b <= 0x4B)        // XDROP, CLEAR, DUP, OVER
    ||| b == 0x4D || b == 0x4E          // PICK, TUCK
    ||| (0x50 <= b && b <= 0x89)        // SWAP..REVERSEN, slots, NEWBUFFER, MEMCPY
    ||| (0x8B <= b && b <= 0x8E)        // CAT, SUBSTR, LEFT, RIGHT
    ||| (0x90 <= b && b <= 0x93)        // INVERT, AND, OR, XOR
    ||| (0x97 <= b && b <= 0xA6)        // EQUAL..MODPOW
    ||| (0xA8 <= b && b <= 0xAC)        // SHL, SHR, NOT, BOOLAND, BOOLOR
    ||| b == 0xB1                       // NZ
    ||| (0xB3 <= b && b <= 0xBB)        // NUMEQUAL..WITHIN
    ||| (0xBE <= b && b <= 0xC6)        // PACKMAP..NEWSTRUCT
    ||| b == 0xC8                       // NEWMAP
    ||| (0xCA <= b && b <= 0xD4)        // SIZE..POPITEM
    ||| b == 0xD8 || b == 0xD9 || b == 0xDB // ISNULL, ISTYPE, CONVERT
    ||| b == 0xE0 || b == 0xE1          // ABORTMSG, ASSERTMSG
}

/// Every NeoVM instruction has a price below the penalty, and only a byte that names no
/// instruction costs the penalty of 65536: for every byte `b`,
/// `opcode_price_table(b) < 65536 <==> is_neo_opcode(b)`.
pub proof fn law_only_undefined_opcodes_cost_the_penalty(b: u8)
    ensures
        opcode_price_table(b) < 65536 <==> is_neo_opcode(b),
        !is_neo_opcode(b) ==> opcode_price_table(b) == 65536,
        0 <= opcode_price_table(b) <= 65536,
{
}

/// The prices of whole instruction families: the constants PUSH0..PUSH16 and PUSHM1 cost 1,
/// the jumps JMP..JMPLE_L cost 2, the unary arithmetic SIGN..DEC costs 4, the binary
/// arithmetic ADD..MOD, the bitwise AND..XOR and the comparisons NUMEQUAL..WITHIN cost 8,
/// and EQUAL/NOTEQUAL cost 32.
pub proof fn law_instruction_family_prices(b: u8)
    ensures
        0x0F <= b <= 0x20 ==> opcode_price_table(b) == 1,
        0x22 <= b <= 0x33 ==> opcode_price_table(b) == 2,
        0x99 <= b <= 0x9D ==> opcode_price_table(b) == 4,
        0x9E <= b <= 0xA2 ==> opcode_price_table(b) == 8,
        0x91 <= b <= 0x93 ==> opcode_price_table(b) == 8,
        0xB3 <= b <= 0xBB ==> opcode_price_table(b) == 8,
        0x97 <= b <= 0x98 ==> opcode_price_table(b) == 32,
{
}

/// The price of `opcode` in fee units.
pub fn opcode_price(opcode: u8) -> (r: i64)
    ensures
        r == opcode_price_table(opcode),
{
    if opcode == 0x38 || opcode == 0x40 || opcode == 0x41 || opcode == 0xE0 {
        0
    } else if opcode <= 0x03 || opcode == 0x08 || opcode == 0x09 || opcode == 0x0B || (0x0F <= opcode
        && opcode <= 0x21) || opcode == 0x39 || opcode == 0xE1 {
        1
    } else if (0x22 <= opcode && opcode <= 0x33) || opcode == 0x43 || opcode == 0x45 || opcode == 0x46
        || opcode == 0x4A || opcode == 0x4B || opcode == 0x4D || opcode == 0x4E || opcode == 0x50
        || opcode == 0x51 || opcode == 0x53 || opcode == 0x54 || (0x58 <= opcode && opcode <= 0x87)
        || opcode == 0xD8 || opcode == 0xD9 {
        2
    } else if opcode == 0x04 || opcode == 0x05 || opcode == 0x0A || (0x3B <= opcode && opcode <= 0x3F)
        || opcode == 0x90 || (0x99 <= opcode && opcode <= 0x9D) || opcode == 0xAA || opcode == 0xB1
        || opcode == 0xCA {
        4
    } else if opcode == 0x0C || (0x91 <= opcode && opcode <= 0x93) || (0x9E <= opcode && opcode <= 0xA2)
        || opcode == 0xA8 || opcode == 0xA9 || opcode == 0xAB || opcode == 0xAC || (0xB3 <= opcode
        && opcode <= 0xBB) || opcode == 0xC8 {
        8
    } else if opcode == 0x48 || opcode == 0x49 || opcode == 0x52 || opcode == 0x55 || opcode == 0x56
        || opcode == 0xC2 || opcode == 0xC5 || opcode == 0xCC || (0xD2 <= opcode && opcode <= 0xD4) {
        16
    } else if opcode == 0x97 || opcode == 0x98 || opcode == 0xA5 {
        32
    } else if opcode == 0x57 || opcode == 0xA3 || opcode == 0xA4 || opcode == 0xCB || opcode == 0xCE {
        64
    } else if opcode == 0x88 {
        256
    } else if opcode == 0x0D || (0x34 <= opcode && opcode <= 0x36) || opcode == 0x3A || opcode == 0xC3
        || opcode == 0xC4 || opcode == 0xC6 {
        512
    } else if opcode == 0x89 || (0x8B <= opcode && opcode <= 0x8E) || opcode == 0xA6 || (0xBE <= opcode
        && opcode <= 0xC1) {
        2048
    } else if opcode == 0x0E {
        4096
    } else if opcode == 0xCD || (0xCF <= opcode && opcode <= 0xD1) || opcode == 0xDB {
        8192
    } else if opcode == 0x37 {
        32768
    } else {
        65536
    }
}

// ---------------------------------------------------------------------------
// Fee accounting

/// `a` divided by a positive `b`, rounded toward zero (Rust's integer division).
pub open spec fn trunc_div(a: int, b: int) -> int {
    if a >= 0 { a / b } else { -((-a) / b) }
}

/// `a + b` clamped to the range of `i64`.
pub open spec fn sat_add_i64(a: int, b: int) -> int {
    if a + b > i64::MAX { i64::MAX as int } else if a + b < i64::MIN { i64::MIN as int } else { a + b }
}

/// The whole datoshi that `fee` pico units have used up: `fee` rounded up to a multiple of
/// 10000 (saturating), then divided by 10000 toward zero.
pub open spec fn datoshi(fee: int) -> int {
    trunc_div(sat_add_i64(fee, 9_999), 10_000)
}

/// How a charge ended.
pub enum ChargeOutcome {
    /// The fee was added and the gas was enough.
    Charged,
    /// The fee did not fit in an `i64`: nothing changed.
    FeeOverflow,
    /// The gas did not cover the fee.
    InsufficientGas,
}

/// The gas left, the fee consumed, and the outcome after charging `delta` more pico units
/// to `fee` against `gas_left`.
///
/// The fee is added first; the gas then drops by the whole datoshi that the addition used
/// up. When that subtraction does not fit in an `i64` the gas is left as it was; when it
/// leaves the gas negative the gas is kept at the negative value.
pub open spec fn settle(gas_left: i64, fee: i64, delta: int) -> (i64, i64, ChargeOutcome) {
    if delta < i64::MIN || delta > i64::MAX || fee + delta < i64::MIN || fee + delta > i64::MAX {
        (gas_left, fee, ChargeOutcome::FeeOverflow)
    } else {
        let new_fee = (fee + delta) as i64;
        let consumed = datoshi(new_fee as int) - datoshi(fee as int);
        if gas_left - consumed < i64::MIN || gas_left - consumed > i64::MAX {
            (gas_left, new_fee, ChargeOutcome::InsufficientGas)
        } else if gas_left - consumed < 0 {
            ((gas_left - consumed) as i64, new_fee, ChargeOutcome::InsufficientGas)
        } else {
            ((gas_left - consumed) as i64, new_fee, ChargeOutcome::Charged)
        }
    }
}

proof fn lemma_datoshi_monotone(a: int, b: int)
    requires
        a <= b,
    ensures
        datoshi(a) <= datoshi(b),
{
    let x = sat_add_i64(a, 9_999);
    let y = sat_add_i64(b, 9_999);
    assert(x <= y);
    if x >= 0 {
        lemma_div_is_ordered(x, y, 10_000);
    } else if y >= 0 {
        assert((-x) / 10_000 >= 0) by { lemma_div_is_ordered(0, -x, 10_000); }
        assert(y / 10_000 >= 0) by { lemma_div_is_ordered(0, y, 10_000); }
    } else {
        lemma_div_is_ordered(-y, -x, 10_000);
    }
}

/// Charging never gives gas back and never lowers the fee: for every gas left, fee and
/// non-negative amount `delta`, `settle` leaves at most the gas and at least the fee it
/// started from.
pub proof fn law_charge_is_monotone(gas_left: i64, fee: i64, delta: int)
    requires
        delta >= 0,
    ensures
        settle(gas_left, fee, delta).0 <= gas_left,
        settle(gas_left, fee, delta).1 >= fee,
{
    if !(delta < i64::MIN || delta > i64::MAX || fee + delta < i64::MIN || fee + delta > i64::MAX) {
        lemma_datoshi_monotone(fee as int, fee + delta);
    }
}

/// A charge moves whole datoshi from the gas to the fee: whenever `settle` charges, the gas
/// left plus the whole datoshi of the fee is what it was before.
pub proof fn law_charge_conserves_gas_and_fee(gas_left: i64, fee: i64, delta: int)
    requires
        settle(gas_left, fee, delta).2 is Charged,
    ensures
        settle(gas_left, fee, delta).0 + datoshi(settle(gas_left, fee, delta).1 as int) == gas_left + datoshi(fee as int),
{
}

fn datoshi_of(fee: i64) -> (r: i64)
    ensures
        r == datoshi(fee as int),
        -922_337_203_685_477 <= r <= 922_337_203_685_477,
{
    let rounded: i64 = if fee > i64::MAX - 9_999 { i64::MAX } else { fee + 9_999 };
    if rounded >= 0 {
        rounded / 10_000
    } else {
        -((-rounded) / 10_000)
    }
}

/// Adds `delta` pico units to `*fee` and takes the whole datoshi used up from `*gas_left`.
fn settle_fee(gas_left: &mut i64, fee: &mut i64, delta: i64) -> (r: ChargeOutcome)
    ensures
        (*final(gas_left), *final(fee), r) == settle(*old(gas_left), *old(fee), delta as int),
{
    let previous = datoshi_of(*fee);
    let new_fee = match fee.checked_add(delta) {
        Some(v) => v,
        None => return ChargeOutcome::FeeOverflow,
    };
    *fee = new_fee;
    let current = datoshi_of(new_fee);
    let consumed = current - previous;
    match gas_left.checked_sub(consumed) {
        Some(v) => {
            *gas_left = v;
            if v < 0 {
                ChargeOutcome::InsufficientGas
            } else {
                ChargeOutcome::Charged
            }
        },
        None => ChargeOutcome::InsufficientGas,
    }
}

/// The error message of a charge that ended with `outcome`, when a fee overflow reads
/// `overflow`.
pub open spec fn charge_result(outcome: ChargeOutcome, overflow: Seq<char>, r: Result<(), String>) -> bool {
    match outcome {
        ChargeOutcome::Charged => r is Ok,
        ChargeOutcome::FeeOverflow => r matches Err(msg) && msg@ == overflow,
        ChargeOutcome::InsufficientGas => r matches Err(msg) && msg@ == "Insufficient GAS."@,
    }
}

/// Everything of the context but the gas left is as it was.
pub open spec fn same_but_gas(a: RuntimeContext, b: RuntimeContext) -> bool {
    &&& a.trigger == b.trigger
    &&& a.network == b.network
    &&& a.address_version == b.address_version
    &&& a.timestamp == b.timestamp
    &&& a.exec_fee_factor_pico == b.exec_fee_factor_pico
}

/// Charges the price of `opcode` times the fee factor: adds it to `*fee_consumed_pico` and
/// takes the whole datoshi used up from the gas left. A zero fee factor charges nothing.
pub fn charge_opcode(context: &mut RuntimeContext, fee_consumed_pico: &mut i64, opcode: u8) -> (r: Result<(), String>)
    ensures
        same_but_gas(*old(context), *final(context)),
        old(context).exec_fee_factor_pico == 0 ==> {
            &&& r is Ok
            &&& final(context).gas_left == old(context).gas_left
            &&& *final(fee_consumed_pico) == *old(fee_consumed_pico)
        },
        old(context).exec_fee_factor_pico != 0 ==> {
            let s = settle(old(context).gas_left, *old(fee_consumed_pico),
                opcode_price_table(opcode) * old(context).exec_fee_factor_pico);
            &&& final(context).gas_left == s.0
            &&& *final(fee_consumed_pico) == s.1
            &&& charge_result(s.2, "opcode fee overflow"@, r)
        },
{
    if context.exec_fee_factor_pico == 0 {
        return Ok(());
    }
    let delta = match opcode_price(opcode).checked_mul(context.exec_fee_factor_pico) {
        Some(v) => v,
        None => return Err(text("opcode fee overflow")),
    };
    match settle_fee(&mut context.gas_left, fee_consumed_pico, delta) {
        ChargeOutcome::Charged => Ok(()),
        ChargeOutcome::FeeOverflow => Err(text("opcode fee overflow")),
        ChargeOutcome::InsufficientGas => Err(text("Insufficient GAS.")),
    }
}

/// The most native instructions that the gas left pays for at the fee factor, at most the
/// instruction ceiling; the ceiling itself when the fee factor is not positive.
pub open spec fn native_instruction_limit_spec(gas_left: i64, factor: i64) -> i64 {
    if factor <= 0 {
        NEO_INSTRUCTION_CEILING as i64
    } else if gas_left <= 0 {
        0
    } else if (gas_left as int) * 10_000 / (factor as int) > NEO_INSTRUCTION_CEILING {
        NEO_INSTRUCTION_CEILING as i64
    } else {
        ((gas_left as int) * 10_000 / (factor as int)) as i64
    }
}

/// How many native instructions the context's gas pays for.
pub fn native_instruction_limit(context: &RuntimeContext) -> (r: i64)
    ensures
        r == native_instruction_limit_spec(context.gas_left, context.exec_fee_factor_pico),
{
    if context.exec_fee_factor_pico <= 0 {
        return NEO_INSTRUCTION_CEILING as i64;
    }
    if context.gas_left <= 0 {
        return 0;
    }
    let available_pico: i128 = (context.gas_left as i128) * 10_000;
    let units: i128 = available_pico / (context.exec_fee_factor_pico as i128);
    if units > NEO_INSTRUCTION_CEILING as i128 {
        NEO_INSTRUCTION_CEILING as i64
    } else {
        units as i64
    }
}

/// Charges `instruction_count` native instructions at the fee factor. Nothing is charged
/// for a count that is not positive or a zero fee factor; a negative fee factor is refused.
pub fn charge_native_instructions(context: &mut RuntimeContext, fee_consumed_pico: &mut i64, instruction_count: i64) -> (r: Result<(), String>)
    ensures
        same_but_gas(*old(context), *final(context)),
        instruction_count <= 0 || old(context).exec_fee_factor_pico == 0 ==> {
            &&& r is Ok
            &&& final(context).gas_left == old(context).gas_left
            &&& *final(fee_consumed_pico) == *old(fee_consumed_pico)
        },
        instruction_count > 0 && old(context).exec_fee_factor_pico < 0 ==> {
            &&& r matches Err(msg) && msg@ == "negative execution fee factor"@
            &&& final(context).gas_left == old(context).gas_left
            &&& *final(fee_consumed_pico) == *old(fee_consumed_pico)
        },
        instruction_count > 0 && old(context).exec_fee_factor_pico > 0 ==> {
            let s = settle(old(context).gas_left, *old(fee_consumed_pico),
                instruction_count * old(context).exec_fee_factor_pico);
            &&& final(context).gas_left == s.0
            &&& *final(fee_consumed_pico) == s.1
            &&& charge_result(s.2, "native instruction fee overflow"@, r)
        },
{
    if instruction_count <= 0 || context.exec_fee_factor_pico == 0 {
        return Ok(());
    }
    if context.exec_fee_factor_pico < 0 {
        return Err(text("negative execution fee factor"));
    }
    let delta = match instruction_count.checked_mul(context.exec_fee_factor_pico) {
        Some(v) => v,
        None => return Err(text("native instruction fee overflow")),
    };
    match settle_fee(&mut context.gas_left, fee_consumed_pico, delta) {
        ChargeOutcome::Charged => Ok(()),
        ChargeOutcome::FeeOverflow => Err(text("native instruction fee overflow")),
        ChargeOutcome::InsufficientGas => Err(text("Insufficient GAS.")),
    }
}


// ---------------------------------------------------------------------------
// The meter that the host keeps while a guest runs

/// What the host counts and charges while a guest runs.
pub struct HostMeter {
    /// The context, whose gas drops as opcodes are charged.
    pub context: RuntimeContext,
    /// Fee charged so far, in pico units.
    pub fee_consumed_pico: i64,
    /// The opcode seen last.
    pub last_opcode: Option<u8>,
    /// Opcodes seen so far (saturating).
    pub opcode_count: u64,
    /// Why the last charge failed, kept because the guest only learns that it failed.
    pub charge_error: Option<String>,
}

impl HostMeter {
    /// A meter that has charged nothing yet.
    pub fn new(context: RuntimeContext) -> (r: HostMeter)
        ensures
            r.context == context,
            r.fee_consumed_pico == 0,
            r.last_opcode is None,
            r.opcode_count == 0,
            r.charge_error is None,
    {
        HostMeter { context, fee_consumed_pico: 0, last_opcode: None, opcode_count: 0, charge_error: None }
    }

    /// Counts one more opcode, refuses it at the instruction ceiling, and otherwise charges
    /// its price. A failure is also kept in `charge_error`.
    pub fn on_instruction(&mut self, opcode: u8) -> (r: Result<(), String>)
        ensures
            final(self).last_opcode == Some(opcode),
            final(self).opcode_count == if old(self).opcode_count == u64::MAX { u64::MAX } else {
                (old(self).opcode_count + 1) as u64
            },
            final(self).opcode_count >= NEO_INSTRUCTION_CEILING ==> {
                &&& r matches Err(msg) && msg@ == ceiling_error_text(final(self).opcode_count)
                &&& final(self).context == old(self).context
                &&& final(self).fee_consumed_pico == old(self).fee_consumed_pico
            },
            final(self).opcode_count < NEO_INSTRUCTION_CEILING ==> {
                &&& same_but_gas(old(self).context, final(self).context)
                &&& old(self).context.exec_fee_factor_pico == 0 ==> {
                    &&& r is Ok
                    &&& final(self).context.gas_left == old(self).context.gas_left
                    &&& final(self).fee_consumed_pico == old(self).fee_consumed_pico
                }
                &&& old(self).context.exec_fee_factor_pico != 0 ==> {
                    let s = settle(old(self).context.gas_left, old(self).fee_consumed_pico,
                        opcode_price_table(opcode) * old(self).context.exec_fee_factor_pico);
                    &&& final(self).context.gas_left == s.0
                    &&& final(self).fee_consumed_pico == s.1
                    &&& charge_result(s.2, "opcode fee overflow"@, r)
                }
            },
            r is Ok ==> final(self).charge_error == old(self).charge_error,
            r matches Err(msg) ==> final(self).charge_error matches Some(kept) && kept@ == msg@,
    {
        self.last_opcode = Some(opcode);
        self.opcode_count = if self.opcode_count == u64::MAX { u64::MAX } else { self.opcode_count + 1 };
        match check_instruction_ceiling(self.opcode_count) {
            Ok(()) => {},
            Err(e) => {
                self.charge_error = Some(e.clone());
                return Err(e);
            },
        }
        match charge_opcode(&mut self.context, &mut self.fee_consumed_pico, opcode) {
            Ok(()) => Ok(()),
            Err(e) => {
                self.charge_error = Some(e.clone());
                Err(e)
            },
        }
    }

    /// Charges the native instructions that a metered run used: the gas limit it was given
    /// less the gas it had left (a negative remainder counts as none).
    pub fn charge_metered_instructions(&mut self, gas_limit: i64, gas_remaining: i64) -> (r: Result<(), String>)
        ensures
            final(self).last_opcode == old(self).last_opcode,
            final(self).opcode_count == old(self).opcode_count,
            final(self).charge_error == old(self).charge_error,
            same_but_gas(old(self).context, final(self).context),
            ({
                let used = metered_count(gas_limit, gas_remaining);
                let factor = old(self).context.exec_fee_factor_pico;
                &&& (used <= 0 || factor == 0) ==> {
                    &&& r is Ok
                    &&& final(self).context.gas_left == old(self).context.gas_left
                    &&& final(self).fee_consumed_pico == old(self).fee_consumed_pico
                }
                &&& (used > 0 && factor < 0) ==> {
                    &&& r matches Err(msg) && msg@ == "negative execution fee factor"@
                    &&& final(self).context.gas_left == old(self).context.gas_left
                    &&& final(self).fee_consumed_pico == old(self).fee_consumed_pico
                }
                &&& (used > 0 && factor > 0) ==> {
                    let s = settle(old(self).context.gas_left, old(self).fee_consumed_pico, used * factor);
                    &&& final(self).context.gas_left == s.0
                    &&& final(self).fee_consumed_pico == s.1
                    &&& charge_result(s.2, "native instruction fee overflow"@, r)
                }
            }),
    {
        let remaining: i64 = if gas_remaining < 0 { 0 } else { gas_remaining };
        let used: i64 = if gas_limit < i64::MIN + remaining { i64::MIN } else { gas_limit - remaining };
        charge_native_instructions(&mut self.context, &mut self.fee_consumed_pico, used)
    }
}

/// The native instructions that a run used: the gas limit less the gas left (taken as zero
/// when negative), saturating at the bounds of `i64`.
pub open spec fn metered_count(gas_limit: i64, gas_remaining: i64) -> i64 {
    let remaining = if gas_remaining < 0 { 0 } else { gas_remaining as int };
    if gas_limit - remaining < i64::MIN { i64::MIN } else { (gas_limit - remaining) as i64 }
}

} // verus!
