use neo_riscv_vm::pricing::{
    charge_native_instructions, charge_opcode, check_instruction_ceiling, native_instruction_limit, opcode_price,
    HostMeter, RuntimeContext, NEO_INSTRUCTION_CEILING,
};

const PUSHINT8: u8 = 0x00;
const PUSHINT16: u8 = 0x01;
const PUSHINT32: u8 = 0x02;
const PUSHINT64: u8 = 0x03;
const PUSHINT128: u8 = 0x04;
const PUSHINT256: u8 = 0x05;
const PUSH1: u8 = 0x11;
const NOP: u8 = 0x21;
const CALL: u8 = 0x34;
const CALLT: u8 = 0x37;
const ABORT: u8 = 0x38;
const RET: u8 = 0x40;
const SYSCALL: u8 = 0x41;
const VALUES: u8 = 0xCD;
const CONVERT: u8 = 0xDB;
const NEWBUFFER: u8 = 0x88;

fn context(gas_left: i64, exec_fee_factor_pico: i64) -> RuntimeContext {
    RuntimeContext { trigger: 0x40, network: 0, address_version: 0, timestamp: None, gas_left, exec_fee_factor_pico }
}

#[test]
fn opcode_price_push_opcodes() {
    assert_eq!(opcode_price(PUSHINT8), 1, "PUSHINT8");
    assert_eq!(opcode_price(PUSHINT16), 1, "PUSHINT16");
    assert_eq!(opcode_price(PUSHINT32), 1, "PUSHINT32");
    assert_eq!(opcode_price(PUSHINT64), 1, "PUSHINT64");
    assert_eq!(opcode_price(PUSHINT128), 4, "PUSHINT128");
    assert_eq!(opcode_price(PUSHINT256), 4, "PUSHINT256");
}

#[test]
fn opcode_price_flow_control() {
    assert_eq!(opcode_price(NOP), 1, "NOP");
    // JMP, JMP_L, JMPIF, JMPIF_L, ... JMPLE, JMPLE_L
    for opcode in 0x22u8..=0x33 {
        assert_eq!(opcode_price(opcode), 2, "JMP-family {opcode:#04x}");
    }
    assert_eq!(opcode_price(CALL), 512, "CALL");
    assert_eq!(opcode_price(CALLT), 32768, "CALLT");
    assert_eq!(opcode_price(ABORT), 0, "ABORT");
    assert_eq!(opcode_price(RET), 0, "RET");
    assert_eq!(opcode_price(SYSCALL), 0, "SYSCALL");
}

#[test]
fn opcode_price_expensive_opcodes() {
    assert_eq!(opcode_price(VALUES), 8192, "VALUES");
    assert_eq!(opcode_price(CONVERT), 8192, "CONVERT");
    assert_eq!(opcode_price(NEWBUFFER), 256, "NEWBUFFER");
}

#[test]
fn opcode_price_unknown_defaults_to_max() {
    assert_eq!(opcode_price(0xF0), 65536, "undefined opcode 0xF0");
}

#[test]
fn opcode_price_table_samples() {
    let expected: &[(u8, i64)] = &[
        (0x08, 1), (0x0A, 4), (0x0B, 1), (0x0C, 8), (0x0D, 512), (0x0E, 4096), (0x0F, 1), (0x20, 1),
        (0x35, 512), (0x36, 512), (0x39, 1), (0x3A, 512), (0x3B, 4), (0x3F, 4), (0x43, 2), (0x48, 16),
        (0x49, 16), (0x4A, 2), (0x52, 16), (0x55, 16), (0x56, 16), (0x57, 64), (0x58, 2), (0x87, 2),
        (0x89, 2048), (0x8B, 2048), (0x8E, 2048), (0x90, 4), (0x91, 8), (0x93, 8), (0x97, 32), (0x98, 32),
        (0x99, 4), (0x9D, 4), (0x9E, 8), (0xA2, 8), (0xA3, 64), (0xA4, 64), (0xA5, 32), (0xA6, 2048),
        (0xA8, 8), (0xA9, 8), (0xAA, 4), (0xAB, 8), (0xAC, 8), (0xB1, 4), (0xB3, 8), (0xBB, 8),
        (0xBE, 2048), (0xC1, 2048), (0xC2, 16), (0xC3, 512), (0xC4, 512), (0xC5, 16), (0xC6, 512),
        (0xC8, 8), (0xCA, 4), (0xCB, 64), (0xCC, 16), (0xCE, 64), (0xCF, 8192), (0xD1, 8192), (0xD2, 16),
        (0xD4, 16), (0xD8, 2), (0xD9, 2), (0xE0, 0), (0xE1, 1),
        (0x06, 65536), (0x07, 65536), (0x42, 65536), (0x44, 65536), (0x47, 65536), (0x4C, 65536),
        (0x4F, 65536), (0x8A, 65536), (0x8F, 65536), (0x94, 65536), (0xA7, 65536), (0xAD, 65536),
        (0xB2, 65536), (0xBC, 65536), (0xC7, 65536), (0xC9, 65536), (0xD5, 65536), (0xDA, 65536),
        (0xDC, 65536), (0xE2, 65536), (0xFF, 65536),
    ];
    for &(opcode, price) in expected {
        assert_eq!(opcode_price(opcode), price, "opcode {opcode:#04x}");
    }
}

#[test]
fn charge_opcode_deducts_gas() {
    let mut ctx = context(1_000_000, 10_000);
    let mut fee = 0i64;
    charge_opcode(&mut ctx, &mut fee, PUSH1).expect("charge should succeed");
    assert!(ctx.gas_left < 1_000_000, "gas should have decreased");
    assert_eq!(fee, 10_000);
    assert_eq!(ctx.gas_left, 999_999);
}

#[test]
fn charge_opcode_insufficient_gas_errors() {
    let mut ctx = context(0, 10_000);
    let mut fee = 0i64;
    let err = charge_opcode(&mut ctx, &mut fee, PUSH1).unwrap_err();
    assert!(err.contains("Insufficient GAS"), "error should mention Insufficient GAS: {err}");
    assert_eq!(ctx.gas_left, -1);
}

#[test]
fn charge_opcode_skips_when_fee_factor_zero() {
    let mut ctx = context(500, 0);
    let mut fee = 0i64;
    charge_opcode(&mut ctx, &mut fee, PUSH1).expect("should succeed with zero fee factor");
    assert_eq!(ctx.gas_left, 500, "gas_left should be unchanged");
}

#[test]
fn charge_opcode_rounds_pico_fees_up_to_whole_datoshi() {
    let mut ctx = context(10, 1);
    let mut fee = 0i64;
    charge_opcode(&mut ctx, &mut fee, PUSH1).unwrap();
    assert_eq!((fee, ctx.gas_left), (1, 9));
    for _ in 0..9_999 {
        charge_opcode(&mut ctx, &mut fee, PUSH1).unwrap();
    }
    assert_eq!((fee, ctx.gas_left), (10_000, 9));
    charge_opcode(&mut ctx, &mut fee, PUSH1).unwrap();
    assert_eq!((fee, ctx.gas_left), (10_001, 8));
}

#[test]
fn charge_opcode_reports_fee_overflow() {
    let mut ctx = context(100, i64::MAX);
    let mut fee = 0i64;
    assert_eq!(charge_opcode(&mut ctx, &mut fee, CALL), Err("opcode fee overflow".to_string()));
    assert_eq!((fee, ctx.gas_left), (0, 100));
}

#[test]
fn instruction_ceiling_permits_counts_below_cap() {
    check_instruction_ceiling(1).expect("count=1 is well below ceiling");
    check_instruction_ceiling(NEO_INSTRUCTION_CEILING - 1).expect("count=ceiling-1 is still below ceiling");
}

#[test]
fn instruction_ceiling_rejects_at_cap() {
    let err = check_instruction_ceiling(NEO_INSTRUCTION_CEILING).expect_err("count=ceiling must trip the watchdog");
    assert!(err.contains("instruction ceiling"), "error should mention instruction ceiling: {err}");
    assert!(err.contains(&NEO_INSTRUCTION_CEILING.to_string()), "error should include the ceiling value: {err}");
}

#[test]
fn instruction_ceiling_rejects_above_cap() {
    check_instruction_ceiling(NEO_INSTRUCTION_CEILING + 1_000).expect_err("counts above ceiling must trip the watchdog");
}

#[test]
fn instruction_ceiling_message_text() {
    assert_eq!(
        check_instruction_ceiling(NEO_INSTRUCTION_CEILING + 5),
        Err("execution exceeded instruction ceiling 1000000000 (count=1000000005)".to_string())
    );
}

#[test]
fn native_instruction_limit_uses_fee_factor() {
    let ctx = context(9, 30_000);
    assert_eq!(native_instruction_limit(&ctx), 3);
}

#[test]
fn native_instruction_limit_edges() {
    assert_eq!(native_instruction_limit(&context(9, 0)), NEO_INSTRUCTION_CEILING as i64);
    assert_eq!(native_instruction_limit(&context(9, -5)), NEO_INSTRUCTION_CEILING as i64);
    assert_eq!(native_instruction_limit(&context(0, 5)), 0);
    assert_eq!(native_instruction_limit(&context(i64::MAX, 1)), NEO_INSTRUCTION_CEILING as i64);
}

#[test]
fn charge_native_instructions_reports_fee() {
    let mut ctx = context(10, 30_000);
    let mut fee = 0;

    charge_native_instructions(&mut ctx, &mut fee, 2).expect("native fee should charge");

    assert_eq!(fee, 60_000);
    assert_eq!(ctx.gas_left, 4);
}

#[test]
fn charge_native_instructions_edges() {
    let mut ctx = context(10, 30_000);
    let mut fee = 0;
    charge_native_instructions(&mut ctx, &mut fee, 0).unwrap();
    charge_native_instructions(&mut ctx, &mut fee, -3).unwrap();
    assert_eq!((fee, ctx.gas_left), (0, 10));

    let mut negative = context(10, -1);
    assert_eq!(charge_native_instructions(&mut negative, &mut fee, 1), Err("negative execution fee factor".to_string()));

    let mut big = context(10, i64::MAX);
    assert_eq!(charge_native_instructions(&mut big, &mut fee, 2), Err("native instruction fee overflow".to_string()));

    let mut poor = context(1, 30_000);
    assert_eq!(charge_native_instructions(&mut poor, &mut fee, 1), Err("Insufficient GAS.".to_string()));
    assert_eq!((fee, poor.gas_left), (30_000, -2));
}

#[test]
fn host_meter_counts_and_keeps_the_charge_error() {
    let mut meter = HostMeter::new(context(1, 10_000));
    meter.on_instruction(PUSH1).unwrap();
    assert_eq!(meter.last_opcode, Some(PUSH1));
    assert_eq!(meter.opcode_count, 1);
    assert_eq!(meter.context.gas_left, 0);
    assert!(meter.charge_error.is_none());

    let err = meter.on_instruction(PUSH1).unwrap_err();
    assert_eq!(err, "Insufficient GAS.");
    assert_eq!(meter.charge_error.as_deref(), Some("Insufficient GAS."));
    assert_eq!(meter.opcode_count, 2);
}

#[test]
fn host_meter_stops_at_the_ceiling() {
    let mut meter = HostMeter::new(context(1, 0));
    meter.opcode_count = NEO_INSTRUCTION_CEILING - 1;
    let err = meter.on_instruction(NOP).unwrap_err();
    assert!(err.contains("instruction ceiling"));
    assert_eq!(meter.charge_error, Some(err));
}

#[test]
fn host_meter_charges_metered_native_instructions() {
    let mut meter = HostMeter::new(context(10, 30_000));
    meter.charge_metered_instructions(100, 98).unwrap();
    assert_eq!((meter.fee_consumed_pico, meter.context.gas_left), (60_000, 4));
    meter.charge_metered_instructions(100, -7).unwrap_err();
}

#[test]
fn charges_move_whole_datoshi_from_gas_to_fee() {
    let mut ctx = context(1_000, 3_000);
    let mut fee = 0i64;
    let datoshi = |fee: i64| (fee + 9_999) / 10_000;
    let before = ctx.gas_left + datoshi(fee);
    for opcode in [PUSH1, NOP, CALL, PUSHINT128, PUSHINT8] {
        let gas = ctx.gas_left;
        let fee_before = fee;
        charge_opcode(&mut ctx, &mut fee, opcode).unwrap();
        assert!(ctx.gas_left <= gas);
        assert!(fee >= fee_before);
        assert_eq!(ctx.gas_left + datoshi(fee), before);
    }
}
