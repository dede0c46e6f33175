use boat_difftest::numeric::IntErrorKind;
use boat_difftest::spike::{
    parse_spike_log, ParseFailure, SpikeLogSyntax, SpikeMemWrite, TokenClass,
};

const SAMPLE_LOG: &str = "core   0: 3 0x0000000000001000 (0x00000297) x5  0x0000000000001000\n\
core   0: 3 0x0000000000001004 (0x02028593) x11 0x0000000000001020\n\
core   0: 3 0x0000000080000000 (0x00000297) a0 0x0000000000000001\n\
core   0: 3 0x0000000080000004 (0x00b52023) mem 0x0000000080001000 0x0000000000000001\n\
core   0: 3 0x0000000080000008 (0x00052703) x14 0x0000000000000001 mem 0x0000000080001000\n";

#[test]
fn test_parsing_spike_log_ast() {
    assert!(!SAMPLE_LOG.is_empty());
    let ast = parse_spike_log(SAMPLE_LOG).unwrap();
    assert!(!ast.is_empty());
    assert_eq!(ast.len(), 5);
}

#[test]
fn parses_reference_commit_line() {
    let e = SpikeLogSyntax::parse("core   0: 3 0x0000000080000000 (0x00000297) a0 0x0000000000000001")
        .unwrap();
    assert_eq!(e.core, 0);
    assert_eq!(e.privilege, 3);
    assert_eq!(e.pc, 0x8000_0000);
    assert_eq!(e.instruction, 0x297);
    assert_eq!(e.reg.len(), 1);
    assert_eq!(e.reg[0].name, "a0");
    assert_eq!(e.reg[0].value, 1);
    assert!(e.mem_writes.is_empty());
}

#[test]
fn literal_core_word_is_optional() {
    let e = SpikeLogSyntax::parse("1: 0 0x10 (0x13)").unwrap();
    assert_eq!(e.core, 1);
    assert_eq!(e.privilege, 0);
    assert_eq!(e.pc, 0x10);
    assert_eq!(e.instruction, 0x13);
    assert!(e.reg.is_empty());
}

#[test]
fn tabs_and_runs_of_spaces_separate_words() {
    let e = SpikeLogSyntax::parse("  core\t2:  1\t0x20 (0x13)   x1\t0x5  ").unwrap();
    assert_eq!(e.core, 2);
    assert_eq!(e.privilege, 1);
    assert_eq!(e.pc, 0x20);
    assert_eq!(e.reg.len(), 1);
    assert_eq!(e.reg[0].name, "x1");
    assert_eq!(e.reg[0].value, 5);
}

#[test]
fn several_register_writes_keep_their_order() {
    let e = SpikeLogSyntax::parse("core 0: 3 0x8 (0x34011173) x2 0x10 c832_mscratch 0x20").unwrap();
    assert_eq!(e.reg.len(), 2);
    assert_eq!(e.reg[0].name, "x2");
    assert_eq!(e.reg[0].value, 0x10);
    assert_eq!(e.reg[1].name, "c832_mscratch");
    assert_eq!(e.reg[1].value, 0x20);
}

#[test]
fn memory_store_is_recorded_and_not_a_register() {
    let e = SpikeLogSyntax::parse(
        "core   0: 3 0x0000000080000004 (0x00b52023) mem 0x0000000080001000 0x00000000deadbeef",
    )
    .unwrap();
    assert!(e.reg.is_empty());
    assert_eq!(
        e.mem_writes,
        vec![SpikeMemWrite { address: 0x8000_1000, data: 0xdead_beef }]
    );
}

#[test]
fn memory_load_is_dropped() {
    let e = SpikeLogSyntax::parse(
        "core   0: 3 0x0000000080000008 (0x00052703) x14 0x0000000000000001 mem 0x0000000080001000",
    )
    .unwrap();
    assert_eq!(e.reg.len(), 1);
    assert_eq!(e.reg[0].name, "x14");
    assert!(e.mem_writes.is_empty());
}

#[test]
fn load_then_store_records_only_the_store() {
    let e = SpikeLogSyntax::parse("core 0: 3 0x8 (0x13) mem 0x10 mem 0x20 0x5").unwrap();
    assert_eq!(e.mem_writes, vec![SpikeMemWrite { address: 0x20, data: 5 }]);
}

#[test]
fn core_id_without_colon_is_an_error() {
    let err = SpikeLogSyntax::parse("core 0 3 0x8 (0x13)").unwrap_err();
    assert_eq!(err.expect, TokenClass::CoreId);
    assert_eq!(err.actual, "0");
    assert_eq!(err.failure, ParseFailure::NoColonSuffix);
}

#[test]
fn core_id_too_large_is_an_error() {
    let err = SpikeLogSyntax::parse("core 256: 3 0x8 (0x13)").unwrap_err();
    assert_eq!(err.expect, TokenClass::CoreId);
    assert_eq!(err.actual, "256:");
    assert_eq!(err.failure, ParseFailure::Int(IntErrorKind::PosOverflow));
}

#[test]
fn empty_core_id_is_an_error() {
    let err = SpikeLogSyntax::parse("core : 3 0x8 (0x13)").unwrap_err();
    assert_eq!(err.expect, TokenClass::CoreId);
    assert_eq!(err.failure, ParseFailure::Int(IntErrorKind::Empty));
}

#[test]
fn non_numeric_privilege_is_an_error() {
    let err = SpikeLogSyntax::parse("core 0: M 0x8 (0x13)").unwrap_err();
    assert_eq!(err.expect, TokenClass::Privilege);
    assert_eq!(err.actual, "M");
    assert_eq!(err.failure, ParseFailure::Int(IntErrorKind::InvalidDigit));
}

#[test]
fn program_counter_without_prefix_is_an_error() {
    let err = SpikeLogSyntax::parse("core 0: 3 80000000 (0x13)").unwrap_err();
    assert_eq!(err.expect, TokenClass::ProgramCounter);
    assert_eq!(err.failure, ParseFailure::NoHexPrefix);
}

#[test]
fn program_counter_beyond_64_bits_is_an_error() {
    let err = SpikeLogSyntax::parse("core 0: 3 0x10000000000000000 (0x13)").unwrap_err();
    assert_eq!(err.expect, TokenClass::ProgramCounter);
    assert_eq!(err.failure, ParseFailure::Int(IntErrorKind::PosOverflow));
}

#[test]
fn instruction_without_parentheses_is_an_error() {
    let err = SpikeLogSyntax::parse("core 0: 3 0x8 0x13").unwrap_err();
    assert_eq!(err.expect, TokenClass::Instruction);
    assert_eq!(err.failure, ParseFailure::NoOpenParen);
    let err = SpikeLogSyntax::parse("core 0: 3 0x8 (0x13").unwrap_err();
    assert_eq!(err.failure, ParseFailure::NoCloseParen);
}

#[test]
fn instruction_beyond_32_bits_is_an_error() {
    let err = SpikeLogSyntax::parse("core 0: 3 0x8 (0x100000000)").unwrap_err();
    assert_eq!(err.expect, TokenClass::Instruction);
    assert_eq!(err.failure, ParseFailure::Int(IntErrorKind::PosOverflow));
}

#[test]
fn register_value_without_prefix_is_an_error() {
    let err = SpikeLogSyntax::parse("core 0: 3 0x8 (0x13) x1 5").unwrap_err();
    assert_eq!(err.expect, TokenClass::RegisterValue);
    assert_eq!(err.actual, "5");
    assert_eq!(err.failure, ParseFailure::NoHexPrefix);
}

#[test]
fn invalid_register_value_is_an_error() {
    let err = SpikeLogSyntax::parse("core 0: 3 0x8 (0x13) x1 0xzz").unwrap_err();
    assert_eq!(err.expect, TokenClass::RegisterValue);
    assert_eq!(err.failure, ParseFailure::Int(IntErrorKind::InvalidDigit));
}

#[test]
fn truncated_lines_are_errors() {
    let err = SpikeLogSyntax::parse("").unwrap_err();
    assert_eq!(err.expect, TokenClass::CoreId);
    assert_eq!(err.actual, "");
    assert_eq!(err.failure, ParseFailure::Missing);
    let err = SpikeLogSyntax::parse("core 0: 3 0x8").unwrap_err();
    assert_eq!(err.expect, TokenClass::Instruction);
    assert_eq!(err.failure, ParseFailure::Missing);
    let err = SpikeLogSyntax::parse("core 0: 3 0x8 (0x13) x1").unwrap_err();
    assert_eq!(err.expect, TokenClass::RegisterValue);
    assert_eq!(err.failure, ParseFailure::Missing);
}

#[test]
fn log_error_names_the_line() {
    let err = parse_spike_log("core 0: 3 0x8 (0x13)\r\ncore 0: 3 0x8 (0x13) x1 7\n").unwrap_err();
    assert_eq!(err.line_number, 1);
    assert_eq!(err.line, "core 0: 3 0x8 (0x13) x1 7");
    assert_eq!(err.error.expect, TokenClass::RegisterValue);
}

#[test]
fn log_lines_end_at_line_feeds() {
    let log = parse_spike_log("core 0: 3 0x8 (0x13)\r\ncore 0: 3 0xc (0x13)").unwrap();
    assert_eq!(log.len(), 2);
    assert_eq!(log[0].pc, 8);
    assert_eq!(log[1].pc, 0xc);
    assert!(parse_spike_log("").unwrap().is_empty());
}

#[test]
fn commit_line_round_trips() {
    let line = "core   0: 3 0x0000000080000004 (0x00b52023) a0 0x0000000000000001 mem 0x0000000080001000 0x0000000000000001";
    let e = SpikeLogSyntax::parse(line).unwrap();
    let written = e.to_log_line();
    assert_eq!(
        written,
        "core 0: 3 0x0000000080000004 (0x00b52023) a0 0x0000000000000001 mem 0x0000000080001000 0x0000000000000001"
    );
    let again = SpikeLogSyntax::parse(&written).unwrap();
    assert_eq!(again.core, e.core);
    assert_eq!(again.privilege, e.privilege);
    assert_eq!(again.pc, e.pc);
    assert_eq!(again.instruction, e.instruction);
    assert_eq!(again.reg.len(), e.reg.len());
    assert_eq!(again.reg[0].name, e.reg[0].name);
    assert_eq!(again.reg[0].value, e.reg[0].value);
    assert_eq!(again.mem_writes, e.mem_writes);
}
