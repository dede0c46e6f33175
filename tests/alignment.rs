use boat_difftest::boat::BoatEvent;
use boat_difftest::diff::{align, diff, DiffFailure, EndPattern};
use boat_difftest::spike::{parse_spike_log, SpikeLogSyntax};

fn arch(pc: u64, reg_idx: u8, data: u64) -> BoatEvent {
    BoatEvent::ArchState { action: String::from("write"), pc, reg_idx, data }
}

fn reset(addr: u64) -> BoatEvent {
    BoatEvent::ResetVector { new_addr: addr }
}

fn fetch(data: u32) -> BoatEvent {
    BoatEvent::InstructionFetch { data }
}

fn reference(lines: &str) -> Vec<SpikeLogSyntax> {
    parse_spike_log(lines).unwrap()
}

const SCENARIO_LINE: &str = "core   0: 3 0x0000000080000000 (0x00000297) a0 0x0000000000000001";

#[test]
fn single_matching_write_passes() {
    let spike = reference(SCENARIO_LINE);
    let boat = vec![reset(0x8000_0000), arch(0x8000_0000, 10, 1)];
    let verdict = diff(&spike, &boat, None);
    assert!(verdict.is_same);
    assert_eq!(verdict.context, "");
}

#[test]
fn mismatched_value_fails_with_pc_and_register() {
    let spike = reference(SCENARIO_LINE);
    let boat = vec![reset(0x8000_0000), arch(0x8000_0000, 10, 2)];
    assert_eq!(
        align(&spike, &boat, None),
        Some(DiffFailure::RegisterMismatch {
            pc: 0x8000_0000,
            reg_idx: 10,
            data: 2,
            spike_index: 0,
            boat_index: 1,
        })
    );
    let verdict = diff(&spike, &boat, None);
    assert!(!verdict.is_same);
    assert_eq!(
        verdict.context,
        "At PC=0x0000000080000000 boat write 0x0000000000000002 to register x10,\n\
but this action was not found at spike side.\n\n\
------------\n|Event Dump|\n------------\n\n\
We get boat:\n\
PC=0x0000000080000000 write to register [x10] with [0x0000000000000002]\n\n\
But have spike:\n\
core 0: 3 0x0000000080000000 (0x00000297) a0 0x0000000000000001\n"
    );
}

#[test]
fn missing_end_pattern_fails_whatever_else_agrees() {
    let spike = reference(SCENARIO_LINE);
    let boat = vec![reset(0x8000_0000), arch(0x8000_0000, 10, 1)];
    let end = EndPattern { memory_address: 0x8000_1000, data: 0xdead_beef };
    assert_eq!(align(&spike, &boat, Some(end)), Some(DiffFailure::EndPatternNotFound));
    let verdict = diff(&spike, &boat, Some(end));
    assert!(!verdict.is_same);
    assert_eq!(verdict.context, "no end pattern found in the spike log");
}

#[test]
fn missing_sync_point_fails() {
    let spike = reference(
        "core 0: 3 0x1000 (0x297) x5 0x1000\ncore 0: 3 0x1004 (0x13) x6 0x2",
    );
    let boat = vec![reset(0x8000_0000), arch(0x1000, 5, 0x1000)];
    assert_eq!(
        align(&spike, &boat, None),
        Some(DiffFailure::SyncPointNotFound { reset_vector: 0x8000_0000 })
    );
    let verdict = diff(&spike, &boat, None);
    assert!(!verdict.is_same);
    assert_eq!(
        verdict.context,
        "no commit of the spike log is at the reset vector 0x0000000080000000"
    );
}

#[test]
fn boot_rom_commits_are_never_compared() {
    let spike = reference(
        "core 0: 3 0x1000 (0x297) x5 0x1000\ncore 0: 3 0x80000000 (0x13) x6 0x2",
    );
    let boat = vec![fetch(0x13), reset(0x8000_0000), arch(0x8000_0000, 6, 2)];
    assert_eq!(align(&spike, &boat, None), None);
}

#[test]
fn identical_traces_pass() {
    let spike = reference(
        "core 0: 3 0x80000000 (0x297) t0 0x80000000\n\
core 0: 3 0x80000004 (0xb52023) mem 0x80001000 0x1\n\
core 0: 3 0x80000008 (0x13) x6 0x2\n\
core 0: 3 0x80000008 (0x13) x6 0x3\n\
core 0: 3 0x8000000c (0x13) ra 0x10 sp 0x20",
    );
    let boat = vec![
        reset(0x8000_0000),
        fetch(0x297),
        arch(0x8000_0000, 5, 0x8000_0000),
        fetch(0xb52023),
        fetch(0x13),
        arch(0x8000_0008, 6, 2),
        fetch(0x13),
        arch(0x8000_0008, 6, 3),
        fetch(0x13),
        arch(0x8000_000c, 1, 0x10),
        arch(0x8000_000c, 2, 0x20),
    ];
    let verdict = diff(&spike, &boat, None);
    assert!(verdict.is_same);
}

#[test]
fn aligning_twice_gives_the_same_verdict() {
    let spike = reference(SCENARIO_LINE);
    let boat = vec![reset(0x8000_0000), arch(0x8000_0000, 10, 2)];
    let first = diff(&spike, &boat, None);
    let second = diff(&spike, &boat, None);
    assert_eq!(first.is_same, second.is_same);
    assert_eq!(first.context, second.context);
}

#[test]
fn end_pattern_bounds_the_walk() {
    let spike = reference(
        "core 0: 3 0x80000000 (0x297) x5 0x1\n\
core 0: 3 0x80000004 (0xb52023) mem 0x80001000 0x1\n\
core 0: 3 0x80000008 (0x13) x6 0x2",
    );
    let boat = vec![reset(0x8000_0000), arch(0x8000_0000, 5, 1)];
    let end = EndPattern { memory_address: 0x8000_1000, data: 1 };
    assert_eq!(align(&spike, &boat, Some(end)), None);
    assert_eq!(
        align(&spike, &boat, None),
        Some(DiffFailure::MissingCounterpart { pc: 0x8000_0008, spike_index: 2 })
    );
}

#[test]
fn reference_commit_without_counterpart_fails() {
    let spike = reference(SCENARIO_LINE);
    let boat = vec![reset(0x8000_0000), arch(0x8000_0004, 10, 1)];
    let verdict = diff(&spike, &boat, None);
    assert!(!verdict.is_same);
    assert_eq!(
        verdict.context,
        "At PC=0x0000000080000000 spike has a commit that does not occur at boat side:\n\n\
core 0: 3 0x0000000080000000 (0x00000297) a0 0x0000000000000001\n"
    );
}

#[test]
fn extra_write_at_the_same_pc_fails() {
    let spike = reference(SCENARIO_LINE);
    let boat = vec![reset(0x8000_0000), arch(0x8000_0000, 10, 1), arch(0x8000_0000, 11, 7)];
    assert_eq!(
        align(&spike, &boat, None),
        Some(DiffFailure::RegisterMismatch {
            pc: 0x8000_0000,
            reg_idx: 11,
            data: 7,
            spike_index: 0,
            boat_index: 2,
        })
    );
}

#[test]
fn fewer_implementation_writes_than_reference_writes_pass() {
    let spike = reference("core 0: 3 0x80000000 (0x34011173) x2 0x10 c832_mscratch 0x20");
    let boat = vec![reset(0x8000_0000), arch(0x8000_0000, 2, 0x10)];
    assert_eq!(align(&spike, &boat, None), None);
}

#[test]
fn memory_only_commits_are_skipped() {
    let spike = reference(
        "core 0: 3 0x80000000 (0xb52023) mem 0x80001000 0x1\ncore 0: 3 0x80000004 (0x13) x1 0x1",
    );
    let boat = vec![reset(0x8000_0000), arch(0x8000_0004, 1, 1)];
    assert_eq!(align(&spike, &boat, None), None);
}

#[test]
fn reset_vector_is_read_from_its_event() {
    assert_eq!(reset(0x8000_0000).get_reset_vector(), Some(0x8000_0000));
    assert_eq!(arch(0x8000_0000, 1, 1).get_reset_vector(), None);
}

#[test]
fn events_display_as_text() {
    assert_eq!(
        arch(0x8000_0000, 10, 1).to_display_string(),
        "PC=0x0000000080000000 write to register [x10] with [0x0000000000000001]"
    );
    assert_eq!(
        fetch(0x297).to_display_string(),
        "InstructionFetch { data: 0x00000297 }"
    );
    assert_eq!(
        reset(0x8000_0000).to_display_string(),
        "ResetVector { new_addr: 0x0000000080000000 }"
    );
    let mem = BoatEvent::PhysicalMemory { action: String::from("read"), bytes: 4, address: 0x10 };
    assert_eq!(
        mem.to_display_string(),
        "PhysicalMemory { action: read, bytes: 4, address: 0x0000000000000010 }"
    );
}

#[test]
fn one_changed_value_in_a_longer_trace_fails_there() {
    let spike = reference(
        "core 0: 3 0x80000000 (0x297) t0 0x80000000\n\
core 0: 3 0x80000004 (0x13) x6 0x2\n\
core 0: 3 0x80000008 (0x13) x7 0x3\n\
core 0: 3 0x8000000c (0xb52023) mem 0x80001000 0x1",
    );
    let boat = vec![
        reset(0x8000_0000),
        fetch(0x297),
        arch(0x8000_0000, 5, 0x8000_0000),
        fetch(0x13),
        arch(0x8000_0004, 6, 9),
        fetch(0x13),
        arch(0x8000_0008, 7, 3),
    ];
    let end = EndPattern { memory_address: 0x8000_1000, data: 1 };
    assert_eq!(
        align(&spike, &boat, Some(end)),
        Some(DiffFailure::RegisterMismatch {
            pc: 0x8000_0004,
            reg_idx: 6,
            data: 9,
            spike_index: 1,
            boat_index: 4,
        })
    );
    let verdict = diff(&spike, &boat, Some(end));
    assert!(!verdict.is_same);
    assert!(verdict.context.starts_with("At PC=0x0000000080000004 boat write 0x0000000000000009 to register x6,"));
}

#[test]
fn identical_traces_up_to_the_end_store_pass() {
    let spike = reference(
        "core 0: 3 0x80000000 (0x297) t0 0x80000000\n\
core 0: 3 0x80000004 (0xb52023) mem 0x80001000 0x1\n\
core 0: 3 0x80000008 (0x13) x6 0x2",
    );
    let boat = vec![reset(0x8000_0000), fetch(0x297), arch(0x8000_0000, 5, 0x8000_0000)];
    let end = EndPattern { memory_address: 0x8000_1000, data: 1 };
    let verdict = diff(&spike, &boat, Some(end));
    assert!(verdict.is_same);
    assert_eq!(verdict.context, "");
}
