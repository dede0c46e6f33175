//! Alignment of the reference trace with the implementation's log, and the
//! verdict on them.

use crate::boat::{BoatEvent, BoatEventView, render_event, reset_vector_of};
use crate::numeric::{dec_digits, hex64};
use crate::registers::{name_matches, reg_name_matches};
use crate::spike::{SpikeEvent, SpikeLogSyntax, SpikeMemWrite, events_view, render_line};
use crate::text::{push_dec, push_hex64, push_str};
use vstd::prelude::*;

verus! {

/// The memory store that marks the end of a test.
#[derive(Debug, Clone, Copy, PartialEq, Eq, Structural)]
pub struct EndPattern {
    pub memory_address: u64,
    pub data: u64,
}

/// Where and why the two traces part.
#[derive(Debug, Clone, Copy, PartialEq, Eq, Structural)]
pub enum DiffFailure {
    /// No commit of the reference trace is at the implementation's reset vector.
    SyncPointNotFound { reset_vector: u64 },
    /// No commit of the reference trace makes the end store.
    EndPatternNotFound,
    /// The reference commit at `spike_index` writes registers, and no later
    /// register write of the implementation is at its PC.
    MissingCounterpart { pc: u64, spike_index: usize },
    /// The implementation's write at `boat_index` has no equal among the
    /// register writes of the reference commit at `spike_index`.
    RegisterMismatch { pc: u64, reg_idx: u8, data: u64, spike_index: usize, boat_index: usize },
}

pub open spec fn boat_view(b: Seq<BoatEvent>) -> Seq<BoatEventView> {
    b.map_values(|e: BoatEvent| e@)
}

/// The target of the first reset event at or after `from`.
pub open spec fn find_reset(b: Seq<BoatEventView>, from: int) -> Option<u64>
    decreases b.len() - from,
{
    if from < 0 || from >= b.len() {
        None
    } else if reset_vector_of(b[from]) is Some {
        reset_vector_of(b[from])
    } else {
        find_reset(b, from + 1)
    }
}

/// The first commit at or after `from` whose PC is `pc` (the length if none).
pub open spec fn first_pc_from(r: Seq<SpikeEvent>, pc: u64, from: int) -> int
    decreases r.len() - from,
{
    if from < 0 || from >= r.len() {
        r.len() as int
    } else if r[from].pc == pc {
        from
    } else {
        first_pc_from(r, pc, from + 1)
    }
}

pub open spec fn stores(e: SpikeEvent, p: EndPattern) -> bool {
    exists|k: int|
        0 <= k < e.mem_writes.len() && #[trigger] e.mem_writes[k] == (SpikeMemWrite {
            address: p.memory_address,
            data: p.data,
        })
}

/// The first commit at or after `from` that makes the end store (the length if none).
pub open spec fn first_store_from(r: Seq<SpikeEvent>, p: EndPattern, from: int) -> int
    decreases r.len() - from,
{
    if from < 0 || from >= r.len() {
        r.len() as int
    } else if stores(r[from], p) {
        from
    } else {
        first_store_from(r, p, from + 1)
    }
}

pub open spec fn is_arch_at(e: BoatEventView, pc: u64) -> bool {
    match e {
        BoatEventView::ArchState { pc: p, .. } => p == pc,
        _ => false,
    }
}

/// The first register write of the implementation at or after `from` whose
/// PC is `pc` (the length if none).
pub open spec fn first_arch_from(b: Seq<BoatEventView>, pc: u64, from: int) -> int
    decreases b.len() - from,
{
    if from < 0 || from >= b.len() {
        b.len() as int
    } else if is_arch_at(b[from], pc) {
        from
    } else {
        first_arch_from(b, pc, from + 1)
    }
}

/// The end of the run of register writes at `pc` that starts at `from`.
pub open spec fn run_end(b: Seq<BoatEventView>, pc: u64, from: int) -> int
    decreases b.len() - from,
{
    if from < 0 || from >= b.len() {
        b.len() as int
    } else if is_arch_at(b[from], pc) {
        run_end(b, pc, from + 1)
    } else {
        from
    }
}

/// Whether the commit writes `data` to a register named as register `reg_idx`.
pub open spec fn has_counterpart(e: SpikeEvent, reg_idx: u8, data: u64) -> bool {
    exists|k: int|
        0 <= k < e.reg.len() && reg_name_matches((#[trigger] e.reg[k]).0, reg_idx) && e.reg[k].1
            == data
}

pub open spec fn matched_by(e: SpikeEvent, w: BoatEventView) -> bool {
    match w {
        BoatEventView::ArchState { reg_idx, data, .. } => has_counterpart(e, reg_idx, data),
        _ => true,
    }
}

/// The first write in `b[from..to]` that the commit has no counterpart for
/// (`to` if none).
pub open spec fn first_unmatched(e: SpikeEvent, b: Seq<BoatEventView>, from: int, to: int) -> int
    decreases to - from,
{
    if from >= to {
        to
    } else if !matched_by(e, b[from]) {
        from
    } else {
        first_unmatched(e, b, from + 1, to)
    }
}

pub open spec fn arch_fields(w: BoatEventView) -> (u8, u64) {
    match w {
        BoatEventView::ArchState { reg_idx, data, .. } => (reg_idx, data),
        _ => (0, 0),
    }
}

/// The walk over the commits from `i` on, with the implementation's cursor
/// at `cursor`; it stops at a commit whose PC is `stop`.
pub open spec fn walk(
    r: Seq<SpikeEvent>,
    b: Seq<BoatEventView>,
    stop: Option<u64>,
    i: int,
    cursor: int,
) -> Option<DiffFailure>
    decreases r.len() - i,
{
    if i < 0 || i >= r.len() {
        None
    } else if stop == Some(r[i].pc) {
        None
    } else if r[i].reg.len() == 0 {
        walk(r, b, stop, i + 1, cursor)
    } else {
        let j = first_arch_from(b, r[i].pc, cursor);
        if j >= b.len() {
            Some(DiffFailure::MissingCounterpart { pc: r[i].pc, spike_index: i as usize })
        } else {
            let k = run_end(b, r[i].pc, j);
            let m = first_unmatched(r[i], b, j, k);
            if m < k {
                Some(
                    DiffFailure::RegisterMismatch {
                        pc: r[i].pc,
                        reg_idx: arch_fields(b[m]).0,
                        data: arch_fields(b[m]).1,
                        spike_index: i as usize,
                        boat_index: m as usize,
                    },
                )
            } else {
                walk(r, b, stop, i + 1, k)
            }
        }
    }
}

/// The outcome of aligning the two traces: `None` where they agree.
pub open spec fn diff_outcome(
    r: Seq<SpikeEvent>,
    b: Seq<BoatEventView>,
    end: Option<EndPattern>,
) -> Option<DiffFailure> {
    let addr = find_reset(b, 0)->Some_0;
    let s = first_pc_from(r, addr, 0);
    if s >= r.len() {
        Some(DiffFailure::SyncPointNotFound { reset_vector: addr })
    } else {
        match end {
            None => walk(r, b, None, s, 0),
            Some(p) => {
                let q = first_store_from(r, p, 0);
                if q >= r.len() {
                    Some(DiffFailure::EndPatternNotFound)
                } else {
                    walk(r, b, Some(r[q].pc), s, 0)
                }
            },
        }
    }
}

fn find_reset_exec(b: &Vec<BoatEvent>) -> (r: Option<u64>)
    ensures
        r == find_reset(boat_view(b@), 0),
{
    let ghost bv = boat_view(b@);
    let mut i: usize = 0;
    while i < b.len()
        invariant
            i <= b@.len(),
            bv == boat_view(b@),
            find_reset(bv, 0) == find_reset(bv, i as int),
        decreases b@.len() - i,
    {
        let r = b[i].get_reset_vector();
        if r.is_some() {
            return r;
        }
        i = i + 1;
    }
    None
}

fn first_pc(r: &Vec<SpikeLogSyntax>, pc: u64, from: usize) -> (k: usize)
    requires
        from <= r@.len(),
    ensures
        k == first_pc_from(events_view(r@), pc, from as int),
{
    let ghost ev = events_view(r@);
    let mut i: usize = from;
    while i < r.len()
        invariant
            from <= i <= r@.len(),
            ev == events_view(r@),
            first_pc_from(ev, pc, from as int) == first_pc_from(ev, pc, i as int),
        decreases r@.len() - i,
    {
        if r[i].pc == pc {
            return i;
        }
        i = i + 1;
    }
    i
}

fn event_stores(e: &SpikeLogSyntax, p: EndPattern) -> (r: bool)
    ensures
        r == stores(e@, p),
{
    let target = SpikeMemWrite { address: p.memory_address, data: p.data };
    let mut k: usize = 0;
    while k < e.mem_writes.len()
        invariant
            k <= e.mem_writes@.len(),
            target == (SpikeMemWrite { address: p.memory_address, data: p.data }),
            forall|j: int| 0 <= j < k ==> e.mem_writes@[j] != target,
        decreases e.mem_writes@.len() - k,
    {
        let w = e.mem_writes[k];
        if w.address == p.memory_address && w.data == p.data {
            assert(e@.mem_writes[k as int] == target);
            return true;
        }
        k = k + 1;
    }
    false
}

fn first_store(r: &Vec<SpikeLogSyntax>, p: EndPattern) -> (k: usize)
    ensures
        k == first_store_from(events_view(r@), p, 0),
{
    let ghost ev = events_view(r@);
    let mut i: usize = 0;
    while i < r.len()
        invariant
            i <= r@.len(),
            ev == events_view(r@),
            first_store_from(ev, p, 0) == first_store_from(ev, p, i as int),
        decreases r@.len() - i,
    {
        if event_stores(&r[i], p) {
            return i;
        }
        i = i + 1;
    }
    i
}

fn arch_at(e: &BoatEvent, pc: u64) -> (r: bool)
    ensures
        r == is_arch_at(e@, pc),
{
    match e {
        BoatEvent::ArchState { pc: p, .. } => *p == pc,
        _ => false,
    }
}

fn first_arch(b: &Vec<BoatEvent>, pc: u64, from: usize) -> (k: usize)
    requires
        from <= b@.len(),
    ensures
        k == first_arch_from(boat_view(b@), pc, from as int),
{
    let ghost bv = boat_view(b@);
    let mut i: usize = from;
    while i < b.len()
        invariant
            from <= i <= b@.len(),
            bv == boat_view(b@),
            first_arch_from(bv, pc, from as int) == first_arch_from(bv, pc, i as int),
        decreases b@.len() - i,
    {
        if arch_at(&b[i], pc) {
            return i;
        }
        i = i + 1;
    }
    i
}

fn run_end_at(b: &Vec<BoatEvent>, pc: u64, from: usize) -> (k: usize)
    requires
        from <= b@.len(),
    ensures
        k == run_end(boat_view(b@), pc, from as int),
{
    let ghost bv = boat_view(b@);
    let mut i: usize = from;
    while i < b.len()
        invariant
            from <= i <= b@.len(),
            bv == boat_view(b@),
            run_end(bv, pc, from as int) == run_end(bv, pc, i as int),
        decreases b@.len() - i,
    {
        if !arch_at(&b[i], pc) {
            return i;
        }
        i = i + 1;
    }
    i
}

fn counterpart(e: &SpikeLogSyntax, reg_idx: u8, data: u64) -> (r: bool)
    ensures
        r == has_counterpart(e@, reg_idx, data),
{
    let mut k: usize = 0;
    while k < e.reg.len()
        invariant
            k <= e.reg@.len(),
            forall|j: int|
                0 <= j < k ==> !(reg_name_matches((#[trigger] e@.reg[j]).0, reg_idx) && e@.reg[j].1
                    == data),
        decreases e.reg@.len() - k,
    {
        let w = &e.reg[k];
        assert(e@.reg[k as int] == w@);
        if name_matches(&w.name, reg_idx) && w.value == data {
            return true;
        }
        k = k + 1;
    }
    false
}

fn first_unmatched_at(e: &SpikeLogSyntax, b: &Vec<BoatEvent>, from: usize, to: usize) -> (k: usize)
    requires
        from <= to <= b@.len(),
    ensures
        k == first_unmatched(e@, boat_view(b@), from as int, to as int),
{
    let ghost bv = boat_view(b@);
    let mut i: usize = from;
    while i < to
        invariant
            from <= i <= to <= b@.len(),
            bv == boat_view(b@),
            first_unmatched(e@, bv, from as int, to as int) == first_unmatched(
                e@,
                bv,
                i as int,
                to as int,
            ),
        decreases to - i,
    {
        let matched = match &b[i] {
            BoatEvent::ArchState { reg_idx, data, .. } => counterpart(e, *reg_idx, *data),
            _ => true,
        };
        if !matched {
            return i;
        }
        i = i + 1;
    }
    i
}

/// Aligns the reference trace with the implementation's log from the
/// commit at the reset vector on; `end`, where given, bounds the walk at the
/// PC of the first commit that makes its store.
pub fn align(spike_log: &Vec<SpikeLogSyntax>, boat_log: &Vec<BoatEvent>, end: Option<EndPattern>) -> (r:
    Option<DiffFailure>)
    requires
        find_reset(boat_view(boat_log@), 0) is Some,
    ensures
        r == diff_outcome(events_view(spike_log@), boat_view(boat_log@), end),
        r matches Some(f) ==> failure_in_range(f, spike_log@.len(), boat_log@.len()),
{
    let ghost ev = events_view(spike_log@);
    let ghost bv = boat_view(boat_log@);
    let addr = match find_reset_exec(boat_log) {
        Some(a) => a,
        None => {
            return None;
        },
    };
    let s = first_pc(spike_log, addr, 0);
    if s >= spike_log.len() {
        return Some(DiffFailure::SyncPointNotFound { reset_vector: addr });
    }
    let stop: Option<u64> = match end {
        None => None,
        Some(p) => {
            let q = first_store(spike_log, p);
            if q >= spike_log.len() {
                return Some(DiffFailure::EndPatternNotFound);
            }
            Some(spike_log[q].pc)
        },
    };
    let mut i: usize = s;
    let mut cursor: usize = 0;
    while i < spike_log.len()
        invariant
            s <= i <= spike_log@.len(),
            cursor <= boat_log@.len(),
            ev == events_view(spike_log@),
            bv == boat_view(boat_log@),
            diff_outcome(ev, bv, end) == walk(ev, bv, stop, i as int, cursor as int),
        decreases spike_log@.len() - i,
    {
        let e = &spike_log[i];
        if stop == Some(e.pc) {
            return None;
        }
        if e.reg.len() == 0 {
            i = i + 1;
        } else {
            let j = first_arch(boat_log, e.pc, cursor);
            if j >= boat_log.len() {
                return Some(DiffFailure::MissingCounterpart { pc: e.pc, spike_index: i });
            }
            proof {
                lemma_first_arch_bounds(bv, e.pc, cursor as int);
                lemma_run_end_bounds(bv, e.pc, j as int);
            }
            let k = run_end_at(boat_log, e.pc, j);
            let m = first_unmatched_at(e, boat_log, j, k);
            if m < k {
                proof {
                    lemma_first_unmatched_bounds(e@, bv, j as int, k as int);
                }
                let (reg_idx, data) = match &boat_log[m] {
                    BoatEvent::ArchState { reg_idx, data, .. } => (*reg_idx, *data),
                    _ => (0, 0),
                };
                return Some(
                    DiffFailure::RegisterMismatch {
                        pc: e.pc,
                        reg_idx,
                        data,
                        spike_index: i,
                        boat_index: m,
                    },
                );
            }
            cursor = k;
            i = i + 1;
        }
    }
    None
}

proof fn lemma_first_arch_bounds(b: Seq<BoatEventView>, pc: u64, from: int)
    requires
        0 <= from <= b.len(),
    ensures
        from <= first_arch_from(b, pc, from) <= b.len(),
        first_arch_from(b, pc, from) < b.len() ==> is_arch_at(b[first_arch_from(b, pc, from)], pc),
    decreases b.len() - from,
{
    if from < b.len() && !is_arch_at(b[from], pc) {
        lemma_first_arch_bounds(b, pc, from + 1);
    }
}

proof fn lemma_run_end_bounds(b: Seq<BoatEventView>, pc: u64, from: int)
    requires
        0 <= from <= b.len(),
    ensures
        from <= run_end(b, pc, from) <= b.len(),
        forall|k: int| from <= k < run_end(b, pc, from) ==> is_arch_at(#[trigger] b[k], pc),
    decreases b.len() - from,
{
    if from < b.len() && is_arch_at(b[from], pc) {
        lemma_run_end_bounds(b, pc, from + 1);
    }
}

proof fn lemma_first_unmatched_bounds(e: SpikeEvent, b: Seq<BoatEventView>, from: int, to: int)
    requires
        from <= to,
    ensures
        from <= first_unmatched(e, b, from, to) <= to,
        first_unmatched(e, b, from, to) < to ==> !matched_by(e, b[first_unmatched(e, b, from, to)]),
    decreases to - from,
{
    if from < to && matched_by(e, b[from]) {
        lemma_first_unmatched_bounds(e, b, from + 1, to);
    }
}

/// The commit and the event that a failure points at exist.
pub open spec fn failure_in_range(f: DiffFailure, spike_len: nat, boat_len: nat) -> bool {
    match f {
        DiffFailure::MissingCounterpart { spike_index, .. } => spike_index < spike_len,
        DiffFailure::RegisterMismatch { spike_index, boat_index, .. } => spike_index < spike_len
            && boat_index < boat_len,
        _ => true,
    }
}

/// The report on a failure, as it is shown to a person.
pub open spec fn render_failure(f: DiffFailure, r: Seq<SpikeEvent>, b: Seq<BoatEventView>) -> Seq<
    char,
> {
    match f {
        DiffFailure::SyncPointNotFound { reset_vector } =>
            "no commit of the spike log is at the reset vector "@ + hex64(reset_vector),
        DiffFailure::EndPatternNotFound => "no end pattern found in the spike log"@,
        DiffFailure::MissingCounterpart { pc, spike_index } => "At PC="@ + hex64(pc)
            + " spike has a commit that does not occur at boat side:\n\n"@ + render_line(
            r[spike_index as int],
        ) + "\n"@,
        DiffFailure::RegisterMismatch { pc, reg_idx, data, spike_index, boat_index } => "At PC="@
            + hex64(pc) + " boat write "@ + hex64(data) + " to register x"@ + dec_digits(
            reg_idx as nat,
        ) + ",\nbut this action was not found at spike side.\n\n"@
            + "------------\n|Event Dump|\n------------\n\nWe get boat:\n"@ + render_event(
            b[boat_index as int],
        ) + "\n\nBut have spike:\n"@ + render_line(r[spike_index as int]) + "\n"@,
    }
}

/// The report on a failure, as it is shown to a person.
pub fn describe_failure(f: DiffFailure, spike_log: &Vec<SpikeLogSyntax>, boat_log: &Vec<BoatEvent>) -> (r:
    String)
    requires
        failure_in_range(f, spike_log@.len(), boat_log@.len()),
    ensures
        r@ == render_failure(f, events_view(spike_log@), boat_view(boat_log@)),
{
    let mut s = String::new();
    match f {
        DiffFailure::SyncPointNotFound { reset_vector } => {
            push_str(&mut s, "no commit of the spike log is at the reset vector ");
            push_hex64(&mut s, reset_vector);
        },
        DiffFailure::EndPatternNotFound => {
            push_str(&mut s, "no end pattern found in the spike log");
        },
        DiffFailure::MissingCounterpart { pc, spike_index } => {
            push_str(&mut s, "At PC=");
            push_hex64(&mut s, pc);
            push_str(&mut s, " spike has a commit that does not occur at boat side:\n\n");
            let line = spike_log[spike_index].to_log_line();
            push_str(&mut s, line.as_str());
            push_str(&mut s, "\n");
        },
        DiffFailure::RegisterMismatch { pc, reg_idx, data, spike_index, boat_index } => {
            push_str(&mut s, "At PC=");
            push_hex64(&mut s, pc);
            push_str(&mut s, " boat write ");
            push_hex64(&mut s, data);
            push_str(&mut s, " to register x");
            push_dec(&mut s, reg_idx as u64);
            push_str(&mut s, ",\nbut this action was not found at spike side.\n\n");
            push_str(&mut s, "------------\n|Event Dump|\n------------\n\nWe get boat:\n");
            let event = boat_log[boat_index].to_display_string();
            push_str(&mut s, event.as_str());
            push_str(&mut s, "\n\nBut have spike:\n");
            let line = spike_log[spike_index].to_log_line();
            push_str(&mut s, line.as_str());
            push_str(&mut s, "\n");
        },
    }
    assert(s@ =~= render_failure(f, events_view(spike_log@), boat_view(boat_log@)));
    s
}

/// The verdict on two traces: whether they agree, and otherwise a report
/// on where they part.
#[derive(Debug)]
pub struct DiffMeta {
    pub is_same: bool,
    pub context: String,
}

impl DiffMeta {
    pub fn passed() -> (r: Self)
        ensures
            r.is_same,
            r.context@ == Seq::<char>::empty(),
    {
        DiffMeta { is_same: true, context: String::new() }
    }

    pub fn failed(ctx: String) -> (r: Self)
        ensures
            !r.is_same,
            r.context@ == ctx@,
    {
        DiffMeta { is_same: false, context: ctx }
    }
}

/// The verdict that `diff` gives: a pass with no report where the outcome
/// is `None`, else a failure with the report on it.
pub open spec fn verdict(r: Seq<SpikeEvent>, b: Seq<BoatEventView>, end: Option<EndPattern>) -> (
    bool,
    Seq<char>,
) {
    match diff_outcome(r, b, end) {
        None => (true, Seq::empty()),
        Some(f) => (false, render_failure(f, r, b)),
    }
}

/// Compares the reference trace with the implementation's log.
pub fn diff(spike_log: &Vec<SpikeLogSyntax>, boat_log: &Vec<BoatEvent>, end: Option<EndPattern>) -> (r:
    DiffMeta)
    requires
        spike_log@.len() > 0,
        boat_log@.len() > 0,
        find_reset(boat_view(boat_log@), 0) is Some,
    ensures
        (r.is_same, r.context@) == verdict(events_view(spike_log@), boat_view(boat_log@), end),
{
    match align(spike_log, boat_log, end) {
        None => DiffMeta::passed(),
        Some(f) => DiffMeta::failed(describe_failure(f, spike_log, boat_log)),
    }
}

} // verus!
