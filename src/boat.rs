//! The implementation's structured event log.

use crate::numeric::{dec_digits, hex64, hex_digits};
use crate::text::{push_dec, push_hex, push_hex64, push_str};
use vstd::prelude::*;

verus! {

/// One event of the implementation's log.
#[derive(Debug)]
#[allow(inconsistent_fields)]
pub enum BoatEvent {
    PhysicalMemory { action: String, bytes: u8, address: u64 },
    ArchState { action: String, pc: u64, reg_idx: u8, data: u64 },
    InstructionFetch { data: u32 },
    ResetVector { new_addr: u64 },
}

/// One line of the implementation's log, which wraps the event.
#[derive(Debug)]
pub struct BoatLogLine {
    pub fields: BoatEvent,
}

/// What an event holds, as plain values.
#[allow(inconsistent_fields)]
pub enum BoatEventView {
    PhysicalMemory { action: Seq<char>, bytes: u8, address: u64 },
    ArchState { action: Seq<char>, pc: u64, reg_idx: u8, data: u64 },
    InstructionFetch { data: u32 },
    ResetVector { new_addr: u64 },
}

impl View for BoatEvent {
    type V = BoatEventView;

    open spec fn view(&self) -> BoatEventView {
        match self {
            BoatEvent::PhysicalMemory { action, bytes, address } => BoatEventView::PhysicalMemory {
                action: action@,
                bytes: *bytes,
                address: *address,
            },
            BoatEvent::ArchState { action, pc, reg_idx, data } => BoatEventView::ArchState {
                action: action@,
                pc: *pc,
                reg_idx: *reg_idx,
                data: *data,
            },
            BoatEvent::InstructionFetch { data } => BoatEventView::InstructionFetch { data: *data },
            BoatEvent::ResetVector { new_addr } => BoatEventView::ResetVector { new_addr: *new_addr },
        }
    }
}

pub open spec fn reset_vector_of(e: BoatEventView) -> Option<u64> {
    match e {
        BoatEventView::ResetVector { new_addr } => Some(new_addr),
        _ => None,
    }
}

/// How an event is shown to a person.
pub open spec fn render_event(e: BoatEventView) -> Seq<char> {
    match e {
        BoatEventView::ArchState { action, pc, reg_idx, data } => "PC="@ + hex64(pc) + " "@
            + action + " to register [x"@ + dec_digits(reg_idx as nat) + "] with ["@ + hex64(data)
            + "]"@,
        BoatEventView::PhysicalMemory { action, bytes, address } => "PhysicalMemory { action: "@
            + action + ", bytes: "@ + dec_digits(bytes as nat) + ", address: "@ + hex64(address)
            + " }"@,
        BoatEventView::InstructionFetch { data } => "InstructionFetch { data: 0x"@ + hex_digits(
            data as nat,
            8,
        ) + " }"@,
        BoatEventView::ResetVector { new_addr } => "ResetVector { new_addr: "@ + hex64(new_addr)
            + " }"@,
    }
}

impl BoatEvent {
    /// The target of a reset, for a reset event.
    pub fn get_reset_vector(&self) -> (r: Option<u64>)
        ensures
            r == reset_vector_of(self@),
    {
        match self {
            BoatEvent::ResetVector { new_addr } => Some(*new_addr),
            _ => None,
        }
    }

    /// The event as it is shown to a person.
    pub fn to_display_string(&self) -> (r: String)
        ensures
            r@ == render_event(self@),
    {
        let mut s = String::new();
        match self {
            BoatEvent::ArchState { action, pc, reg_idx, data } => {
                push_str(&mut s, "PC=");
                push_hex64(&mut s, *pc);
                push_str(&mut s, " ");
                push_str(&mut s, action.as_str());
                push_str(&mut s, " to register [x");
                push_dec(&mut s, *reg_idx as u64);
                push_str(&mut s, "] with [");
                push_hex64(&mut s, *data);
                push_str(&mut s, "]");
            },
            BoatEvent::PhysicalMemory { action, bytes, address } => {
                push_str(&mut s, "PhysicalMemory { action: ");
                push_str(&mut s, action.as_str());
                push_str(&mut s, ", bytes: ");
                push_dec(&mut s, *bytes as u64);
                push_str(&mut s, ", address: ");
                push_hex64(&mut s, *address);
                push_str(&mut s, " }");
            },
            BoatEvent::InstructionFetch { data } => {
                push_str(&mut s, "InstructionFetch { data: 0x");
                push_hex(&mut s, *data as u64, 8);
                push_str(&mut s, " }");
            },
            BoatEvent::ResetVector { new_addr } => {
                push_str(&mut s, "ResetVector { new_addr: ");
                push_hex64(&mut s, *new_addr);
                push_str(&mut s, " }");
            },
        }
        assert(s@ =~= render_event(self@));
        s
    }
}

} // verus!
