//! Differential testing of a RISC-V simulator against a reference simulator:
//! parsing of both execution traces and their alignment.

pub mod numeric;
pub mod text;
pub mod spike;
pub mod boat;
pub mod registers;
pub mod diff;
pub mod laws;
pub mod round_trip;
pub mod memory_size;
