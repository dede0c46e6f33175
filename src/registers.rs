//! Names of the integer registers.

use crate::numeric::dec_digits;
use crate::text::{push_char, push_dec};
use vstd::prelude::*;
use vstd::string::*;

verus! {

/// The calling-convention name of integer register `idx` (below 32).
pub open spec fn abi_name(idx: u8) -> Seq<char> {
    match idx {
        0 => "zero"@,
        1 => "ra"@,
        2 => "sp"@,
        3 => "gp"@,
        4 => "tp"@,
        5 => "t0"@,
        6 => "t1"@,
        7 => "t2"@,
        8 => "s0"@,
        9 => "s1"@,
        10 => "a0"@,
        11 => "a1"@,
        12 => "a2"@,
        13 => "a3"@,
        14 => "a4"@,
        15 => "a5"@,
        16 => "a6"@,
        17 => "a7"@,
        18 => "s2"@,
        19 => "s3"@,
        20 => "s4"@,
        21 => "s5"@,
        22 => "s6"@,
        23 => "s7"@,
        24 => "s8"@,
        25 => "s9"@,
        26 => "s10"@,
        27 => "s11"@,
        28 => "t3"@,
        29 => "t4"@,
        30 => "t5"@,
        _ => "t6"@,
    }
}

/// `x` followed by the register's number.
pub open spec fn numeric_name(idx: u8) -> Seq<char> {
    seq!['x'] + dec_digits(idx as nat)
}

/// Whether `name` names integer register `idx`: as `x<idx>`, by its
/// calling-convention name, or as `fp` for register 8.
pub open spec fn reg_name_matches(name: Seq<char>, idx: u8) -> bool {
    name == numeric_name(idx) || (idx < 32 && name == abi_name(idx)) || (idx == 8 && name
        == "fp"@)
}

fn abi_name_str(idx: u8) -> (r: &'static str)
    requires
        idx < 32,
    ensures
        r@ == abi_name(idx),
{
    match idx {
        0 => "zero",
        1 => "ra",
        2 => "sp",
        3 => "gp",
        4 => "tp",
        5 => "t0",
        6 => "t1",
        7 => "t2",
        8 => "s0",
        9 => "s1",
        10 => "a0",
        11 => "a1",
        12 => "a2",
        13 => "a3",
        14 => "a4",
        15 => "a5",
        16 => "a6",
        17 => "a7",
        18 => "s2",
        19 => "s3",
        20 => "s4",
        21 => "s5",
        22 => "s6",
        23 => "s7",
        24 => "s8",
        25 => "s9",
        26 => "s10",
        27 => "s11",
        28 => "t3",
        29 => "t4",
        30 => "t5",
        _ => "t6",
    }
}

/// Whether `name` names integer register `idx`.
pub fn name_matches(name: &String, idx: u8) -> (r: bool)
    ensures
        r == reg_name_matches(name@, idx),
{
    let mut numeric = String::new();
    push_char(&mut numeric, 'x');
    push_dec(&mut numeric, idx as u64);
    assert(numeric@ =~= numeric_name(idx));
    if *name == numeric {
        return true;
    }
    if idx < 32 {
        let abi = String::from_str(abi_name_str(idx));
        if *name == abi {
            return true;
        }
    }
    if idx == 8 {
        let fp = String::from_str("fp");
        if *name == fp {
            return true;
        }
    }
    false
}

} // verus!
