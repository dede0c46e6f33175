//! The size of the emulated memory, as given on the command line.

use crate::numeric::{
    IntErrorKind, parse_u64, parse_unsigned_in, skip_hex_prefixes, strip_hex_prefixes,
};
use crate::text::chars_of;
use vstd::prelude::*;

verus! {

/// A size of memory in bytes.
#[derive(Debug, Clone)]
pub struct MemorySize(pub usize);

impl MemorySize {
    pub fn to_usize(self) -> (r: usize)
        ensures
            r == self.0,
    {
        self.0
    }

    pub fn as_usize(&self) -> (r: usize)
        ensures
            r == self.0,
    {
        self.0
    }
}

impl From<usize> for MemorySize {
    fn from(value: usize) -> (r: Self)
        ensures
            r.0 == value,
    {
        MemorySize(value)
    }
}

impl vstd::std_specs::convert::FromSpecImpl<usize> for MemorySize {
    open spec fn obeys_from_spec() -> bool {
        true
    }

    open spec fn from_spec(v: usize) -> Self {
        MemorySize(v)
    }
}

/// Why a string is no memory size.
#[derive(Debug, Clone, Copy, PartialEq, Eq, Structural)]
pub enum MemorySizeError {
    /// The digits after `0x` are no hexadecimal number of their width.
    InvalidHex(IntErrorKind),
    /// After `0x` stand neither 8 nor 16 bytes.
    UnsupportedWidth,
    /// The string is no decimal number that fits the machine's size.
    InvalidDecimal(IntErrorKind),
    /// The value does not fit the machine's size.
    TooLarge,
}

/// The number of bytes of `c` in UTF-8.
pub open spec fn utf8_width(c: char) -> nat {
    if (c as u32) < 0x80 {
        1
    } else if (c as u32) < 0x800 {
        2
    } else if (c as u32) < 0x10000 {
        3
    } else {
        4
    }
}

/// The number of bytes of `s` in UTF-8.
pub open spec fn utf8_len(s: Seq<char>) -> nat
    decreases s.len(),
{
    if s.len() == 0 {
        0
    } else {
        utf8_len(s.drop_last()) + utf8_width(s.last())
    }
}

/// What a memory size written as `s` is: after `0x`, 8 or 16 hexadecimal
/// digits (further leading `0x` dropped), else a decimal number.
pub open spec fn memory_size_of(s: Seq<char>) -> Result<usize, MemorySizeError> {
    if s.len() >= 2 && s[0] == '0' && s[1] == 'x' {
        let raw = strip_hex_prefixes(s);
        if utf8_len(raw) == 8 {
            match parse_u64(raw, 16, u32::MAX as nat) {
                Ok(v) => if v <= usize::MAX {
                    Ok(v as usize)
                } else {
                    Err(MemorySizeError::TooLarge)
                },
                Err(e) => Err(MemorySizeError::InvalidHex(e)),
            }
        } else if utf8_len(raw) == 16 {
            match parse_u64(raw, 16, u64::MAX as nat) {
                Ok(v) => if v <= usize::MAX {
                    Ok(v as usize)
                } else {
                    Err(MemorySizeError::TooLarge)
                },
                Err(e) => Err(MemorySizeError::InvalidHex(e)),
            }
        } else {
            Err(MemorySizeError::UnsupportedWidth)
        }
    } else {
        match parse_u64(s, 10, usize::MAX as nat) {
            Ok(v) => Ok(v as usize),
            Err(e) => Err(MemorySizeError::InvalidDecimal(e)),
        }
    }
}

fn char_width(c: char) -> (r: usize)
    ensures
        r == utf8_width(c),
{
    if (c as u32) < 0x80 {
        1
    } else if (c as u32) < 0x800 {
        2
    } else if (c as u32) < 0x10000 {
        3
    } else {
        4
    }
}

/// The UTF-8 length of `s[lo..hi]`, or `None` once it passes 16.
fn utf8_len_upto16(s: &Vec<char>, lo: usize, hi: usize) -> (r: Option<usize>)
    requires
        lo <= hi <= s@.len(),
    ensures
        r matches Some(n) ==> n == utf8_len(s@.subrange(lo as int, hi as int)) && n <= 16,
        r is None ==> utf8_len(s@.subrange(lo as int, hi as int)) > 16,
{
    let mut n: usize = 0;
    let mut i: usize = lo;
    while i < hi
        invariant
            lo <= i <= hi <= s@.len(),
            n == utf8_len(s@.subrange(lo as int, i as int)),
            n <= 16,
        decreases hi - i,
    {
        assert(s@.subrange(lo as int, i + 1).drop_last() =~= s@.subrange(lo as int, i as int));
        n = n + char_width(s[i]);
        i = i + 1;
        if n > 16 {
            proof {
                lemma_utf8_len_grows(s@.subrange(lo as int, hi as int), (i - lo) as nat);
                assert(s@.subrange(lo as int, hi as int).subrange(0, i - lo) =~= s@.subrange(
                    lo as int,
                    i as int,
                ));
            }
            return None;
        }
    }
    Some(n)
}

proof fn lemma_utf8_len_grows(s: Seq<char>, k: nat)
    requires
        k <= s.len(),
    ensures
        utf8_len(s.subrange(0, k as int)) <= utf8_len(s),
    decreases s.len() - k,
{
    if k < s.len() {
        lemma_utf8_len_grows(s, k + 1);
        assert(s.subrange(0, k + 1 as int).drop_last() =~= s.subrange(0, k as int));
    } else {
        assert(s.subrange(0, k as int) =~= s);
    }
}

/// Reads a memory size: `0x` and 8 or 16 hexadecimal digits, or a decimal
/// number.
pub fn parse_memory_size(s: &str) -> (r: Result<MemorySize, MemorySizeError>)
    ensures
        r matches Ok(m) ==> memory_size_of(s@) == Ok::<usize, MemorySizeError>(m.0),
        r matches Err(e) ==> memory_size_of(s@) == Err::<usize, MemorySizeError>(e),
{
    let cs = chars_of(s);
    let n = cs.len();
    assert(cs@.subrange(0, n as int) =~= cs@);
    if n >= 2 && cs[0] == '0' && cs[1] == 'x' {
        let start = skip_hex_prefixes(&cs, 0, n);
        let max: u64 = match utf8_len_upto16(&cs, start, n) {
            Some(8) => u32::MAX as u64,
            Some(16) => u64::MAX,
            _ => {
                return Err(MemorySizeError::UnsupportedWidth);
            },
        };
        match parse_unsigned_in(&cs, start, n, 16, max) {
            Ok(v) => if v <= usize::MAX as u64 {
                Ok(MemorySize(v as usize))
            } else {
                Err(MemorySizeError::TooLarge)
            },
            Err(e) => Err(MemorySizeError::InvalidHex(e)),
        }
    } else {
        match parse_unsigned_in(&cs, 0, n, 10, usize::MAX as u64) {
            Ok(v) => Ok(MemorySize(v as usize)),
            Err(e) => Err(MemorySizeError::InvalidDecimal(e)),
        }
    }
}

impl std::str::FromStr for MemorySize {
    type Err = MemorySizeError;

    fn from_str(s: &str) -> Result<Self, Self::Err> {
        parse_memory_size(s)
    }
}

} // verus!
