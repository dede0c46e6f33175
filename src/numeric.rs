//! Unsigned integer parsing and formatting over characters.

use vstd::prelude::*;

verus! {

/// Why a string of characters is not an unsigned integer of a given width.
#[derive(Debug, Clone, Copy, PartialEq, Eq, Structural)]
pub enum IntErrorKind {
    /// The string is empty.
    Empty,
    /// A character is not a digit of the radix (a lone sign included).
    InvalidDigit,
    /// The value does not fit in the target type.
    PosOverflow,
}

/// The value of `c` as a digit of `radix` (at most 36), if it is one.
pub open spec fn digit_value(c: char, radix: nat) -> Option<nat> {
    let d: int = if '0' <= c && c <= '9' {
        c as int - '0' as int
    } else if 'a' <= c && c <= 'z' {
        c as int - 'a' as int + 10
    } else if 'A' <= c && c <= 'Z' {
        c as int - 'A' as int + 10
    } else {
        36
    };
    if d < radix {
        Some(d as nat)
    } else {
        None
    }
}

/// Digits read from the left; the first digit that is invalid or that
/// makes the value exceed `max` decides the error.
pub open spec fn parse_digits(s: Seq<char>, radix: nat, max: nat) -> Result<nat, IntErrorKind>
    decreases s.len(),
{
    if s.len() == 0 {
        Ok(0)
    } else {
        match parse_digits(s.drop_last(), radix, max) {
            Err(e) => Err(e),
            Ok(v) => match digit_value(s.last(), radix) {
                None => Err(IntErrorKind::InvalidDigit),
                Some(d) => if v * radix + d > max {
                    Err(IntErrorKind::PosOverflow)
                } else {
                    Ok(v * radix + d)
                },
            },
        }
    }
}

/// An unsigned integer of at most `max`, written in `radix` with an optional
/// leading `+`.
pub open spec fn parse_unsigned(s: Seq<char>, radix: nat, max: nat) -> Result<nat, IntErrorKind> {
    if s.len() == 0 {
        Err(IntErrorKind::Empty)
    } else if s.len() == 1 && (s[0] == '+' || s[0] == '-') {
        Err(IntErrorKind::InvalidDigit)
    } else if s[0] == '+' {
        parse_digits(s.drop_first(), radix, max)
    } else {
        parse_digits(s, radix, max)
    }
}

fn digit_of(c: char, radix: u32) -> (r: Option<u32>)
    requires
        2 <= radix <= 36,
    ensures
        r matches Some(d) ==> digit_value(c, radix as nat) == Some(d as nat),
        r is None ==> digit_value(c, radix as nat) is None,
{
    let d: u32 = if '0' <= c && c <= '9' {
        (c as u32) - ('0' as u32)
    } else if 'a' <= c && c <= 'z' {
        (c as u32) - ('a' as u32) + 10
    } else if 'A' <= c && c <= 'Z' {
        (c as u32) - ('A' as u32) + 10
    } else {
        36
    };
    if d < radix {
        Some(d)
    } else {
        None
    }
}

/// The result of `parse_unsigned` as a machine integer.
pub open spec fn parse_u64(s: Seq<char>, radix: nat, max: nat) -> Result<u64, IntErrorKind> {
    match parse_unsigned(s, radix, max) {
        Ok(v) => Ok(v as u64),
        Err(e) => Err(e),
    }
}

fn parse_digits_in(s: &Vec<char>, lo: usize, hi: usize, radix: u32, max: u64) -> (r: Result<
    u64,
    IntErrorKind,
>)
    requires
        lo <= hi <= s@.len(),
        2 <= radix <= 36,
    ensures
        r == parse_u64_digits(s@.subrange(lo as int, hi as int), radix as nat, max as nat),
{
    let mut acc: u64 = 0;
    let mut i: usize = lo;
    while i < hi
        invariant
            lo <= i <= hi <= s@.len(),
            2 <= radix <= 36,
            parse_digits(s@.subrange(lo as int, i as int), radix as nat, max as nat) == Ok::<
                nat,
                IntErrorKind,
            >(acc as nat),
            acc <= max,
        decreases hi - i,
    {
        let ghost prefix = s@.subrange(lo as int, i + 1);
        proof {
            assert(prefix.drop_last() =~= s@.subrange(lo as int, i as int));
            assert(prefix.last() == s@[i as int]);
        }
        match digit_of(s[i], radix) {
            None => {
                assert(parse_digits(prefix, radix as nat, max as nat) is Err);
                proof {
                    assert(s@.subrange(lo as int, hi as int).subrange(0, i + 1 - lo) =~= prefix);
                    lemma_parse_digits_err_extends(
                        s@.subrange(lo as int, hi as int),
                        (i + 1 - lo) as nat,
                        radix as nat,
                        max as nat,
                    );
                }
                return Err(IntErrorKind::InvalidDigit);
            },
            Some(d) => {
                if d as u64 > max || acc > (max - d as u64) / (radix as u64) {
                    proof {
                        if d <= max {
                            assert(acc * radix + d > max) by (nonlinear_arith)
                                requires
                                    acc > (max - d) / (radix as int),
                                    d <= max,
                                    radix > 0,
                            ;
                        } else {
                            assert(acc * radix + d > max) by (nonlinear_arith)
                                requires
                                    d > max,
                                    acc >= 0,
                                    radix > 0,
                            ;
                        }
                        assert(parse_digits(prefix, radix as nat, max as nat) is Err);
                        assert(s@.subrange(lo as int, hi as int).subrange(0, i + 1 - lo)
                            =~= prefix);
                        lemma_parse_digits_err_extends(
                            s@.subrange(lo as int, hi as int),
                            (i + 1 - lo) as nat,
                            radix as nat,
                            max as nat,
                        );
                    }
                    return Err(IntErrorKind::PosOverflow);
                }
                assert(acc * radix + d <= max) by (nonlinear_arith)
                    requires
                        acc <= (max - d) / (radix as int),
                        d <= max,
                        radix > 0,
                ;
                acc = acc * (radix as u64) + d as u64;
                i = i + 1;
            },
        }
    }
    assert(s@.subrange(lo as int, i as int) =~= s@.subrange(lo as int, hi as int));
    Ok(acc)
}

/// `parse_digits` as a machine integer.
pub open spec fn parse_u64_digits(s: Seq<char>, radix: nat, max: nat) -> Result<u64, IntErrorKind> {
    match parse_digits(s, radix, max) {
        Ok(v) => Ok(v as u64),
        Err(e) => Err(e),
    }
}

/// Once a prefix of the digits fails, the whole string fails the same way.
pub proof fn lemma_parse_digits_err_extends(s: Seq<char>, n: nat, radix: nat, max: nat)
    requires
        n <= s.len(),
        parse_digits(s.subrange(0, n as int), radix, max) is Err,
    ensures
        parse_digits(s, radix, max) == parse_digits(s.subrange(0, n as int), radix, max),
    decreases s.len() - n,
{
    if n < s.len() {
        assert(s.subrange(0, n + 1 as int).drop_last() =~= s.subrange(0, n as int));
        lemma_parse_digits_err_extends(s, n + 1, radix, max);
    } else {
        assert(s.subrange(0, n as int) =~= s);
    }
}

/// `parse_unsigned` on `s[lo..hi]`, for a radix of at most 36 and a bound `max`.
pub fn parse_unsigned_in(s: &Vec<char>, lo: usize, hi: usize, radix: u32, max: u64) -> (r: Result<
    u64,
    IntErrorKind,
>)
    requires
        lo <= hi <= s@.len(),
        2 <= radix <= 36,
    ensures
        r == parse_u64(s@.subrange(lo as int, hi as int), radix as nat, max as nat),
{
    let ghost t = s@.subrange(lo as int, hi as int);
    if lo == hi {
        return Err(IntErrorKind::Empty);
    }
    assert(t[0] == s@[lo as int]);
    if hi - lo == 1 && (s[lo] == '+' || s[lo] == '-') {
        return Err(IntErrorKind::InvalidDigit);
    }
    if s[lo] == '+' {
        assert(t.drop_first() =~= s@.subrange(lo + 1, hi as int));
        parse_digits_in(s, lo + 1, hi, radix, max)
    } else {
        parse_digits_in(s, lo, hi, radix, max)
    }
}

/// The character of a digit below 16, lower case.
pub open spec fn hex_char(d: nat) -> char {
    if d < 10 {
        (('0' as int) + d) as char
    } else {
        (('a' as int) + d - 10) as char
    }
}

/// `n` in `width` hexadecimal digits, zero-padded (the low `width` digits).
pub open spec fn hex_digits(n: nat, width: nat) -> Seq<char>
    decreases width,
{
    if width == 0 {
        Seq::empty()
    } else {
        hex_digits(n / 16, (width - 1) as nat).push(hex_char(n % 16))
    }
}

/// `0x` and the 16 hexadecimal digits of `n`.
pub open spec fn hex64(n: u64) -> Seq<char> {
    seq!['0', 'x'] + hex_digits(n as nat, 16)
}

/// `n` in decimal, without leading zeros.
pub open spec fn dec_digits(n: nat) -> Seq<char>
    decreases n,
{
    if n < 10 {
        seq![hex_char(n)]
    } else {
        dec_digits(n / 10).push(hex_char(n % 10))
    }
}

/// `16` to the power `w`.
pub open spec fn pow16(w: nat) -> nat
    decreases w,
{
    if w == 0 {
        1
    } else {
        16 * pow16((w - 1) as nat)
    }
}

pub proof fn lemma_pow16_widths()
    ensures
        pow16(8) == 0x1_0000_0000,
        pow16(16) == 0x1_0000_0000_0000_0000,
{
    assert(pow16(0) == 1);
    assert(pow16(1) == 16);
    assert(pow16(2) == 0x100);
    assert(pow16(3) == 0x1000);
    assert(pow16(4) == 0x1_0000);
    assert(pow16(5) == 0x10_0000);
    assert(pow16(6) == 0x100_0000);
    assert(pow16(7) == 0x1000_0000);
    assert(pow16(8) == 0x1_0000_0000);
    assert(pow16(9) == 0x10_0000_0000);
    assert(pow16(10) == 0x100_0000_0000);
    assert(pow16(11) == 0x1000_0000_0000);
    assert(pow16(12) == 0x1_0000_0000_0000);
    assert(pow16(13) == 0x10_0000_0000_0000);
    assert(pow16(14) == 0x100_0000_0000_0000);
    assert(pow16(15) == 0x1000_0000_0000_0000);
    assert(pow16(16) == 0x1_0000_0000_0000_0000);
}

/// Hexadecimal digits read back give the value they were written from.
pub proof fn lemma_hex_digits_parse(n: nat, width: nat, max: nat)
    requires
        n < pow16(width),
        n <= max,
    ensures
        parse_digits(hex_digits(n, width), 16, max) == Ok::<nat, IntErrorKind>(n),
    decreases width,
{
    if width == 0 {
        assert(hex_digits(n, width) =~= Seq::<char>::empty());
    } else {
        let w1 = (width - 1) as nat;
        let q = n / 16;
        let d = n % 16;
        assert(q < pow16(w1)) by (nonlinear_arith)
            requires
                n < 16 * pow16(w1),
                q == n / 16,
        ;
        assert(q * 16 + d == n) by (nonlinear_arith)
            requires
                q == n / 16,
                d == n % 16,
        ;
        assert(q <= n) by (nonlinear_arith)
            requires
                q == n / 16,
        ;
        lemma_hex_digits_parse(q, w1, max);
        let h = hex_digits(n, width);
        assert(h.drop_last() =~= hex_digits(q, w1));
        assert(digit_value(h.last(), 16) == Some(d));
    }
}

/// Decimal digits read back give the value they were written from.
pub proof fn lemma_dec_digits_parse(n: nat, max: nat)
    requires
        n <= max,
    ensures
        parse_digits(dec_digits(n), 10, max) == Ok::<nat, IntErrorKind>(n),
    decreases n,
{
    let s = dec_digits(n);
    if n < 10 {
        assert(s.drop_last() =~= Seq::<char>::empty());
        assert(parse_digits(s.drop_last(), 10, max) == Ok::<nat, IntErrorKind>(0));
        assert(digit_value(s.last(), 10) == Some(n));
    } else {
        let q = n / 10;
        let d = n % 10;
        assert(q * 10 + d == n && q < n) by (nonlinear_arith)
            requires
                q == n / 10,
                d == n % 10,
                n >= 10,
        ;
        lemma_dec_digits_parse(q, max);
        assert(s.drop_last() =~= dec_digits(q));
        assert(digit_value(s.last(), 10) == Some(d));
    }
}

/// Decimal digits are never empty and never begin with a sign.
pub proof fn lemma_dec_digits_shape(n: nat)
    ensures
        dec_digits(n).len() >= 1,
        forall|i: int| 0 <= i < dec_digits(n).len() ==> '0' <= #[trigger] dec_digits(n)[i] <= '9',
    decreases n,
{
    if n >= 10 {
        lemma_dec_digits_shape(n / 10);
    }
}

/// Hexadecimal digits are lower-case digits of radix 16.
pub proof fn lemma_hex_digits_shape(n: nat, width: nat)
    ensures
        hex_digits(n, width).len() == width,
        forall|i: int|
            0 <= i < width ==> #[trigger] digit_value(hex_digits(n, width)[i], 16) is Some,
    decreases width,
{
    if width > 0 {
        lemma_hex_digits_shape(n / 16, (width - 1) as nat);
    }
}

/// `s` without any number of leading `0x`.
pub open spec fn strip_hex_prefixes(s: Seq<char>) -> Seq<char>
    decreases s.len(),
{
    if s.len() >= 2 && s[0] == '0' && s[1] == 'x' {
        strip_hex_prefixes(s.subrange(2, s.len() as int))
    } else {
        s
    }
}

/// The position in `s` past all leading `0x`, from `lo` on.
pub fn skip_hex_prefixes(s: &Vec<char>, lo: usize, hi: usize) -> (r: usize)
    requires
        lo <= hi <= s@.len(),
    ensures
        lo <= r <= hi,
        s@.subrange(r as int, hi as int) == strip_hex_prefixes(s@.subrange(lo as int, hi as int)),
{
    let mut i: usize = lo;
    while hi - i >= 2 && s[i] == '0' && s[i + 1] == 'x'
        invariant
            lo <= i <= hi <= s@.len(),
            strip_hex_prefixes(s@.subrange(i as int, hi as int)) == strip_hex_prefixes(
                s@.subrange(lo as int, hi as int),
            ),
        decreases hi - i,
    {
        assert(s@.subrange(i as int, hi as int).subrange(2, hi - i) =~= s@.subrange(
            i + 2,
            hi as int,
        ));
        i = i + 2;
    }
    i
}

/// A hexadecimal 64-bit value, after any number of leading `0x`.
pub fn hex_to_u64(val: &str) -> (r: Result<u64, IntErrorKind>)
    ensures
        r == parse_u64(strip_hex_prefixes(val@), 16, u64::MAX as nat),
{
    let s = crate::text::chars_of(val);
    assert(s@.subrange(0, s@.len() as int) =~= s@);
    let start = skip_hex_prefixes(&s, 0, s.len());
    parse_unsigned_in(&s, start, s.len(), 16, u64::MAX)
}

} // verus!
