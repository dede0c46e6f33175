use boat_difftest::memory_size::{parse_memory_size, MemorySize, MemorySizeError};
use boat_difftest::numeric::{hex_to_u64, IntErrorKind};
use boat_difftest::registers::name_matches;
use boat_difftest::text::split_lines;

#[test]
fn hex_strings_decode_to_u64() {
    assert_eq!(hex_to_u64("0x80001000"), Ok(0x8000_1000));
    assert_eq!(hex_to_u64("0xdeadbeef"), Ok(0xdead_beef));
    assert_eq!(hex_to_u64("ff"), Ok(0xff));
    assert_eq!(hex_to_u64("0x0x10"), Ok(0x10));
    assert_eq!(hex_to_u64("0xFFFFFFFFFFFFFFFF"), Ok(u64::MAX));
    assert_eq!(hex_to_u64("0x10000000000000000"), Err(IntErrorKind::PosOverflow));
    assert_eq!(hex_to_u64("0xzz"), Err(IntErrorKind::InvalidDigit));
    assert_eq!(hex_to_u64("0x"), Err(IntErrorKind::Empty));
    assert_eq!(hex_to_u64("+"), Err(IntErrorKind::InvalidDigit));
    assert_eq!(hex_to_u64("+1f"), Ok(0x1f));
}

#[test]
fn memory_sizes_read_as_hex_or_decimal() {
    assert_eq!(parse_memory_size("0xa0000000").unwrap().as_usize(), 0xa000_0000);
    assert_eq!(parse_memory_size("0x0000000100000000").unwrap().to_usize(), 0x1_0000_0000);
    assert_eq!(parse_memory_size("1024").unwrap().as_usize(), 1024);
    assert_eq!(
        parse_memory_size("0x1000").unwrap_err(),
        MemorySizeError::UnsupportedWidth
    );
    assert_eq!(
        parse_memory_size("0xa000000g").unwrap_err(),
        MemorySizeError::InvalidHex(IntErrorKind::InvalidDigit)
    );
    assert_eq!(
        parse_memory_size("ten").unwrap_err(),
        MemorySizeError::InvalidDecimal(IntErrorKind::InvalidDigit)
    );
    assert_eq!(
        parse_memory_size("").unwrap_err(),
        MemorySizeError::InvalidDecimal(IntErrorKind::Empty)
    );
    let m: MemorySize = "0xa0000000".parse().unwrap();
    assert_eq!(m.as_usize(), 0xa000_0000);
    assert_eq!(MemorySize::from(42usize).to_usize(), 42);
}

#[test]
fn register_names_match_by_number_or_convention() {
    assert!(name_matches(&String::from("x10"), 10));
    assert!(name_matches(&String::from("a0"), 10));
    assert!(name_matches(&String::from("zero"), 0));
    assert!(name_matches(&String::from("fp"), 8));
    assert!(name_matches(&String::from("s0"), 8));
    assert!(name_matches(&String::from("t6"), 31));
    assert!(!name_matches(&String::from("x1"), 10));
    assert!(!name_matches(&String::from("a1"), 10));
    assert!(!name_matches(&String::from("x010"), 10));
}

#[test]
fn text_splits_into_lines() {
    assert_eq!(split_lines("a\r\nb\nc"), vec!["a", "b", "c"]);
    assert_eq!(split_lines("a\n\nb\n"), vec!["a", "", "b"]);
    assert!(split_lines("").is_empty());
    assert_eq!(split_lines("x\r"), vec!["x\r"]);
}
