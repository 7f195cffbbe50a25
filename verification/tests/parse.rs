use std::str::FromStr;

use nxd::parse::{for_parsed_data, recognize_line, AbsoluteError, DataError, DumpLine, Offset, OffsetError};

#[test]
fn test_recognize_line() {
    let p = |offset, data, comment| DumpLine {
        offset,
        data,
        comment,
    };
    assert_eq!(recognize_line(""), p("", "", ""));
    assert_eq!(recognize_line("abcd"), p("", "abcd", ""));
    assert_eq!(recognize_line("0: abcd"), p("0", "abcd", ""));
    assert_eq!(recognize_line("00000000: abcd"), p("00000000", "abcd", ""));
    assert_eq!(
        recognize_line("  deadbeef: abcd"),
        p("deadbeef", "abcd", "")
    );
    assert_eq!(recognize_line(": abcd"), p("", "abcd", ""));
    assert_eq!(recognize_line(":abcd"), p("", "abcd", ""));
    assert_eq!(recognize_line("0: abcd|????"), p("0", "abcd", "????"));
    assert_eq!(recognize_line("0: abcd |????"), p("0", "abcd", "????"));
    assert_eq!(recognize_line("0: abcd| ????"), p("0", "abcd", " ????"));
    assert_eq!(recognize_line("0: abcd | ????"), p("0", "abcd", " ????"));
    assert_eq!(recognize_line("0: abcd "), p("0", "abcd", ""));
    assert_eq!(recognize_line("0:    abcd "), p("0", "abcd", ""));
    assert_eq!(recognize_line(" abcd "), p("", "abcd", ""));
    assert_eq!(recognize_line("  abcd "), p("", "abcd", ""));
    assert_eq!(recognize_line(" abcd | ????"), p("", "abcd", " ????"));
    assert_eq!(
        recognize_line("00 abcd |  ????"),
        p("", "00 abcd", "  ????")
    );
    assert_eq!(recognize_line("abcd |0:  ????"), p("", "abcd", "0:  ????"));
}

#[test]
fn test_offset_parsing() {
    let abs = Offset::Absolute;
    let rel = Offset::Relative;
    assert_eq!("00000000".parse(), Ok(abs(0)));
    assert_eq!("00000001".parse(), Ok(abs(1)));
    assert_eq!("a".parse(), Ok(abs(10)));
    assert_eq!("A".parse(), Ok(abs(10)));
    assert!(Offset::from_str("g").is_err());
    assert!(Offset::from_str("+").is_err());
    assert!(Offset::from_str("-").is_err());
    assert_eq!("+1".parse(), Ok(rel(1)));
    assert_eq!("-1".parse(), Ok(rel(-1)));
}

#[test]
fn recognize_line_unicode_whitespace_is_trimmed() {
    let line = "\u{3000}10:\u{a0}ab cd\u{2028}|x";
    assert_eq!(
        recognize_line(line),
        DumpLine { offset: "10", data: "ab cd", comment: "x" }
    );
}

#[test]
fn recognize_line_fields_of_a_full_line() {
    // An offset, data and comment in the form that the dump writes.
    assert_eq!(
        recognize_line("+0000ffff:0a1B2c|any: text | here"),
        DumpLine { offset: "+0000ffff", data: "0a1B2c", comment: "any: text | here" }
    );
    assert_eq!(
        recognize_line("|only a comment"),
        DumpLine { offset: "", data: "", comment: "only a comment" }
    );
}

#[test]
fn offset_errors_and_limits() {
    assert_eq!(Offset::parse(""), Err(OffsetError::Empty));
    assert_eq!(Offset::parse("0x"), Err(OffsetError::InvalidDigit));
    assert_eq!(Offset::parse("ffffffffffffffff"), Ok(Offset::Absolute(u64::MAX)));
    assert_eq!(Offset::parse("10000000000000000"), Err(OffsetError::PosOverflow));
    assert_eq!(Offset::parse("+7fffffffffffffff"), Ok(Offset::Relative(i64::MAX)));
    assert_eq!(Offset::parse("+8000000000000000"), Err(OffsetError::PosOverflow));
    assert_eq!(Offset::parse("-8000000000000000"), Ok(Offset::Relative(i64::MIN)));
    assert_eq!(Offset::parse("-8000000000000001"), Err(OffsetError::NegOverflow));
    assert_eq!(Offset::parse("+-1"), Err(OffsetError::InvalidDigit));
    // The digit is checked before the overflow.
    assert_eq!(Offset::parse("1000000000000000g"), Err(OffsetError::InvalidDigit));
    assert_eq!(Offset::parse("10000000000000000g"), Err(OffsetError::PosOverflow));
}

#[test]
fn offset_parses_sixteen_digits_and_signed_eight() {
    assert_eq!(Offset::parse("0123456789abcdef"), Ok(Offset::Absolute(0x0123_4567_89ab_cdef)));
    assert_eq!(Offset::parse("FEDCBA9876543210"), Ok(Offset::Absolute(0xfedc_ba98_7654_3210)));
    assert_eq!(Offset::parse("+ffffffff"), Ok(Offset::Relative(0xffff_ffff)));
    assert_eq!(Offset::parse("-ffffffff"), Ok(Offset::Relative(-0xffff_ffff)));
}

#[test]
fn to_absolute_cases() {
    assert_eq!(Offset::Absolute(5).to_absolute(None), Ok(5));
    assert_eq!(Offset::Absolute(5).to_absolute(Some(100)), Ok(5));
    assert_eq!(Offset::Relative(-3).to_absolute(Some(10)), Ok(7));
    assert_eq!(Offset::Relative(3).to_absolute(None), Err(AbsoluteError::NoBasis(3)));
    assert_eq!(Offset::Relative(-11).to_absolute(Some(10)), Err(AbsoluteError::Overflow(10, -11)));
    assert_eq!(Offset::Relative(1).to_absolute(Some(u64::MAX)), Err(AbsoluteError::Overflow(u64::MAX, 1)));
}

fn parse_all(s: &str) -> (Vec<u8>, Result<(), DataError>) {
    let mut out = Vec::new();
    let r = for_parsed_data(s, &mut out);
    (out, r)
}

#[test]
fn parsed_data_cases() {
    assert_eq!(parse_all("00 ff\tAb  +f"), (vec![0x00, 0xff, 0xab, 0x0f], Ok(())));
    assert_eq!(parse_all("aa b"), (vec![0xaa], Err(DataError::IncompleteOctet)));
    assert_eq!(parse_all("aabbc"), (vec![], Err(DataError::IncompleteOctet)));
    assert_eq!(parse_all("aa zz bb"), (vec![0xaa], Err(DataError::InvalidOctet(3, 5))));
    assert_eq!(parse_all("-1"), (vec![], Err(DataError::InvalidOctet(0, 2))));
    // A two-byte character takes the place of an octet and is not one.
    assert_eq!(parse_all("aa\u{e9}"), (vec![0xaa], Err(DataError::InvalidOctet(2, 3))));
    // Two bytes that end inside a character stop the group silently.
    assert_eq!(parse_all("a\u{e9}b 01"), (vec![0x01], Ok(())));
    assert_eq!(parse_all("11\u{20ac}a 22"), (vec![0x11, 0x22], Ok(())));
}
