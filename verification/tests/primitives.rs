use massif_parser::cursor::{
    get_line, lines_before, same_bytes, skip_until, split_by, split_line_by,
};
use massif_parser::error::LineError;
use massif_parser::human::{micros_to_human, TimeScale};
use massif_parser::number::{parse_u32, parse_u64};
use massif_parser::snapshot::{ParseTreeKindError, TreeKind};

#[test]
fn get_line_splits_at_the_first_terminator() {
    assert_eq!(get_line(b"ab\ncd\n", 0), Ok((&b"ab"[..], 3)));
    assert_eq!(get_line(b"ab\ncd\n", 3), Ok((&b"cd"[..], 6)));
    assert_eq!(get_line(b"ab\ncd\n", 1), Ok((&b"b"[..], 3)));
    assert_eq!(get_line(b"\nx", 0), Ok((&b""[..], 1)));
    assert_eq!(get_line(b"ab\r\ncd", 0), Ok((&b"ab"[..], 4)));
}

#[test]
fn get_line_needs_a_terminator() {
    assert_eq!(get_line(b"", 0), Err(LineError::MalformedInput));
    assert_eq!(get_line(b"abc", 0), Err(LineError::MalformedInput));
    assert_eq!(get_line(b"ab\ncd", 3), Err(LineError::MalformedInput));
    assert_eq!(get_line(b"ab\n", 3), Err(LineError::MalformedInput));
    assert_eq!(get_line(b"ab\n", 9), Err(LineError::MalformedInput));
    assert_eq!(get_line(b"a\rb\n", 0), Err(LineError::MalformedInput));
    assert_eq!(get_line(b"ab\r", 0), Err(LineError::MalformedInput));
}

#[test]
fn split_by_strips_the_literal() {
    assert_eq!(split_by(b"time=12", b"time="), Ok(&b"12"[..]));
    assert_eq!(split_by(b"time=", b"time="), Ok(&b""[..]));
    assert_eq!(split_by(b"anything", b""), Ok(&b"anything"[..]));
    assert_eq!(split_by(b"time", b"time="), Err(LineError::UnexpectedToken));
    assert_eq!(split_by(b"Time=12", b"time="), Err(LineError::UnexpectedToken));
    assert_eq!(split_by(b" time=12", b"time="), Err(LineError::UnexpectedToken));
    assert_eq!(split_by(b"", b"time="), Err(LineError::UnexpectedToken));
}

#[test]
fn split_line_by_reads_one_keyed_line() {
    assert_eq!(split_line_by(b"cmd: ls -l\nrest", 0, b"cmd: "), Ok((&b"ls -l"[..], 11)));
    assert_eq!(split_line_by(b"x\ncmd: ls\n", 2, b"cmd: "), Ok((&b"ls"[..], 10)));
    assert_eq!(split_line_by(b"cmd: ls", 0, b"cmd: "), Err(LineError::MalformedInput));
    assert_eq!(split_line_by(b"cmd:ls\n", 0, b"cmd: "), Err(LineError::UnexpectedToken));
    assert_eq!(split_line_by(b"cm\nd: ls\n", 0, b"cmd: "), Err(LineError::UnexpectedToken));
}

#[test]
fn skip_until_finds_the_next_occurrence() {
    assert_eq!(skip_until(b"ab##cd##", 0, b"##"), 2);
    assert_eq!(skip_until(b"ab##cd##", 2, b"##"), 2);
    assert_eq!(skip_until(b"ab##cd##", 3, b"##"), 6);
    assert_eq!(skip_until(b"ab##cd##", 7, b"##"), 8);
    assert_eq!(skip_until(b"ab#cd", 0, b"##"), 5);
    assert_eq!(skip_until(b"", 0, b"##"), 0);
    assert_eq!(skip_until(b"abc", 1, b""), 1);
    assert_eq!(skip_until(b"abc", 3, b""), 3);
    assert_eq!(skip_until(b"abc", 7, b"c"), 3);
    assert_eq!(skip_until(b"aab", 0, b"ab"), 1);
}

#[test]
fn same_bytes_compares_length_and_content() {
    assert!(same_bytes(b"", b""));
    assert!(same_bytes(b"peak", b"peak"));
    assert!(!same_bytes(b"peak", b"peek"));
    assert!(!same_bytes(b"peak", b"pea"));
    assert!(!same_bytes(b"pea", b"peak"));
}

#[test]
fn parse_u32_reads_decimal_numbers() {
    assert_eq!(parse_u32(b"0"), Some(0));
    assert_eq!(parse_u32(b"2048"), Some(2048));
    assert_eq!(parse_u32(b"007"), Some(7));
    assert_eq!(parse_u32(b"+15"), Some(15));
    assert_eq!(parse_u32(b"4294967295"), Some(u32::MAX));
    assert_eq!(parse_u32(b"4294967296"), None);
    assert_eq!(parse_u32(b"99999999999999999999999"), None);
    assert_eq!(parse_u32(b""), None);
    assert_eq!(parse_u32(b"+"), None);
    assert_eq!(parse_u32(b"++1"), None);
    assert_eq!(parse_u32(b"-1"), None);
    assert_eq!(parse_u32(b"1 "), None);
    assert_eq!(parse_u32(b" 1"), None);
    assert_eq!(parse_u32(b"1_000"), None);
    assert_eq!(parse_u32(b"0x10"), None);
    assert_eq!(parse_u32(b"12a"), None);
}

#[test]
fn parse_u64_reads_decimal_numbers() {
    assert_eq!(parse_u64(b"0"), Some(0));
    assert_eq!(parse_u64(b"1000"), Some(1000));
    assert_eq!(parse_u64(b"4294967296"), Some(4294967296));
    assert_eq!(parse_u64(b"18446744073709551615"), Some(u64::MAX));
    assert_eq!(parse_u64(b"18446744073709551616"), None);
    assert_eq!(parse_u64(b"18446744073709551620"), None);
    assert_eq!(parse_u64(b"28446744073709551615"), None);
    assert_eq!(parse_u64(b"000000000000000000000000000001"), Some(1));
    assert_eq!(parse_u64(b"184467440737095516150"), None);
    assert_eq!(parse_u64(b"1e3"), None);
}

#[test]
fn numbers_read_as_the_standard_library_reads_them() {
    let samples = [
        "", "0", "1", "+1", "-1", "+", "-", "++1", "+-1", "00", "0042", "4294967295",
        "4294967296", "18446744073709551615", "18446744073709551616", "1.0", "1,0", " 1", "1 ",
        "١٢٣", "12\u{0}", "0x1f", "1e9", "00000000000000000000000000000000000000000",
        "99999999999999999999",
    ];
    for text in samples {
        assert_eq!(parse_u32(text.as_bytes()), text.parse::<u32>().ok(), "u32 of {text:?}");
        assert_eq!(parse_u64(text.as_bytes()), text.parse::<u64>().ok(), "u64 of {text:?}");
    }
    for n in [0u64, 9, 10, 99, 100, 65535, 65536, 4294967294, 4294967295, 4294967296, u64::MAX - 1]
    {
        let text = n.to_string();
        assert_eq!(parse_u64(text.as_bytes()), Some(n));
        assert_eq!(parse_u32(text.as_bytes()), u32::try_from(n).ok());
    }
}

#[test]
fn tree_kind_is_read_from_its_tag() {
    assert_eq!(TreeKind::from_tag(b"empty"), Ok(TreeKind::Empty));
    assert_eq!(TreeKind::from_tag(b"detailed"), Ok(TreeKind::Detailed));
    assert_eq!(TreeKind::from_tag(b"peak"), Ok(TreeKind::Peak));
    assert_eq!(TreeKind::from_tag(b"weird"), Err(ParseTreeKindError));
    assert_eq!(TreeKind::from_tag(b""), Err(ParseTreeKindError));
    assert_eq!(TreeKind::from_tag(b"EMPTY"), Err(ParseTreeKindError));
    assert_eq!(TreeKind::from_tag(b"peak\n"), Err(ParseTreeKindError));
}

#[test]
fn tree_kind_parses_from_a_string() {
    assert_eq!("empty".parse::<TreeKind>(), Ok(TreeKind::Empty));
    assert_eq!("detailed".parse::<TreeKind>(), Ok(TreeKind::Detailed));
    assert_eq!("peak".parse::<TreeKind>(), Ok(TreeKind::Peak));
    assert_eq!("weird".parse::<TreeKind>(), Err(ParseTreeKindError));
}

#[test]
fn times_are_shown_in_their_largest_unit() {
    assert_eq!(micros_to_human(0), (0, TimeScale::Micros));
    assert_eq!(micros_to_human(999), (999, TimeScale::Micros));
    assert_eq!(micros_to_human(1_000), (1, TimeScale::Millis));
    assert_eq!(micros_to_human(999_999), (999, TimeScale::Millis));
    assert_eq!(micros_to_human(1_000_000), (1, TimeScale::Seconds));
    assert_eq!(micros_to_human(59_999_999), (59, TimeScale::Seconds));
    assert_eq!(micros_to_human(60_000_000), (1, TimeScale::Minutes));
    assert_eq!(micros_to_human(3_599_999_999), (59, TimeScale::Minutes));
    assert_eq!(micros_to_human(3_600_000_000), (1, TimeScale::Hours));
    assert_eq!(micros_to_human(90 * 60_000_000), (1, TimeScale::Hours));
    assert_eq!(micros_to_human(u64::MAX), (5_124_095_576, TimeScale::Hours));
}

#[test]
fn lines_before_counts_line_feeds() {
    let text = b"ab\ncd\r\n\nef";
    assert_eq!(lines_before(text, 0), 0);
    assert_eq!(lines_before(text, 2), 0);
    assert_eq!(lines_before(text, 3), 1);
    assert_eq!(lines_before(text, 6), 1);
    assert_eq!(lines_before(text, 7), 2);
    assert_eq!(lines_before(text, 8), 3);
    assert_eq!(lines_before(text, text.len()), 3);
    assert_eq!(lines_before(text, 1000), 3);
    assert_eq!(lines_before(b"", 0), 0);
}
