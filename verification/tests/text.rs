use cutr::{
    count, format_count, format_field, lines_match, parse_positive_int, print_content,
    to_decimal, FileInfo,
};

#[test]
fn test_count() {
    let text = "I don't want the world. I just want your half.\r\n";
    let info = count(text);

    let expected = FileInfo {
        num_lines: 1,
        num_words: 10,
        num_chars: 48,
        num_bytes: 48,
    };

    assert_eq!(info, expected)
}

#[test]
fn count_edge_cases() {
    let empty = count("");
    assert_eq!(
        empty,
        FileInfo { num_lines: 0, num_words: 0, num_chars: 0, num_bytes: 0 }
    );
    // A final segment without a newline is still a line.
    let info = count("hi");
    assert_eq!(
        info,
        FileInfo { num_lines: 1, num_words: 1, num_chars: 2, num_bytes: 2 }
    );
    // Bytes count the UTF-8 encoding; chars count scalar values.
    let info = count("h\u{00e9}llo\n");
    assert_eq!(
        info,
        FileInfo { num_lines: 1, num_words: 1, num_chars: 6, num_bytes: 7 }
    );
    // A blank line is a line without words.
    let info = count("a\n\n");
    assert_eq!(
        info,
        FileInfo { num_lines: 2, num_words: 1, num_chars: 3, num_bytes: 3 }
    );
}

#[test]
fn test_format_field() {
    assert_eq!(format_field(1, true), "       1");
    assert_eq!(format_field(1, false), "");
    assert_eq!(format_field(10, true), "      10")
}

#[test]
fn format_field_wider_than_column() {
    assert_eq!(format_field(123456789, true), "123456789");
}

#[test]
fn test_parse_positive_int() {
    let res = parse_positive_int("3");
    assert!(res.is_ok());
    assert_eq!(res.unwrap(), 3);

    let res = parse_positive_int("foo");
    assert!(res.is_err());
    assert_eq!(res.unwrap_err().to_string(), "foo".to_string());

    let res = parse_positive_int("0");
    assert!(res.is_err());
    assert_eq!(res.unwrap_err().to_string(), "0".to_string());
}

#[test]
fn parse_positive_int_accepts_a_plus_sign() {
    assert_eq!(parse_positive_int("+3").unwrap(), 3);
    assert!(parse_positive_int("+").is_err());
    assert!(parse_positive_int("++3").is_err());
    assert!(parse_positive_int("").is_err());
    // 2^64 does not fit in usize here.
    assert!(parse_positive_int("18446744073709551616").is_err());
}

#[test]
fn format_count_pads_to_four_and_a_space() {
    assert_eq!(format_count(1, true), "   1 ");
    assert_eq!(format_count(1234, true), "1234 ");
    assert_eq!(format_count(12345, true), "12345 ");
    assert_eq!(format_count(7, false), "");
}

#[test]
fn print_content_prefixes_the_count_when_asked() {
    assert_eq!(print_content(4, true, "hello\n"), "   4 hello\n");
    assert_eq!(print_content(4, false, "hello\n"), "hello\n");
}

#[test]
fn to_decimal_gives_the_numeral() {
    assert_eq!(to_decimal(0), "0");
    assert_eq!(to_decimal(7), "7");
    assert_eq!(to_decimal(907), "907");
    assert_eq!(to_decimal(123456789), "123456789");
}

#[test]
fn lines_match_ignores_trailing_whitespace() {
    assert!(lines_match("line\n", "line\r\n"));
    assert!(lines_match("a  ", "a\t"));
    assert!(lines_match("", "\n"));
    assert!(!lines_match("a", "b"));
    assert!(!lines_match("a b", "ab"));
    assert!(!lines_match(" a", "a"));
}
