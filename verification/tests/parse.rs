use cutr::{parse_index, parse_pos, parse_to_int, ParseError};

#[test]
fn test_parse_pos() {
    // The empty string is an error
    assert!(parse_pos("").is_err());
    // Zero is an error
    assert!(parse_pos("0").is_err());

    // All the following are acceptable
    let res = parse_pos("1");
    assert!(res.is_ok());
    assert_eq!(res.unwrap(), vec![0..1]);
    let res = parse_pos("01");
    assert!(res.is_ok());
    assert_eq!(res.unwrap(), vec![0..1]);
    let res = parse_pos("1,3");
    assert!(res.is_ok());
    assert_eq!(res.unwrap(), vec![0..1, 2..3]);
    let res = parse_pos("001,0003");
    assert!(res.is_ok());
    assert_eq!(res.unwrap(), vec![0..1, 2..3]);
    let res = parse_pos("1-3");
    assert!(res.is_ok());
    assert_eq!(res.unwrap(), vec![0..3]);

    let res = parse_pos("0001-03");
    assert!(res.is_ok());
    assert_eq!(res.unwrap(), vec![0..3]);
    let res = parse_pos("1,7,3-5");
    assert!(res.is_ok());
    assert_eq!(res.unwrap(), vec![0..1, 6..7, 2..5]);
    let res = parse_pos("15,19-20");
    assert!(res.is_ok());
    assert_eq!(res.unwrap(), vec![14..15, 18..20]);
}

#[test]
fn zero_and_plus_are_invalid_index() {
    match parse_pos("0") {
        Err(ParseError::InvalidIndex(t)) => assert_eq!(t, "0"),
        other => panic!("expected InvalidIndex, got {:?}", other),
    }
    match parse_pos("+1") {
        Err(ParseError::InvalidIndex(t)) => assert_eq!(t, "+1"),
        other => panic!("expected InvalidIndex, got {:?}", other),
    }
    match parse_pos("1,+2") {
        Err(ParseError::InvalidIndex(t)) => assert_eq!(t, "+2"),
        other => panic!("expected InvalidIndex, got {:?}", other),
    }
}

#[test]
fn backwards_pair_is_invalid_range() {
    match parse_pos("3-1") {
        Err(ParseError::InvalidRange(a, b)) => {
            assert_eq!(a, 3);
            assert_eq!(b, 1);
        }
        other => panic!("expected InvalidRange, got {:?}", other),
    }
    // Equal endpoints are in order.
    assert_eq!(parse_pos("2-2").unwrap(), vec![1..2]);
}

#[test]
fn malformed_tokens_are_invalid_syntax() {
    match parse_pos("") {
        Err(ParseError::InvalidSyntax(t)) => assert_eq!(t, ""),
        other => panic!("expected InvalidSyntax, got {:?}", other),
    }
    match parse_pos("a") {
        Err(ParseError::InvalidSyntax(t)) => assert_eq!(t, "a"),
        other => panic!("expected InvalidSyntax, got {:?}", other),
    }
    match parse_pos("1-2-3") {
        Err(ParseError::InvalidSyntax(t)) => assert_eq!(t, "1-2-3"),
        other => panic!("expected InvalidSyntax, got {:?}", other),
    }
    match parse_pos("1,") {
        Err(ParseError::InvalidSyntax(t)) => assert_eq!(t, ""),
        other => panic!("expected InvalidSyntax, got {:?}", other),
    }
    match parse_pos("1,2x") {
        Err(ParseError::InvalidSyntax(t)) => assert_eq!(t, "2x"),
        other => panic!("expected InvalidSyntax, got {:?}", other),
    }
}

#[test]
fn index_beyond_machine_size_is_invalid_index() {
    // 2^64: too large for usize on any machine this runs on.
    match parse_pos("18446744073709551616") {
        Err(ParseError::InvalidIndex(t)) => assert_eq!(t, "18446744073709551616"),
        other => panic!("expected InvalidIndex, got {:?}", other),
    }
}

#[test]
fn duplicates_and_overlaps_are_kept_in_order() {
    assert_eq!(parse_pos("1,1").unwrap(), vec![0..1, 0..1]);
    assert_eq!(parse_pos("2-4,3-5").unwrap(), vec![1..4, 2..5]);
    assert_eq!(parse_pos("5,1-3").unwrap(), vec![4..5, 0..3]);
}

#[test]
fn reparsing_gives_identical_ranges() {
    let first = parse_pos("1,7,3-5").unwrap();
    let second = parse_pos("1,7,3-5").unwrap();
    assert_eq!(first, second);
}

#[test]
fn parse_index_is_zero_based() {
    assert_eq!(parse_index("1").unwrap(), 0);
    assert_eq!(parse_index("15").unwrap(), 14);
    assert!(parse_index("+1").is_err());
    assert!(parse_index("0").is_err());
    assert!(parse_index("").is_err());
}

#[test]
fn parse_to_int_is_one_based() {
    assert_eq!(parse_to_int("3", "3-5").unwrap(), 3);
    assert_eq!(parse_to_int("0003", "x").unwrap(), 3);
    match parse_to_int("y", "x-y") {
        Err(ParseError::InvalidSyntax(t)) => assert_eq!(t, "x-y"),
        other => panic!("expected InvalidSyntax, got {:?}", other),
    }
    match parse_to_int("0", "0-2") {
        Err(ParseError::InvalidIndex(t)) => assert_eq!(t, "0"),
        other => panic!("expected InvalidIndex, got {:?}", other),
    }
}
