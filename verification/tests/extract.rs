use cutr::{extract, extract_bytes, extract_chars, extract_fields, split_fields, Extract};

#[test]
fn fields_extraction_boundary() {
    // One field in range.
    let out = extract_fields(b"a,b", b',', &vec![0..1]);
    assert_eq!(out, b"a".to_vec());
    // A range wider than the field count degrades to what is there.
    let out = extract_fields(b"a,b", b',', &vec![0..5]);
    assert_eq!(out, b"a,b".to_vec());
}

#[test]
fn fields_joined_with_delimiter_across_ranges() {
    let out = extract_fields(b"a,b,c,d", b',', &vec![0..1, 2..3]);
    assert_eq!(out, b"a,c".to_vec());
    let out = extract_fields(b"a,b,c,d", b',', &vec![2..4, 0..1]);
    assert_eq!(out, b"c,d,a".to_vec());
}

#[test]
fn consecutive_delimiters_give_empty_fields() {
    assert_eq!(
        split_fields(b"a,,c", b','),
        vec![b"a".to_vec(), b"".to_vec(), b"c".to_vec()]
    );
    assert_eq!(extract_fields(b"a,,c", b',', &vec![1..2]), b"".to_vec());
    assert_eq!(extract_fields(b"a,,c", b',', &vec![0..3]), b"a,,c".to_vec());
    // A line without the delimiter is one field.
    assert_eq!(split_fields(b"abc", b','), vec![b"abc".to_vec()]);
    // Even the empty line is one (empty) field.
    assert_eq!(split_fields(b"", b','), vec![b"".to_vec()]);
}

#[test]
fn fields_range_fully_outside_is_empty() {
    assert_eq!(extract_fields(b"a,b", b',', &vec![5..9]), b"".to_vec());
    // ... and contributes no delimiter next to a range that does emit.
    assert_eq!(extract_fields(b"a,b", b',', &vec![0..1, 5..9]), b"a".to_vec());
}

#[test]
fn bytes_extraction_beyond_line_is_empty() {
    let out = extract_bytes(b"abc", &vec![5..10]);
    assert_eq!(out, b"".to_vec());
}

#[test]
fn bytes_extraction_clips_and_concatenates() {
    assert_eq!(extract_bytes(b"hello", &vec![1..3]), b"el".to_vec());
    assert_eq!(extract_bytes(b"abc", &vec![1..10]), b"bc".to_vec());
    assert_eq!(extract_bytes(b"abcdefg", &vec![5..6, 0..1]), b"fa".to_vec());
    assert_eq!(extract_bytes(b"ab", &vec![0..1, 0..1]), b"aa".to_vec());
    assert_eq!(extract_bytes(b"ab", &vec![]), b"".to_vec());
}

#[test]
fn chars_extraction_keeps_multibyte_characters_whole() {
    // One multi-byte character, range over the first position: the whole
    // character comes out.
    let out = extract_chars("\u{00e9}", &vec![0..1]);
    assert_eq!(out, "\u{00e9}");
    // Positions count scalar values, not bytes.
    let out = extract_chars("h\u{00e9}llo", &vec![1..2]);
    assert_eq!(out, "\u{00e9}");
    let out = extract_chars("h\u{00e9}llo", &vec![0..3]);
    assert_eq!(out, "h\u{00e9}l");
}

#[test]
fn chars_extraction_orders_and_clips() {
    assert_eq!(extract_chars("abcdefg", &vec![5..6, 0..1]), "fa");
    assert_eq!(extract_chars("abc", &vec![5..10]), "");
    assert_eq!(extract_chars("abc", &vec![1..2, 1..2]), "bb");
}

#[test]
fn extract_dispatches_on_mode() {
    let out = extract("a,b,c", b',', &Extract::Fields(vec![0..1, 2..3]));
    assert_eq!(out, "a,c");
    let out = extract("hello", b',', &Extract::Bytes(vec![1..3]));
    assert_eq!(out, "el");
    let out = extract("h\u{00e9}llo", b',', &Extract::Chars(vec![1..2]));
    assert_eq!(out, "\u{00e9}");
}

#[test]
fn bytes_mode_shows_replacement_for_split_characters() {
    // Slicing one byte out of a two-byte character is not valid UTF-8;
    // the string form shows the replacement character.
    let out = extract("\u{00e9}", b',', &Extract::Bytes(vec![0..1]));
    assert_eq!(out, "\u{fffd}");
}
