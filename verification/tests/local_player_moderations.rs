use hooligan::local_player_moderations::{Line, ParseError, ParseErrorType, Value};

/// Test a normal line with a hidden user
#[test]
fn test_line_hide() {
    let actual = Line::parse(b"usr_6b683acd-31a6-495d-aa46-a73c1349f462                        004").unwrap();
    let expected = Line::new(
        b"usr_6b683acd-31a6-495d-aa46-a73c1349f462".to_vec().into_boxed_slice(),
        Value::Hide,
    );
    assert_eq!(actual, expected);

    let mut buf = Vec::new();
    actual.serialize(&mut buf);
    let expected = b"usr_6b683acd-31a6-495d-aa46-a73c1349f462                        004\r\n";
    assert_eq!(buf, expected);
}

/// Test a normal line with a shown user
#[test]
fn test_line_show() {
    let actual = Line::parse(b"usr_6b683acd-31a6-495d-aa46-a73c1349f462                        005").unwrap();
    let expected = Line::new(
        b"usr_6b683acd-31a6-495d-aa46-a73c1349f462".to_vec().into_boxed_slice(),
        Value::Show,
    );
    assert_eq!(actual, expected);

    let mut buf = Vec::new();
    actual.serialize(&mut buf);
    let expected = b"usr_6b683acd-31a6-495d-aa46-a73c1349f462                        005\r\n";
    assert_eq!(buf, expected);
}

/// Test an abnormally long line with 77 char key. It should get 1 space of padding.
#[test]
fn test_abnormally_long_line_1() {
    // 77 char long key
    let actual =
        Line::parse(b"usr_6b683acd-31a6-495d-aa46-a73c1349f462-6b683acd-31a6-495d-aa46-a73c1349f462 005").unwrap();
    let expected = Line::new(
        b"usr_6b683acd-31a6-495d-aa46-a73c1349f462-6b683acd-31a6-495d-aa46-a73c1349f462"
            .to_vec()
            .into_boxed_slice(),
        Value::Show,
    );
    assert_eq!(actual, expected);

    let mut buf = Vec::new();
    actual.serialize(&mut buf);
    let expected = b"usr_6b683acd-31a6-495d-aa46-a73c1349f462-6b683acd-31a6-495d-aa46-a73c1349f462 005\r\n";
    assert_eq!(buf, expected);
}

/// Test an abnormally long line with 64 char key. It should get 1 space of padding.
#[test]
fn test_abnormally_long_line_2() {
    let actual = Line::parse(b"usr_6b683acd-31a6-495d-aa46-a73c1349f462-6b683acd-31a6-495d-aa46 005").unwrap();
    let expected = Line::new(
        b"usr_6b683acd-31a6-495d-aa46-a73c1349f462-6b683acd-31a6-495d-aa46"
            .to_vec()
            .into_boxed_slice(),
        Value::Show,
    );
    assert_eq!(actual, expected);

    let mut buf = Vec::new();
    actual.serialize(&mut buf);
    let expected = b"usr_6b683acd-31a6-495d-aa46-a73c1349f462-6b683acd-31a6-495d-aa46 005\r\n";
    assert_eq!(buf, expected);
}

/// Test an abnormally long line with 63 char key. It should get 1 space of padding.
#[test]
fn test_abnormally_long_line_3() {
    let actual = Line::parse(b"usr_6b683acd-31a6-495d-aa46-a73c1349f462-6b683acd-31a6-495d-aa4 005").unwrap();
    let expected = Line::new(
        b"usr_6b683acd-31a6-495d-aa46-a73c1349f462-6b683acd-31a6-495d-aa4"
            .to_vec()
            .into_boxed_slice(),
        Value::Show,
    );
    assert_eq!(actual, expected);

    let mut buf = Vec::new();
    actual.serialize(&mut buf);
    let expected = b"usr_6b683acd-31a6-495d-aa46-a73c1349f462-6b683acd-31a6-495d-aa4 005\r\n";
    assert_eq!(buf, expected);
}

/// Test a line with an unusual key. Such identifiers occur, and they do not match the usual 40-char pattern.
#[test]
fn test_line_weird() {
    let actual = Line::parse(b"2ZaOGztkpc                                                      005").unwrap();
    let expected = Line::new(b"2ZaOGztkpc".to_vec().into_boxed_slice(), Value::Show);
    assert_eq!(actual, expected);

    let mut buf = Vec::new();
    actual.serialize(&mut buf);
    let expected = b"2ZaOGztkpc                                                      005\r\n";
    assert_eq!(buf, expected);
}

/// Test a line with an undocumented value
#[test]
fn test_line_unknown_value() {
    let actual = Line::parse(b"2ZaOGztkpc                                                      009").unwrap_err();
    let expected =
        ParseError::unknown_value(b"2ZaOGztkpc                                                      009");
    assert_eq!(actual, expected);

    let mut buf = Vec::new();
    actual.serialize(&mut buf);
    let expected = b"2ZaOGztkpc                                                      009\r\n";
    assert_eq!(buf, expected);
}

/// Test a malformed line with no second field
#[test]
fn test_line_bad_split_not_enough() {
    let actual = Line::parse(b"2ZaOGztkpc").unwrap_err();
    let expected = ParseError::bad_split(b"2ZaOGztkpc");
    assert_eq!(actual, expected);

    let mut buf = Vec::new();
    actual.serialize(&mut buf);
    let expected = b"2ZaOGztkpc\r\n";
    assert_eq!(buf, expected);
}

/// Test a malformed line with a third field
#[test]
fn test_line_bad_split_too_many() {
    let actual =
        Line::parse(b"2ZaOGztkpc                                                      foo bar").unwrap_err();
    let expected =
        ParseError::bad_split(b"2ZaOGztkpc                                                      foo bar");
    assert_eq!(actual, expected);

    let mut buf = Vec::new();
    actual.serialize(&mut buf);
    let expected = b"2ZaOGztkpc                                                      foo bar\r\n";
    assert_eq!(buf, expected);
}

/// Both accessors hand back what the line was made of
#[test]
fn line_accessors() {
    let line = Line::new(b"abc".to_vec().into_boxed_slice(), Value::Hide);
    assert_eq!(line.key(), b"abc");
    assert_eq!(*line.value(), Value::Hide);
}

/// A parse error keeps the line and says what is wrong with it
#[test]
fn parse_error_accessors() {
    let error = Line::parse(b"abc 123").unwrap_err();
    assert_eq!(error.raw_line(), b"abc 123");
    assert_eq!(error.error_type(), ParseErrorType::UnknownValue);
    let error = Line::parse(b"abc").unwrap_err();
    assert_eq!(error.error_type(), ParseErrorType::BadSplit);
}

/// A line needs two fields that are not empty
#[test]
fn line_empty_fields() {
    assert_eq!(Line::parse(b" 005").unwrap_err(), ParseError::bad_split(b" 005"));
    assert_eq!(Line::parse(b"abc ").unwrap_err(), ParseError::bad_split(b"abc "));
    assert_eq!(Line::parse(b" ").unwrap_err(), ParseError::bad_split(b" "));
    assert_eq!(Line::parse(b"").unwrap_err(), ParseError::bad_split(b""));
    assert_eq!(Line::parse(b"  005").unwrap_err(), ParseError::bad_split(b"  005"));
}

/// Fields may be separated by any number of spaces, and by spaces only
#[test]
fn line_separators() {
    let expected = Line::new(b"abc".to_vec().into_boxed_slice(), Value::Hide);
    assert_eq!(Line::parse(b"abc 004").unwrap(), expected);
    assert_eq!(Line::parse(b"abc   004").unwrap(), expected);
    assert_eq!(Line::parse(b"abc\t004").unwrap_err(), ParseError::bad_split(b"abc\t004"));
    assert_eq!(Line::parse(b"a b 004").unwrap_err(), ParseError::bad_split(b"a b 004"));
}

/// A status code is one of two, to the byte
#[test]
fn line_status_codes() {
    assert_eq!(*Line::parse(b"abc 004").unwrap().value(), Value::Hide);
    assert_eq!(*Line::parse(b"abc 005").unwrap().value(), Value::Show);
    assert_eq!(Line::parse(b"abc 0041").unwrap_err(), ParseError::unknown_value(b"abc 0041"));
    assert_eq!(Line::parse(b"abc 04").unwrap_err(), ParseError::unknown_value(b"abc 04"));
    assert_eq!(Line::parse(b"abc 006").unwrap_err(), ParseError::unknown_value(b"abc 006"));
}

/// A line that was written reads back as the same line
#[test]
fn line_round_trip() {
    let keys: [&[u8]; 5] = [
        b"a",
        b"usr_6b683acd-31a6-495d-aa46-a73c1349f462",
        &[b'x'; 62],
        &[b'x'; 63],
        &[b'x'; 200],
    ];
    for key in keys {
        for value in [Value::Hide, Value::Show] {
            let line = Line::new(key.to_vec().into_boxed_slice(), value);
            let mut buf = Vec::new();
            let written = line.serialize(&mut buf);
            assert_eq!(written, buf.len());
            assert!(buf.ends_with(b"\r\n"));
            let read = Line::parse(&buf[..buf.len() - 2]).unwrap();
            assert_eq!(read, line);
        }
    }
}

/// The written line is as long as the key or 63 bytes, a space, the code and the line end
#[test]
fn line_padding() {
    for (key_len, expected) in [(1usize, 69usize), (10, 69), (62, 69), (63, 69), (64, 70), (77, 83)] {
        let key = vec![b'k'; key_len];
        let line = Line::new(key.into_boxed_slice(), Value::Show);
        let mut buf = Vec::new();
        let written = line.serialize(&mut buf);
        assert_eq!(written, expected);
        assert_eq!(buf.len(), expected);
        assert_eq!(buf[key_len], b' ');
        assert_eq!(&buf[buf.len() - 5..], b"005\r\n");
    }
}

/// What is written goes behind what the buffer held before
#[test]
fn line_serialize_appends() {
    let line = Line::new(b"abc".to_vec().into_boxed_slice(), Value::Hide);
    let mut buf = b"before".to_vec();
    let written = line.serialize(&mut buf);
    assert_eq!(written, 69);
    assert!(buf.starts_with(b"beforeabc "));
    assert_eq!(buf.len(), 6 + 69);
}
