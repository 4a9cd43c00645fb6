use hooligan::scan::{append, append_spaces, bytes_eq, first_index, is_blank, last_index, to_boxed};

/// The first and the last index of a byte are found
#[test]
fn first_and_last_index() {
    assert_eq!(first_index(b"foo bar baz", b' '), Some(3));
    assert_eq!(last_index(b"foo bar baz", b' '), Some(7));
    assert_eq!(first_index(b"foo bar baz", b'z'), Some(10));
    assert_eq!(last_index(b"foo bar baz", b'f'), Some(0));
    assert_eq!(first_index(b"foo bar baz", b'y'), None);
    assert_eq!(last_index(b"foo bar baz", b'y'), None);
    assert_eq!(first_index(b"", b' '), None);
}

/// A copy holds the same bytes
#[test]
fn to_boxed_copies() {
    assert_eq!(&*to_boxed(b"abc"), b"abc");
    assert_eq!(&*to_boxed(b""), b"");
}

/// Byte strings are the same if they are so to the byte
#[test]
fn bytes_eq_compares() {
    assert!(bytes_eq(b"abc", b"abc"));
    assert!(bytes_eq(b"", b""));
    assert!(!bytes_eq(b"abc", b"abd"));
    assert!(!bytes_eq(b"abc", b"ab"));
    assert!(!bytes_eq(b"ab", b"abc"));
}

/// A range is blank if it holds spaces only
#[test]
fn is_blank_checks_the_range() {
    assert!(is_blank(b"a   b", 1, 4));
    assert!(is_blank(b"a   b", 2, 2));
    assert!(!is_blank(b"a   b", 0, 4));
    assert!(!is_blank(b"a \t b", 1, 4));
}

/// Bytes and spaces go to the end of the buffer
#[test]
fn append_to_buffer() {
    let mut buf = b"ab".to_vec();
    assert_eq!(append(&mut buf, b"cd"), 2);
    assert_eq!(append_spaces(&mut buf, 3), 3);
    assert_eq!(append_spaces(&mut buf, 0), 0);
    assert_eq!(buf, b"abcd   ");
}

/// An end is found where it is
#[test]
fn bytes_end_with() {
    assert!(hooligan::scan::ends_with(b"list.vrcset", b".vrcset"));
    assert!(hooligan::scan::ends_with(b"abc", b""));
    assert!(!hooligan::scan::ends_with(b"abc", b"xabc"));
    assert!(!hooligan::scan::ends_with(b"abc", b"ab"));
}
