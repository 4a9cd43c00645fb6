use hooligan::text::{chars_of, ends_with, first_char, push_str, same_text, starts_with, to_decimal, to_digit};

fn chars(text: &str) -> Vec<char> {
    text.chars().collect()
}

/// The characters of a text, in their order
#[test]
fn chars_of_text() {
    assert_eq!(chars_of("a=b"), vec!['a', '=', 'b']);
    assert_eq!(chars_of("gr\u{fc}n"), vec!['g', 'r', '\u{fc}', 'n']);
    assert_eq!(chars_of(""), Vec::<char>::new());
}

/// The first place of a character is found
#[test]
fn first_char_of_text() {
    assert_eq!(first_char(&chars("a=b=c"), '='), Some(1));
    assert_eq!(first_char(&chars("=b"), '='), Some(0));
    assert_eq!(first_char(&chars("abc"), '='), None);
    assert_eq!(first_char(&chars("\u{fc}="), '='), Some(1));
}

/// Texts are the same if they are so to the character
#[test]
fn same_text_compares() {
    assert!(same_text("abc", "abc"));
    assert!(same_text("", ""));
    assert!(!same_text("abc", "abd"));
    assert!(!same_text("abc", "abcd"));
}

/// A number is written in decimal digits, without zeros before it
#[test]
fn to_decimal_writes_digits() {
    assert_eq!(to_decimal(0), chars("0"));
    assert_eq!(to_decimal(7), chars("7"));
    assert_eq!(to_decimal(10), chars("10"));
    assert_eq!(to_decimal(1203), chars("1203"));
    assert_eq!(to_decimal(4294967295), chars("4294967295"));
    assert_eq!(to_digit(0), '0');
    assert_eq!(to_digit(9), '9');
}

/// A start and an end are found where they are
#[test]
fn starts_and_ends() {
    assert!(starts_with(&chars("hooligan.1.log"), &chars("hooligan.")));
    assert!(starts_with(&chars("abc"), &chars("")));
    assert!(!starts_with(&chars("abc"), &chars("abcd")));
    assert!(!starts_with(&chars("abc"), &chars("b")));
    assert!(ends_with(&chars("hooligan.1.log"), &chars(".log")));
    assert!(ends_with(&chars("abc"), &chars("")));
    assert!(!ends_with(&chars("abc"), &chars("zabc")));
    assert!(!ends_with(&chars("abc"), &chars("b")));
}

/// Characters go to the end
#[test]
fn push_str_appends() {
    let mut text = chars("ab");
    push_str(&mut text, "cd");
    push_str(&mut text, "");
    assert_eq!(text, chars("abcd"));
}
