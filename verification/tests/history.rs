use hooligan::history::{read_log, History};
use hooligan::transaction::{ParseError, ShowHideCount, ShowHideState, Transaction, Value};

fn log_lines(lines: &[&str]) -> Vec<Vec<u8>> {
    lines.iter().map(|line| line.as_bytes().to_vec()).collect()
}

fn replay(lines: &[&str]) -> History {
    let (history, errors) = read_log(&log_lines(lines)).expect("a short log");
    assert!(errors.is_empty());
    history
}

fn dump(history: &History) -> Vec<(Vec<u8>, ShowHideCount)> {
    (0..history.len())
        .map(|at| {
            let (key, known) = history.slot(at);
            (key.to_vec(), known)
        })
        .collect()
}

/// An empty log knows no identifier
#[test]
fn read_log_empty() {
    let (history, errors) = read_log(&Vec::new()).expect("a short log");
    assert!(errors.is_empty());
    assert_eq!(history.len(), 0);
    assert_eq!(history.get(b"usr_1"), None);
    assert_eq!(History::new().len(), 0);
}

/// A show by the user counts, a show by the tool does not
#[test]
fn read_log_counts_manual_shows_only() {
    let history = replay(&[
        "a MANUAL_SHOW",
        "a AUTO_RESET",
        "a AUTO_SHOW",
        "a AUTO_RESET",
        "a MANUAL_SHOW",
    ]);
    assert_eq!(history.get(b"a"), Some(ShowHideCount::new(2, ShowHideState::Shown)));
}

/// A hide or a reset by the user sets the count to zero
#[test]
fn read_log_resets_count() {
    let history = replay(&[
        "a MANUAL_SHOW",
        "a MANUAL_SHOW",
        "a MANUAL_HIDE",
        "b MANUAL_SHOW",
        "b MANUAL_SHOW",
        "b MANUAL_RESET",
        "c MANUAL_SHOW",
        "c MANUAL_HIDE",
        "c MANUAL_SHOW",
    ]);
    assert_eq!(history.get(b"a"), Some(ShowHideCount::new(0, ShowHideState::Hidden)));
    assert_eq!(history.get(b"b"), Some(ShowHideCount::new(0, ShowHideState::Default)));
    assert_eq!(history.get(b"c"), Some(ShowHideCount::new(1, ShowHideState::Shown)));
}

/// The first transaction of an identifier starts its count
#[test]
fn read_log_first_transaction() {
    let history = replay(&[
        "a AUTO_RESET",
        "b AUTO_SHOW",
        "c MANUAL_HIDE",
        "d MANUAL_RESET",
        "e MANUAL_SHOW",
    ]);
    assert_eq!(
        dump(&history),
        vec![
            (b"a".to_vec(), ShowHideCount::new(0, ShowHideState::Default)),
            (b"b".to_vec(), ShowHideCount::new(0, ShowHideState::Shown)),
            (b"c".to_vec(), ShowHideCount::new(0, ShowHideState::Hidden)),
            (b"d".to_vec(), ShowHideCount::new(0, ShowHideState::Default)),
            (b"e".to_vec(), ShowHideCount::new(1, ShowHideState::Shown)),
        ]
    );
}

/// Identifiers keep the order in which the log first names them
#[test]
fn read_log_keeps_first_seen_order() {
    let history =
        replay(&["b MANUAL_SHOW", "a MANUAL_SHOW", "b MANUAL_SHOW", "c MANUAL_HIDE", "a MANUAL_HIDE"]);
    let keys: Vec<Vec<u8>> = dump(&history).into_iter().map(|(key, _)| key).collect();
    assert_eq!(keys, vec![b"b".to_vec(), b"a".to_vec(), b"c".to_vec()]);
    assert_eq!(history.get(b"b"), Some(ShowHideCount::new(2, ShowHideState::Shown)));
    assert_eq!(history.get(b"a"), Some(ShowHideCount::new(0, ShowHideState::Hidden)));
}

/// The same log replayed twice gives the same history
#[test]
fn read_log_twice_is_the_same() {
    let lines = log_lines(&[
        "x MANUAL_SHOW",
        "y MANUAL_HIDE",
        "x AUTO_RESET",
        "z MANUAL_SHOW",
        "x AUTO_SHOW",
        "not a transaction",
        "y MANUAL_SHOW",
        "z MANUAL_RESET",
    ]);
    let (first, first_errors) = read_log(&lines).expect("a short log");
    let (second, second_errors) = read_log(&lines).expect("a short log");
    assert_eq!(dump(&first), dump(&second));
    assert_eq!(first_errors, second_errors);
    assert_eq!(first_errors.len(), 1);
    assert_eq!(first.len(), 3);
}

/// A line that cannot be read is passed over, and the lines behind it are replayed
#[test]
fn read_log_passes_over_what_it_cannot_read() {
    let (history, errors) =
        read_log(&log_lines(&["X MANUAL_SHOW", "garbage", "X MANUAL_SHOW"])).expect("a short log");
    assert_eq!(history.len(), 1);
    let known = history.get(b"X").expect("X is known");
    assert_eq!(known.count(), 2);
    assert!(known.is_shown());
    assert_eq!(errors, vec![ParseError::BadSplit(b"garbage".to_vec().into_boxed_slice())]);
}

/// The errors of the lines that cannot be read come back in the order of the log
#[test]
fn read_log_hands_back_every_error() {
    let (history, errors) = read_log(&log_lines(&[
        "broken",
        "a MANUAL_SHOW",
        "b NOPE",
        "",
        "a MANUAL_HIDE",
        "c MANUAL_SHOW extra",
    ]))
    .expect("a short log");
    assert_eq!(dump(&history), vec![(b"a".to_vec(), ShowHideCount::new(0, ShowHideState::Hidden))]);
    assert_eq!(
        errors,
        vec![
            ParseError::BadSplit(b"broken".to_vec().into_boxed_slice()),
            ParseError::UnknownValue(b"NOPE".to_vec().into_boxed_slice()),
            ParseError::BadSplit(b"".to_vec().into_boxed_slice()),
            ParseError::UnknownValue(b"MANUAL_SHOW extra".to_vec().into_boxed_slice()),
        ]
    );
}

/// A log without a line that can be read knows no identifier
#[test]
fn read_log_of_unreadable_lines_only() {
    let (history, errors) = read_log(&log_lines(&["one", "two"])).expect("a short log");
    assert_eq!(history.len(), 0);
    assert_eq!(errors.len(), 2);
}

/// Record does what replaying one more line does
#[test]
fn history_record() {
    let mut history = History::new();
    history.record(&Transaction::new(b"a".to_vec().into_boxed_slice(), Value::ManualShow));
    history.record(&Transaction::new(b"b".to_vec().into_boxed_slice(), Value::ManualHide));
    history.record(&Transaction::new(b"a".to_vec().into_boxed_slice(), Value::ManualShow));
    assert_eq!(
        dump(&history),
        vec![
            (b"a".to_vec(), ShowHideCount::new(2, ShowHideState::Shown)),
            (b"b".to_vec(), ShowHideCount::new(0, ShowHideState::Hidden)),
        ]
    );
}

/// Remove hands back what was known and keeps the others in their order
#[test]
fn history_remove() {
    let mut history =
        replay(&["a MANUAL_SHOW", "b MANUAL_HIDE", "c MANUAL_SHOW", "c MANUAL_SHOW"]);
    assert_eq!(history.remove(b"b"), Some(ShowHideCount::new(0, ShowHideState::Hidden)));
    assert_eq!(history.remove(b"b"), None);
    assert_eq!(history.remove(b"zz"), None);
    assert_eq!(
        dump(&history),
        vec![
            (b"a".to_vec(), ShowHideCount::new(1, ShowHideState::Shown)),
            (b"c".to_vec(), ShowHideCount::new(2, ShowHideState::Shown)),
        ]
    );
    assert_eq!(history.get(b"a"), Some(ShowHideCount::new(1, ShowHideState::Shown)));
}

/// Keys are told apart to the byte
#[test]
fn history_keys_are_exact() {
    let history = replay(&["ab MANUAL_SHOW", "a MANUAL_HIDE", "AB MANUAL_SHOW"]);
    assert_eq!(history.len(), 3);
    assert_eq!(history.get(b"a"), Some(ShowHideCount::new(0, ShowHideState::Hidden)));
    assert_eq!(history.get(b"ab"), Some(ShowHideCount::new(1, ShowHideState::Shown)));
    assert_eq!(history.get(b"abc"), None);
}
