use hooligan::config::Config;
use hooligan::history::{read_log, History};
use hooligan::local_player_moderations::{Line, Value};
use hooligan::rewrite::{fits_in_place, rewrite_list, write_line, write_lines, write_log};
use hooligan::transaction::{Transaction, Value as Event};

const X: &str = "usr_6b683acd-31a6-495d-aa46-a73c1349f462";
const Y: &str = "usr_11111111-2222-3333-4444-555555555555";

fn lines_of(lines: &[String]) -> Vec<Vec<u8>> {
    lines.iter().map(|line| line.as_bytes().to_vec()).collect()
}

fn replayed(lines: &[String]) -> History {
    let (history, errors) = read_log(&lines_of(lines)).unwrap();
    assert!(errors.is_empty());
    history
}

fn shown(key: &str) -> String {
    format!("{key:<64}005")
}

fn hidden(key: &str) -> String {
    format!("{key:<64}004")
}

fn with_threshold(threshold: u32) -> Config {
    Config { auto_hide_threshold: threshold }
}

/// An empty log and one shown entry, threshold 3: the entry goes, and the log gains a show and a reset
#[test]
fn first_show_is_removed() {
    let done = rewrite_list(&with_threshold(3), replayed(&[]), &lines_of(&[shown(X)]));
    assert_eq!(done.kept, b"");
    assert_eq!(done.added, b"");
    assert_eq!(done.log, format!("{X} MANUAL_SHOW\n{X} AUTO_RESET\n").as_bytes());
    assert_eq!(done.removed, 1);
    assert_eq!(done.retained, 0);
    assert_eq!(done.shown, 0);
    assert_eq!(done.transactions, 2);
}

/// An empty log and one shown entry, threshold 1: the first show is enough, and the entry stays
#[test]
fn first_show_at_threshold_one_is_retained() {
    let list = [b"X".as_slice(), &[b' '; 63], b"005\r\n"].concat();
    let lines = vec![list[..list.len() - 2].to_vec()];
    let done = rewrite_list(&with_threshold(1), replayed(&[]), &lines);
    assert_eq!(done.kept, list);
    assert_eq!(done.added, b"");
    assert_eq!(done.log, b"X MANUAL_SHOW\n");
    assert_eq!(done.removed, 0);
    assert_eq!(done.retained, 1);
    assert_eq!(done.transactions, 1);
}

/// A run right after a run that kept a first show changes nothing
#[test]
fn second_run_changes_nothing() {
    for threshold in [1, 2, 3] {
        let mut log: Vec<String> = vec![format!("{Y} MANUAL_SHOW"), format!("{Y} MANUAL_SHOW")];
        let mut list: Vec<String> = vec![shown(X), shown(Y), hidden("other"), "garbage".to_string()];
        for run in 0..3 {
            let done = rewrite_list(&with_threshold(threshold), replayed(&log), &lines_of(&list));
            let mut content = done.kept.clone();
            content.extend_from_slice(&done.added);
            let text = String::from_utf8(content).unwrap();
            let after: Vec<String> =
                text.split("\r\n").filter(|line| !line.is_empty()).map(str::to_string).collect();
            if run > 0 {
                assert_eq!(after, list);
                assert_eq!(done.log, b"");
                assert_eq!(done.removed, 0);
                assert_eq!(done.shown, 0);
            }
            list = after;
            log.extend(String::from_utf8(done.log).unwrap().lines().map(str::to_string));
        }
    }
}

/// Shown with count 2 in the log, still shown in the list, threshold 3: the entry goes
#[test]
fn known_show_below_threshold_is_removed() {
    let log = [format!("{X} MANUAL_SHOW"), format!("{X} AUTO_RESET"), format!("{X} MANUAL_SHOW")];
    let done = rewrite_list(&with_threshold(3), replayed(&log), &lines_of(&[shown(X)]));
    assert_eq!(done.kept, b"");
    assert_eq!(done.log, format!("{X} AUTO_RESET\n").as_bytes());
    assert_eq!(done.removed, 1);
    assert_eq!(done.retained, 0);
    assert_eq!(done.transactions, 1);
}

/// Shown with count 2 in the log, still shown in the list, threshold 2: the entry stays
#[test]
fn known_show_at_threshold_is_retained() {
    let log = [format!("{X} MANUAL_SHOW"), format!("{X} AUTO_RESET"), format!("{X} MANUAL_SHOW")];
    let done = rewrite_list(&with_threshold(2), replayed(&log), &lines_of(&[shown(X)]));
    assert_eq!(done.kept, format!("{}\r\n", shown(X)).as_bytes());
    assert_eq!(done.added, b"");
    assert_eq!(done.log, b"");
    assert_eq!(done.removed, 0);
    assert_eq!(done.retained, 1);
    assert_eq!(done.transactions, 0);
}

/// Shown with count 5 in the log, no line in the list, threshold 3: a reset by the user
#[test]
fn missing_shown_entry_is_a_manual_reset() {
    let log: Vec<String> = (0..5).map(|_| format!("{Y} MANUAL_SHOW")).collect();
    let done = rewrite_list(&with_threshold(3), replayed(&log), &lines_of(&[]));
    assert_eq!(done.kept, b"");
    assert_eq!(done.added, b"");
    assert_eq!(done.log, format!("{Y} MANUAL_RESET\n").as_bytes());
    assert_eq!(done.shown, 0);
    assert_eq!(done.transactions, 1);
}

/// Count 5 in the log and at its default, no line in the list: it comes back if the threshold lets it
#[test]
fn missing_default_entry_comes_back() {
    let mut log: Vec<String> = (0..5).map(|_| format!("{Y} MANUAL_SHOW")).collect();
    log.push(format!("{Y} AUTO_RESET"));
    let done = rewrite_list(&with_threshold(3), replayed(&log), &lines_of(&[]));
    assert_eq!(done.kept, b"");
    assert_eq!(done.added, format!("{}\r\n", shown(Y)).as_bytes());
    assert_eq!(done.log, format!("{Y} AUTO_SHOW\n").as_bytes());
    assert_eq!(done.shown, 1);

    let done = rewrite_list(&with_threshold(6), replayed(&log), &lines_of(&[]));
    assert_eq!(done.added, b"");
    assert_eq!(done.log, b"");
    assert_eq!(done.shown, 0);
}

/// A line that cannot be read is written back as it was
#[test]
fn rewrite_keeps_what_it_cannot_read() {
    let broken: [&[u8]; 5] = [b"2ZaOGztkpc", b"", b"a b c", b"abc 009", b"\xff\xfe binary \x00"];
    for raw in broken {
        for threshold in [0, 3] {
            let log = [format!("{X} MANUAL_SHOW"), format!("{Y} MANUAL_HIDE")];
            let done = rewrite_list(&with_threshold(threshold), replayed(&log), &vec![raw.to_vec()]);
            let mut expected = raw.to_vec();
            expected.extend_from_slice(b"\r\n");
            assert_eq!(done.kept, expected);
            assert_eq!(done.removed, 0);
            assert_eq!(done.retained, 0);
        }
    }
}

/// Lines that stay keep their order, and a removed line leaves no byte
#[test]
fn rewrite_keeps_the_order() {
    let log = [format!("{X} MANUAL_SHOW"), format!("{X} MANUAL_SHOW"), format!("{Y} MANUAL_HIDE")];
    let list = [hidden(Y), "garbage".to_string(), shown("new"), shown(X), hidden("other")];
    let done = rewrite_list(&with_threshold(2), replayed(&log), &lines_of(&list));
    let expected = format!("{}\r\ngarbage\r\n{}\r\n{}\r\n", hidden(Y), shown(X), hidden("other"));
    assert_eq!(done.kept, expected.as_bytes());
    assert_eq!(done.log, b"new MANUAL_SHOW\nnew AUTO_RESET\nother MANUAL_HIDE\n");
    assert_eq!(done.removed, 1);
    assert_eq!(done.retained, 1);
    assert_eq!(done.shown, 0);
    assert_eq!(done.transactions, 3);
}

/// A line is written anew: its padding is set right
#[test]
fn rewrite_pads_anew() {
    let done = rewrite_list(&with_threshold(0), replayed(&[]), &lines_of(&["abc 004".to_string()]));
    assert_eq!(done.kept, format!("{}\r\n", hidden("abc")).as_bytes());
}

/// A list as it would be written never grows when it is rewritten
#[test]
fn rewrite_never_outgrows_what_was_read() {
    let log = [format!("{X} MANUAL_SHOW"), format!("{X} MANUAL_SHOW"), format!("{Y} MANUAL_HIDE")];
    let list = [hidden(Y), "garbage".to_string(), shown("new"), shown(X), hidden("other")];
    for threshold in 0..4 {
        for upto in 0..=list.len() {
            let read: usize = list[..upto].iter().map(|line| line.len() + 2).sum();
            let done = rewrite_list(&with_threshold(threshold), replayed(&log), &lines_of(&list[..upto]));
            assert!(done.kept.len() <= read);
        }
    }
}

/// Write_line writes a line anew and a broken line as it was
#[test]
fn write_line_both_ways() {
    let mut buf = Vec::new();
    let written = write_line(&Line::parse(b"abc 005"), &mut buf);
    assert_eq!(written, 69);
    let written = write_line(&Line::parse(b"abc 00"), &mut buf);
    assert_eq!(written, 8);
    assert_eq!(buf, format!("{}\r\nabc 00\r\n", shown("abc")).as_bytes());
}

/// Write_lines writes each line and says how many bytes that were
#[test]
fn write_lines_in_order() {
    let lines = vec![
        Line::new(b"a".to_vec().into_boxed_slice(), Value::Show),
        Line::new(b"b".to_vec().into_boxed_slice(), Value::Hide),
    ];
    let mut buf = b"-".to_vec();
    let size = write_lines(&lines, &mut buf);
    assert_eq!(size, 138);
    assert_eq!(buf, format!("-{}\r\n{}\r\n", shown("a"), hidden("b")).as_bytes());
    assert_eq!(write_lines(&Vec::new(), &mut buf), 0);
}

/// Write_log writes each transaction on a line of its own
#[test]
fn write_log_in_order() {
    let transactions = vec![
        Transaction::new(b"a".to_vec().into_boxed_slice(), Event::ManualShow),
        Transaction::new(b"b".to_vec().into_boxed_slice(), Event::AutoReset),
    ];
    let mut buf = b"old AUTO_SHOW\n".to_vec();
    write_log(&transactions, &mut buf);
    assert_eq!(buf, b"old AUTO_SHOW\na MANUAL_SHOW\nb AUTO_RESET\n");
}

/// The log of one run, replayed, agrees with the list that the run left
#[test]
fn log_follows_the_list() {
    let mut log: Vec<String> = Vec::new();
    let mut list: Vec<String> = vec![shown(X), hidden(Y)];
    for (threshold, expected) in [(2u32, vec![hidden(Y)]), (2, vec![hidden(Y)]), (1, vec![hidden(Y), shown(X)])] {
        let done = rewrite_list(&with_threshold(threshold), replayed(&log), &lines_of(&list));
        let mut content = done.kept.clone();
        content.extend_from_slice(&done.added);
        let text = String::from_utf8(content).unwrap();
        list = text.split("\r\n").filter(|line| !line.is_empty()).map(str::to_string).collect();
        assert_eq!(list, expected);
        let added = String::from_utf8(done.log).unwrap();
        log.extend(added.lines().map(str::to_string));
    }
    assert_eq!(
        log,
        vec![
            format!("{X} MANUAL_SHOW"),
            format!("{X} AUTO_RESET"),
            format!("{Y} MANUAL_HIDE"),
            format!("{X} AUTO_SHOW"),
        ]
    );
}

/// A line fits in its place if it is written with no more bytes than it was read with
#[test]
fn fits_in_place_compares_lengths() {
    let cases: [(&[u8], bool); 8] = [
        (b"abc 004", false),
        (b"2ZaOGztkpc                                                      005", true),
        (b"2ZaOGztkpc                                                     005", false),
        (b"2ZaOGztkpc                                                       005", true),
        (b"usr_6b683acd-31a6-495d-aa46-a73c1349f462-6b683acd-31a6-495d-aa46-a73c1349f462 005", true),
        (b"usr_6b683acd-31a6-495d-aa46-a73c1349f462-6b683acd-31a6-495d-aa4 005", true),
        (b"garbage", true),
        (b"", true),
    ];
    for (raw, expected) in cases {
        let line = Line::parse(raw);
        assert_eq!(fits_in_place(raw, &line), expected);
        let mut buf = Vec::new();
        let written = write_line(&line, &mut buf);
        assert_eq!(written <= raw.len() + 2, expected);
    }
}

/// With a threshold of zero, an identifier whose line someone took out comes back a run later
#[test]
fn second_run_at_threshold_zero_brings_back() {
    let mut log: Vec<String> = vec![format!("{Y} MANUAL_HIDE")];
    let done = rewrite_list(&with_threshold(0), replayed(&log), &lines_of(&[]));
    assert_eq!(done.added, b"");
    assert_eq!(done.log, format!("{Y} MANUAL_RESET\n").as_bytes());
    log.push(format!("{Y} MANUAL_RESET"));
    let done = rewrite_list(&with_threshold(0), replayed(&log), &lines_of(&[]));
    assert_eq!(done.added, format!("{}\r\n", shown(Y)).as_bytes());
    assert_eq!(done.log, format!("{Y} AUTO_SHOW\n").as_bytes());
}
