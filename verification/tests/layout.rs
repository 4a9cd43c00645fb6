use hooligan::layout::{is_list_file_name, transaction_log_filename};

/// A list file is one whose name ends in .vrcset
#[test]
fn list_file_names() {
    assert!(is_list_file_name(b"usr_6b683acd-31a6-495d-aa46-a73c1349f462-show-hide-user.vrcset"));
    assert!(is_list_file_name(b".vrcset"));
    assert!(!is_list_file_name(b"vrcset"));
    assert!(!is_list_file_name(b"list.vrcset.bak"));
    assert!(!is_list_file_name(b"list.VRCSET"));
    assert!(!is_list_file_name(b""));
}

/// The log of a list is named by the list's name up to its first dot
#[test]
fn transaction_log_filenames() {
    assert_eq!(transaction_log_filename("usr_1.vrcset"), Some("usr_1.history".to_string()));
    assert_eq!(transaction_log_filename("usr_1.show.vrcset"), Some("usr_1.history".to_string()));
    assert_eq!(transaction_log_filename(".vrcset"), Some(".history".to_string()));
    assert_eq!(transaction_log_filename("gr\u{fc}n.vrcset"), Some("gr\u{fc}n.history".to_string()));
    assert_eq!(transaction_log_filename("vrcset"), None);
    assert_eq!(transaction_log_filename(""), None);
}
