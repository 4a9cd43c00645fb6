use hooligan::logging::{
    log_file_index, log_file_name, oldest_and_newest, plan_log_file, LogFiles, LogPlan, MAX_FILE_SIZE,
    MAX_LOG_FILES, MAX_LOG_INDEX_DIFFERENCE,
};

/// Three log files are kept, of two mebibytes each
#[test]
fn log_limits() {
    assert_eq!(MAX_LOG_FILES, 3);
    assert_eq!(MAX_FILE_SIZE, 2097152);
    assert_eq!(MAX_LOG_INDEX_DIFFERENCE, 1);
}

/// The number of a log file stands between the two dots of its name
#[test]
fn log_file_indexes() {
    assert_eq!(log_file_index("hooligan.0.log"), Some(0));
    assert_eq!(log_file_index("hooligan.17.log"), Some(17));
    assert_eq!(log_file_index("hooligan.007.log"), Some(7));
    assert_eq!(log_file_index("hooligan.+7.log"), Some(7));
    assert_eq!(log_file_index("hooligan.4294967295.log"), Some(4294967295));
    assert_eq!(log_file_index("hooligan.4294967296.log"), None);
    assert_eq!(log_file_index("hooligan.log"), None);
    assert_eq!(log_file_index("hooligan..log"), None);
    assert_eq!(log_file_index("hooligan.1.2.log"), None);
    assert_eq!(log_file_index("hooligan.x.log"), None);
    assert_eq!(log_file_index("hooligan.1.txt"), None);
    assert_eq!(log_file_index("other.1.log"), None);
    assert_eq!(log_file_index("hooligan.1.log.old"), None);
    assert_eq!(log_file_index(""), None);
}

/// The name of a log file reads back as its number
#[test]
fn log_file_names() {
    assert_eq!(log_file_name(0), "hooligan.0.log");
    assert_eq!(log_file_name(12), "hooligan.12.log");
    assert_eq!(log_file_name(4294967295), "hooligan.4294967295.log");
    for index in [0, 1, 9, 10, 99, 100, 12345, 4294967295] {
        assert_eq!(log_file_index(&log_file_name(index)), Some(index));
    }
}

/// The oldest is the first with the least number, the newest the first with the greatest
#[test]
fn oldest_and_newest_places() {
    assert_eq!(oldest_and_newest(&vec![]), None);
    assert_eq!(oldest_and_newest(&vec![5]), Some((0, 0)));
    assert_eq!(oldest_and_newest(&vec![5, 3, 9, 4]), Some((1, 2)));
    assert_eq!(oldest_and_newest(&vec![2, 2, 7, 7, 2]), Some((0, 2)));
    assert_eq!(oldest_and_newest(&vec![9, 8, 7]), Some((2, 0)));
}

/// Without a log file the first one is started
#[test]
fn plan_without_log_files() {
    assert_eq!(plan_log_file(&None), LogPlan::Create { index: 0, remove_oldest: false });
}

/// A small newest log file is written to again
#[test]
fn plan_reuses_small_log_file() {
    let found = Some(LogFiles { oldest: 3, newest: 9, newest_size: 2097151 });
    assert_eq!(plan_log_file(&found), LogPlan::Reuse);
    let found = Some(LogFiles { oldest: 0, newest: 0, newest_size: 0 });
    assert_eq!(plan_log_file(&found), LogPlan::Reuse);
}

/// A full newest log file is followed by the next, and the oldest goes when it is too far behind
#[test]
fn plan_starts_next_log_file() {
    let found = Some(LogFiles { oldest: 4, newest: 4, newest_size: 2097152 });
    assert_eq!(plan_log_file(&found), LogPlan::Create { index: 5, remove_oldest: false });
    let found = Some(LogFiles { oldest: 4, newest: 5, newest_size: 2097152 });
    assert_eq!(plan_log_file(&found), LogPlan::Create { index: 6, remove_oldest: false });
    let found = Some(LogFiles { oldest: 4, newest: 6, newest_size: 9999999 });
    assert_eq!(plan_log_file(&found), LogPlan::Create { index: 7, remove_oldest: true });
}
