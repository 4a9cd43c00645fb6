//! Which file the diagnostics of a run are written to.
//!
//! The log files are numbered. A run writes to the newest one while that is
//! small, and else starts the next; when it starts one and the numbers of
//! the oldest and the newest are too far apart, the oldest is deleted.

use crate::text::{
    chars_of, decimal, ends_with, first_char, lemma_decimal_round_trip, parse_u32, push_str,
    read_u32, starts_with, string_from_iter, to_decimal,
};
use vstd::prelude::*;

verus! {

/// Maximum number of log files to retain, including the latest.
pub const MAX_LOG_FILES: u32 = 3;

/// Maximum log file size after which to stop reusing the file for new program runs.
/// Set to 2MiB for now, so with 3 files we could have slightly more than 6MiB of logs.
pub const MAX_FILE_SIZE: u64 = 2 * 1024 * 1024;

/// `new_index - old_index` threshold above which we delete the oldest file
/// if there are 10 log files on disk, then `new_index - old_index == 9`.
/// Therefore, a threshold of `8` is appropriate to retain 10 files.
pub const MAX_LOG_INDEX_DIFFERENCE: u32 = MAX_LOG_FILES - 2;

/// What the name of a log file starts with.
pub open spec fn log_prefix() -> Seq<char> {
    "hooligan."@
}

/// What the name of a log file ends in.
pub open spec fn log_suffix() -> Seq<char> {
    ".log"@
}

/// The name of the log file with the number `index`.
pub open spec fn log_name(index: u32) -> Seq<char> {
    log_prefix() + decimal(index as nat) + log_suffix()
}

/// The number of the log file with this name: the name is the start of a
/// log file's name, a number and the end of a log file's name, and it holds
/// no dot but the two of its start and its end.
pub open spec fn log_index(filename: Seq<char>) -> Option<u32> {
    if filename.len() >= log_prefix().len() + log_suffix().len() && log_prefix().is_prefix_of(
        filename,
    ) && log_suffix().is_suffix_of(filename) {
        let middle = filename.subrange(
            log_prefix().len() as int,
            filename.len() - log_suffix().len(),
        );
        if middle.contains('.') {
            None
        } else {
            parse_u32(middle)
        }
    } else {
        None
    }
}

/// The number of the log file with this name, if it is the name of one.
pub fn log_file_index(filename: &str) -> (index: Option<u32>)
    ensures
        index == log_index(filename@),
{
    let chars = chars_of(filename);
    let prefix = chars_of("hooligan.");
    let suffix = chars_of(".log");
    proof {
        reveal_strlit("hooligan.");
        reveal_strlit(".log");
    }
    if chars.len() < prefix.len() + suffix.len() || !starts_with(&chars, &prefix) || !ends_with(
        &chars,
        &suffix,
    ) {
        return None;
    }
    let middle = filename.substring_char(prefix.len(), chars.len() - suffix.len());
    let middle_chars = chars_of(middle);
    proof {
        middle@.index_of_first_ensures('.');
    }
    match first_char(&middle_chars, '.') {
        Some(_) => None,
        None => read_u32(middle),
    }
}

/// The name of the log file with the number `index`.
pub fn log_file_name(index: u32) -> (filename: String)
    ensures
        filename@ == log_name(index),
{
    let mut chars = chars_of("hooligan.");
    let mut digits = to_decimal(index);
    chars.append(&mut digits);
    push_str(&mut chars, ".log");
    string_from_iter(&chars)
}

/// The name that is made for a number is read as that number.
pub proof fn lemma_log_name_round_trip(index: u32)
    ensures
        log_index(log_name(index)) == Some(index),
{
    let name = log_name(index);
    let digits = decimal(index as nat);
    reveal_strlit("hooligan.");
    reveal_strlit(".log");
    lemma_decimal_round_trip(index as nat);
    assert(name.subrange(0, log_prefix().len() as int) =~= log_prefix());
    assert(name.subrange(name.len() - log_suffix().len(), name.len() as int) =~= log_suffix());
    let middle = name.subrange(log_prefix().len() as int, name.len() - log_suffix().len());
    assert(middle =~= digits);
    if middle.contains('.') {
        let at = choose|i: int| 0 <= i < middle.len() && middle[i] == '.';
        assert(crate::text::is_digit(digits[at]));
    }
}

/// The oldest and the newest of the log files that were found, with the
/// size of the newest.
pub struct LogFiles {
    /// The number of the oldest log file.
    pub oldest: u32,
    /// The number of the newest log file.
    pub newest: u32,
    /// The size of the newest log file in bytes.
    pub newest_size: u64,
}

/// What is done about the log file of a run.
#[derive(PartialEq, Eq, Structural, Debug, Clone, Copy)]
pub enum LogPlan {
    /// The newest log file is written to.
    Reuse,
    /// A log file with the number `index` is started; the oldest log file is
    /// deleted first if `remove_oldest` says so.
    Create { index: u32, remove_oldest: bool },
}

/// What is done about the log file of a run, given the log files that were
/// found. Where none was found, the first log file is started. The newest
/// is written to while it is smaller than the most that a log file should
/// hold. Else the next is started, and the oldest is deleted if its number
/// is too far from the newest.
pub open spec fn log_plan(found: Option<LogFiles>) -> LogPlan {
    match found {
        None => LogPlan::Create { index: 0, remove_oldest: false },
        Some(files) => {
            if files.newest_size < MAX_FILE_SIZE {
                LogPlan::Reuse
            } else {
                LogPlan::Create {
                    index: (files.newest + 1) as u32,
                    remove_oldest: files.newest - files.oldest > MAX_LOG_INDEX_DIFFERENCE,
                }
            }
        },
    }
}

/// Decides what is done about the log file of a run.
///
/// The numbers must be in their order, and the newest must leave room for
/// one that follows it where the next log file is started.
pub fn plan_log_file(found: &Option<LogFiles>) -> (plan: LogPlan)
    requires
        found matches Some(files) ==> files.oldest <= files.newest && (files.newest_size
            >= MAX_FILE_SIZE ==> files.newest < u32::MAX),
    ensures
        plan == log_plan(*found),
{
    match found {
        None => LogPlan::Create { index: 0, remove_oldest: false },
        Some(files) => {
            if files.newest_size < MAX_FILE_SIZE {
                // last log file is small enough to reuse. No need to delete a file over
                // the count limit, as we aren't making a new file!
                LogPlan::Reuse
            } else {
                LogPlan::Create {
                    index: files.newest + 1,
                    remove_oldest: files.newest - files.oldest > MAX_LOG_INDEX_DIFFERENCE,
                }
            }
        },
    }
}

/// The places of the oldest and of the newest among log files given by
/// their numbers: the first place that holds the least number, and the
/// first that holds the greatest. There are none where no number is given.
pub fn oldest_and_newest(indexes: &Vec<u32>) -> (places: Option<(usize, usize)>)
    ensures
        match places {
            None => indexes@.len() == 0,
            Some((oldest, newest)) => {
                &&& oldest < indexes@.len()
                &&& newest < indexes@.len()
                &&& forall|i: int|
                    0 <= i < indexes@.len() ==> indexes@[oldest as int] <= #[trigger] indexes@[i]
                &&& forall|i: int|
                    0 <= i < indexes@.len() ==> #[trigger] indexes@[i] <= indexes@[newest as int]
                &&& forall|i: int| 0 <= i < oldest ==> indexes@[i] > indexes@[oldest as int]
                &&& forall|i: int| 0 <= i < newest ==> indexes@[i] < indexes@[newest as int]
            },
        },
{
    if indexes.len() == 0 {
        return None;
    }
    let mut oldest: usize = 0;
    let mut newest: usize = 0;
    let mut at: usize = 1;
    while at < indexes.len()
        invariant
            1 <= at <= indexes@.len(),
            oldest < at,
            newest < at,
            forall|i: int| 0 <= i < at ==> indexes@[oldest as int] <= #[trigger] indexes@[i],
            forall|i: int| 0 <= i < at ==> #[trigger] indexes@[i] <= indexes@[newest as int],
            forall|i: int| 0 <= i < oldest ==> indexes@[i] > indexes@[oldest as int],
            forall|i: int| 0 <= i < newest ==> indexes@[i] < indexes@[newest as int],
        decreases indexes@.len() - at,
    {
        if indexes[at] < indexes[oldest] {
            oldest = at;
        }
        if indexes[at] > indexes[newest] {
            newest = at;
        }
        at += 1;
    }
    Some((oldest, newest))
}

} // verus!
