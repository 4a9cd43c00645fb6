//! The names of the files: which files are lists, and where the log of a
//! list is kept.

use crate::scan::ends_with;
use crate::text::{chars_of, first_char, push_str, string_from_iter};
use vstd::prelude::*;
use vstd::string::StringSliceAdditionalSpecFns;

verus! {

/// What the name of a list file ends in.
pub open spec fn list_suffix() -> Seq<u8> {
    ".vrcset".spec_bytes()
}

/// What the name of a transaction log ends in.
pub open spec fn log_suffix() -> Seq<char> {
    ".history"@
}

/// The name of the transaction log of a list file: the name of the list
/// file up to its first dot, and the ending of a log. A name without a dot
/// has no log.
pub open spec fn log_name(list_name: Seq<char>) -> Option<Seq<char>> {
    match list_name.index_of_first('.') {
        Some(dot) => Some(list_name.subrange(0, dot) + log_suffix()),
        None => None,
    }
}

/// Whether a file of this name is a list.
pub fn is_list_file_name(name: &[u8]) -> (list: bool)
    ensures
        list == list_suffix().is_suffix_of(name@),
{
    ends_with(name, ".vrcset".as_bytes())
}

/// The name of the transaction log that belongs to a list file.
pub fn transaction_log_filename(vrcset_filename: &str) -> (filename: Option<String>)
    ensures
        match filename {
            Some(name) => log_name(vrcset_filename@) == Some(name@),
            None => log_name(vrcset_filename@) is None,
        },
{
    let chars = chars_of(vrcset_filename);
    match first_char(&chars, '.') {
        Some(dot) => {
            let mut name = chars_of(vrcset_filename.substring_char(0, dot));
            push_str(&mut name, ".history");
            Some(string_from_iter(&name))
        },
        None => None,
    }
}

} // verus!
