//! Keeps a visibility list honest about how often an identifier was shown.
//!
//! The list file belongs to another application, which forgets how many times
//! an identifier has been shown since it was last hidden. This library keeps
//! that history as an append-only transaction log and decides, line by line,
//! which entries of the list stay, which are reset, and which come back.
//!
//! * [`local_player_moderations`]: one line of the list file.
//! * [`transaction`]: one line of the transaction log, and the running count
//!   kept for an identifier.
//! * [`history`]: the log replayed into one state per identifier.
//! * [`reconcile`]: the decision taken for each line of the list, and for the
//!   identifiers that the list no longer holds.
//! * [`rewrite`]: the bytes of the rewritten list and of the log's new lines.
//! * [`agreement`]: that the log and the list agree after a run.
//! * [`settled`]: that a run right after a run changes nothing.
//! * [`config`]: the threshold and the line it is read from.
//! * [`layout`]: the names of the list files and of their logs.
//! * [`logging`]: which file the diagnostics of a run go to.
//! * [`scan`]: searching and copying byte strings.
//! * [`text`]: text as characters, and numbers in decimal digits.
//!
//! The library reads and writes no file. It is handed the lines of a file
//! and hands back the bytes to write.

pub mod agreement;
pub mod config;
pub mod history;
pub mod layout;
pub mod local_player_moderations;
pub mod logging;
pub mod reconcile;
pub mod rewrite;
pub mod scan;
pub mod settled;
pub mod text;
pub mod transaction;
