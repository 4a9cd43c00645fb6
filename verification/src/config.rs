//! The threshold, and the line of the configuration that holds it.
//!
//! A line of the configuration is a name, an equals sign and a value. The
//! one name that is known is that of the threshold, and its value is a
//! number written in decimal digits.

use crate::text::{
    chars_of, decimal, first_char, lemma_decimal_round_trip, parse_u32, read_u32, same_text,
    string_from_iter, to_decimal,
};
use vstd::prelude::*;

verus! {

/// The threshold that a configuration holds when nothing else is known.
pub const DEFAULT_AUTO_HIDE_THRESHOLD: u32 = 3;

/// What is set for a run.
pub struct Config {
    /// a user that has been manually shown this many times in a row is exempt from auto hide
    pub auto_hide_threshold: u32,
}

/// Why a line of the configuration could not be read.
#[derive(PartialEq, Eq, Structural, Debug, Clone, Copy)]
pub enum Error {
    /// The line holds no equals sign.
    Split,
    /// The value is not a number that a `u32` holds.
    Int,
    /// The name is not known.
    Key,
}

/// The name of the threshold in the configuration.
pub open spec fn auto_hide_threshold_name() -> Seq<char> {
    "auto_hide_threshold"@
}

/// The threshold that a line of the configuration gives. The name is what
/// stands before the first equals sign, and the value is the rest.
pub open spec fn line_value(line: Seq<char>) -> Result<u32, Error> {
    match line.index_of_first('=') {
        None => Err(Error::Split),
        Some(at) => {
            if line.subrange(0, at) != auto_hide_threshold_name() {
                Err(Error::Key)
            } else {
                match parse_u32(line.subrange(at + 1, line.len() as int)) {
                    Some(threshold) => Ok(threshold),
                    None => Err(Error::Int),
                }
            }
        },
    }
}

/// The line of the configuration that holds a threshold, without what ends
/// it.
pub open spec fn line_text(threshold: u32) -> Seq<char> {
    auto_hide_threshold_name() + seq!['='] + decimal(threshold as nat)
}

/// The threshold that the lines of a configuration give, read from the
/// first to the last: that of the last line, and zero where there is no
/// line. The first line that cannot be read gives its error.
pub open spec fn lines_value(lines: Seq<Seq<char>>) -> Result<u32, Error>
    decreases lines.len(),
{
    if lines.len() == 0 {
        Ok(0)
    } else {
        match lines_value(lines.drop_last()) {
            Err(error) => Err(error),
            Ok(_) => line_value(lines.last()),
        }
    }
}

/// What the lines of a configuration say, each given as its characters.
pub open spec fn lines_text(lines: Seq<String>) -> Seq<Seq<char>> {
    lines.map_values(|line: String| line@)
}

impl Default for Config {
    fn default() -> (config: Self)
        ensures
            config.auto_hide_threshold == DEFAULT_AUTO_HIDE_THRESHOLD,
    {
        Self { auto_hide_threshold: DEFAULT_AUTO_HIDE_THRESHOLD }
    }
}

impl Config {
    /// A configuration before any of its lines is read.
    pub fn new() -> (config: Self)
        ensures
            config.auto_hide_threshold == 0,
    {
        Self { auto_hide_threshold: 0 }
    }

    /// Reads a configuration from its lines, each given without what ends
    /// it. It stops at the first line that cannot be read.
    pub fn load(lines: &Vec<String>) -> (loaded: Result<Self, Error>)
        ensures
            match loaded {
                Ok(config) => lines_value(lines_text(lines@)) == Ok::<u32, Error>(
                    config.auto_hide_threshold,
                ),
                Err(error) => lines_value(lines_text(lines@)) == Err::<u32, Error>(error),
            },
    {
        let mut config = Self::new();
        let mut at: usize = 0;
        proof {
            assert(lines_text(lines@).take(0) =~= Seq::empty());
        }
        while at < lines.len()
            invariant
                at <= lines@.len(),
                lines_value(lines_text(lines@).take(at as int)) == Ok::<u32, Error>(
                    config.auto_hide_threshold,
                ),
            decreases lines@.len() - at,
        {
            proof {
                let next = lines_text(lines@).take(at + 1);
                assert(next.drop_last() =~= lines_text(lines@).take(at as int));
                assert(next.last() == lines@[at as int]@);
            }
            match config.parse_line(lines[at].as_str()) {
                Ok(()) => {},
                Err(error) => {
                    proof {
                        lemma_lines_value_stops(lines_text(lines@), at + 1);
                    }
                    return Err(error);
                },
            }
            at += 1;
        }
        assert(lines_text(lines@).take(at as int) =~= lines_text(lines@));
        Ok(config)
    }

    /// The configuration as it is written: the line that holds the
    /// threshold, and a line feed.
    pub fn serialize(&self) -> (text: String)
        ensures
            text@ == line_text(self.auto_hide_threshold) + seq!['\n'],
    {
        let mut chars = chars_of("auto_hide_threshold");
        chars.push('=');
        let mut digits = to_decimal(self.auto_hide_threshold);
        chars.append(&mut digits);
        chars.push('\n');
        assert(chars@ =~= line_text(self.auto_hide_threshold) + seq!['\n']);
        string_from_iter(&chars)
    }

    /// Reads one line of the configuration, given without what ends it. A
    /// line that cannot be read leaves the configuration as it was.
    pub fn parse_line(&mut self, line: &str) -> (parsed: Result<(), Error>)
        ensures
            match line_value(line@) {
                Ok(threshold) => parsed is Ok && final(self).auto_hide_threshold == threshold,
                Err(error) => parsed == Err::<(), Error>(error) && *final(self) == *old(self),
            },
    {
        let chars = chars_of(line);
        let at = match first_char(&chars, '=') {
            Some(at) => at,
            None => {
                return Err(Error::Split);
            },
        };
        let len = chars.len();
        let key = line.substring_char(0, at);
        let value = line.substring_char(at + 1, len);
        if same_text(key, "auto_hide_threshold") {
            self.parse_auto_hide_threshold(value)
        } else {
            Err(Error::Key)
        }
    }

    /// Reads the value of the threshold. A value that is no number leaves the
    /// configuration as it was.
    pub fn parse_auto_hide_threshold(&mut self, value: &str) -> (parsed: Result<(), Error>)
        ensures
            match parse_u32(value@) {
                Some(threshold) => parsed is Ok && final(self).auto_hide_threshold == threshold,
                None => parsed == Err::<(), Error>(Error::Int) && *final(self) == *old(self),
            },
    {
        match read_u32(value) {
            Some(threshold) => {
                self.auto_hide_threshold = threshold;
                Ok(())
            },
            None => Err(Error::Int),
        }
    }
}

/// The lines of a configuration whose first lines cannot all be read give
/// the error of those first lines.
pub proof fn lemma_lines_value_stops(lines: Seq<Seq<char>>, upto: int)
    requires
        0 <= upto <= lines.len(),
        lines_value(lines.take(upto)) is Err,
    ensures
        lines_value(lines) == lines_value(lines.take(upto)),
    decreases lines.len() - upto,
{
    if upto < lines.len() {
        assert(lines.take(upto + 1).drop_last() =~= lines.take(upto));
        lemma_lines_value_stops(lines, upto + 1);
    } else {
        assert(lines.take(upto) =~= lines);
    }
}

/// A configuration that is written and read back holds the same threshold.
pub proof fn lemma_round_trip(threshold: u32)
    ensures
        line_value(line_text(threshold)) == Ok::<u32, Error>(threshold),
        lines_value(seq![line_text(threshold)]) == Ok::<u32, Error>(threshold),
{
    let name = auto_hide_threshold_name();
    let line = line_text(threshold);
    reveal_strlit("auto_hide_threshold");
    lemma_decimal_round_trip(threshold as nat);
    line.index_of_first_ensures('=');
    assert(line[name.len() as int] == '=');
    assert(line.contains('='));
    let at = line.index_of_first('=')->Some_0;
    assert(at == name.len()) by {
        if at < name.len() {
            assert(line[at] == name[at]);
        }
    }
    assert(line.subrange(0, at) =~= name);
    assert(line.subrange(at + 1, line.len() as int) =~= decimal(threshold as nat));
    let lines = seq![line];
    assert(lines.drop_last() =~= Seq::empty());
    assert(lines_value(lines) == line_value(line)) by {
        reveal_with_fuel(lines_value, 2);
    }
}

} // verus!
