//! One line of the list file: an identifier and whether it is hidden or shown.
//!
//! A line is the identifier, at least one space, and a status code of three
//! digits. When written, the identifier is padded with spaces so that the
//! code starts at a fixed column, and the line ends in a carriage return and a
//! line feed. A line that cannot be read keeps its bytes, so that it can be
//! written back as it was.

use crate::scan::{
    append, append_spaces, bytes_eq, first_index, is_blank, last_index, lemma_first_index,
    lemma_last_index, spaces, to_boxed, CR, LF, SPACE,
};
use vstd::prelude::*;

verus! {

/// The column at which the status code starts, unless the identifier is too
/// long for that.
pub const VALUE_COLUMN: usize = 64;

/// The status code of a hidden identifier: the digits `004`.
pub open spec fn hide_code() -> Seq<u8> {
    seq!['0' as u8, '0' as u8, '4' as u8]
}

/// The status code of a shown identifier: the digits `005`.
pub open spec fn show_code() -> Seq<u8> {
    seq!['0' as u8, '0' as u8, '5' as u8]
}

/// What ends a line of the list file: a carriage return and a line feed.
pub open spec fn line_end() -> Seq<u8> {
    seq![CR, LF]
}

/// Whether an identifier is hidden or shown.
#[derive(PartialEq, Eq, Structural, Debug, Clone, Copy)]
pub enum Value {
    /// The identifier is hidden.
    Hide,
    /// The identifier is shown.
    Show,
}

/// Says that a status code is neither of the two known ones.
pub struct UnknownValue;

impl Value {
    /// The status code that stands for this value.
    pub open spec fn code(self) -> Seq<u8> {
        match self {
            Value::Hide => hide_code(),
            Value::Show => show_code(),
        }
    }

    /// The value that a status code stands for, if it is a known one.
    pub open spec fn from_code(code: Seq<u8>) -> Option<Value> {
        if code == hide_code() {
            Some(Value::Hide)
        } else if code == show_code() {
            Some(Value::Show)
        } else {
            None
        }
    }

    /// Reads a status code.
    pub fn parse(value: &[u8]) -> (parsed: Result<Self, UnknownValue>)
        ensures
            match parsed {
                Ok(value_read) => Value::from_code(value@) == Some(value_read),
                Err(_) => Value::from_code(value@) is None,
            },
    {
        let hide = Value::Hide.serialize();
        let show = Value::Show.serialize();
        if bytes_eq(value, hide.as_slice()) {
            Ok(Value::Hide)
        } else if bytes_eq(value, show.as_slice()) {
            Ok(Value::Show)
        } else {
            Err(UnknownValue)
        }
    }

    /// The status code that stands for this value.
    pub fn serialize(&self) -> (code: [u8; 3])
        ensures
            code@ == self.code(),
    {
        let code = match self {
            Value::Hide => ['0' as u8, '0' as u8, '4' as u8],
            Value::Show => ['0' as u8, '0' as u8, '5' as u8],
        };
        assert(code@ =~= self.code());
        code
    }
}

/// What a line of the list file says: the identifier and its value.
pub struct LineView {
    pub key: Seq<u8>,
    pub value: Value,
}

impl LineView {
    /// An identifier is at least one byte and holds no space.
    pub open spec fn well_formed(self) -> bool {
        self.key.len() > 0 && !self.key.contains(SPACE)
    }

    /// The number of spaces written between the identifier and the status
    /// code: as many as bring the code to its column, and never fewer than one.
    pub open spec fn padding(self) -> nat {
        if self.key.len() < VALUE_COLUMN {
            (VALUE_COLUMN - self.key.len()) as nat
        } else {
            1
        }
    }

    /// The line as it is written, without what ends it.
    pub open spec fn text(self) -> Seq<u8> {
        self.key + spaces(self.padding()) + self.value.code()
    }

    /// The line as it is written, with what ends it.
    pub open spec fn wire(self) -> Seq<u8> {
        self.text() + line_end()
    }

    /// The two fields of `line`, where it is made of a field, one run of
    /// spaces and another field, and neither field is empty.
    pub open spec fn split(line: Seq<u8>) -> Option<(Seq<u8>, Seq<u8>)> {
        match (line.index_of_first(SPACE), line.index_of_last(SPACE)) {
            (Some(first), Some(last)) => {
                if 0 < first && last + 1 < line.len() && line.subrange(first, last + 1) == spaces(
                    (last + 1 - first) as nat,
                ) {
                    Some((line.subrange(0, first), line.subrange(last + 1, line.len() as int)))
                } else {
                    None
                }
            },
            _ => None,
        }
    }

    /// What `line`, given without what ends it, says. A line that does not
    /// split into two fields is a bad split; one whose second field is no
    /// known status code has an unknown value. Either error keeps the line.
    pub open spec fn parse(line: Seq<u8>) -> Result<LineView, ParseErrorView> {
        match LineView::split(line) {
            None => Err(ParseErrorView { raw_line: line, error_type: ParseErrorType::BadSplit }),
            Some((key, code)) => match Value::from_code(code) {
                None => Err(
                    ParseErrorView { raw_line: line, error_type: ParseErrorType::UnknownValue },
                ),
                Some(value) => Ok(LineView { key, value }),
            },
        }
    }
}

/// A line of the list file.
#[derive(PartialEq, Eq, Debug)]
pub struct Line {
    /// UTF-8 encoded key
    key: Box<[u8]>,
    /// hidden or shown
    value: Value,
}

impl View for Line {
    type V = LineView;

    closed spec fn view(&self) -> LineView {
        LineView { key: self.key@, value: self.value }
    }
}

impl Line {
    /// A line that gives `key` the value `value`.
    pub fn new(key: Box<[u8]>, value: Value) -> (line: Self)
        ensures
            line@ == (LineView { key: key@, value }),
    {
        Self { key, value }
    }

    /// Reads a line, given without what ends it.
    pub fn parse(line: &[u8]) -> (parsed: Result<Self, ParseError>)
        ensures
            parsed_view(parsed) == LineView::parse(line@),
    {
        let first_space = match first_index(line, SPACE) {
            Some(at) => at,
            None => {
                // there was no space present
                return Err(ParseError::bad_split(line));
            },
        };
        proof {
            line@.index_of_first_ensures(SPACE);
            line@.index_of_last_ensures(SPACE);
        }
        // a space found from the left is also found from the right
        let last_space = last_index(line, SPACE).unwrap();
        assert(first_space <= last_space < line.len());
        if !is_blank(line, first_space, last_space + 1) {
            // more than two fields
            return Err(ParseError::bad_split(line));
        }
        let key = vstd::slice::slice_subrange(line, 0, first_space);
        let value = vstd::slice::slice_subrange(line, last_space + 1, line.len());
        if key.len() == 0 || value.len() == 0 {
            // a field is missing
            return Err(ParseError::bad_split(line));
        }
        match Value::parse(value) {
            Ok(value) => Ok(Self { key: to_boxed(key), value }),
            Err(_) => Err(ParseError::unknown_value(line)),
        }
    }

    /// Appends the line to `writer` and returns the number of bytes written.
    pub fn serialize(&self, writer: &mut Vec<u8>) -> (written: usize)
        ensures
            final(writer)@ == old(writer)@ + self@.wire(),
            written == self@.wire().len(),
            written == (if self@.key.len() > 63 {
                self@.key.len()
            } else {
                63
            }) + 1 + 3 + 2,
    {
        let start = writer.len();

        // write key
        let key_len = append(writer, &self.key);

        // pad with space out to the value's column. Always use a minimum of 1 space.
        let padding = if key_len < VALUE_COLUMN {
            VALUE_COLUMN - key_len
        } else {
            1
        };
        append_spaces(writer, padding);

        // write value
        let code = self.value.serialize();
        append(writer, code.as_slice());

        // write newline
        let newline = [CR, LF];
        append(writer, newline.as_slice());

        proof {
            assert(newline@ =~= line_end());
            assert(writer@ =~= old(writer)@ + self@.wire());
            lemma_padding(self@);
        }
        writer.len() - start
    }

    /// The identifier.
    pub fn key(&self) -> (key: &[u8])
        ensures
            key@ == self@.key,
    {
        &self.key
    }

    /// Whether the identifier is hidden or shown.
    pub fn value(&self) -> (value: &Value)
        ensures
            *value == self@.value,
    {
        &self.value
    }
}

/// Why a line could not be read.
#[derive(PartialEq, Eq, Structural, Debug, Clone, Copy)]
pub enum ParseErrorType {
    /// The line is not two fields with spaces between them.
    BadSplit,
    /// The second field is no known status code.
    UnknownValue,
}

/// What a parse error says: the line as it was read, and what is wrong with it.
pub struct ParseErrorView {
    pub raw_line: Seq<u8>,
    pub error_type: ParseErrorType,
}

impl ParseErrorView {
    /// The line as it is written back: the bytes that were read, and a line end.
    pub open spec fn wire(self) -> Seq<u8> {
        self.raw_line + line_end()
    }
}

/// A line that could not be read, kept as it was.
#[derive(PartialEq, Eq, Debug)]
pub struct ParseError {
    raw_line: Box<[u8]>,
    error_type: ParseErrorType,
}

impl View for ParseError {
    type V = ParseErrorView;

    closed spec fn view(&self) -> ParseErrorView {
        ParseErrorView { raw_line: self.raw_line@, error_type: self.error_type }
    }
}

impl ParseError {
    /// The error of a line that is not two fields with spaces between them.
    pub fn bad_split(line: &[u8]) -> (error: Self)
        ensures
            error@ == (ParseErrorView { raw_line: line@, error_type: ParseErrorType::BadSplit }),
    {
        Self { raw_line: to_boxed(line), error_type: ParseErrorType::BadSplit }
    }

    /// The error of a line whose second field is no known status code.
    pub fn unknown_value(line: &[u8]) -> (error: Self)
        ensures
            error@ == (ParseErrorView {
                raw_line: line@,
                error_type: ParseErrorType::UnknownValue,
            }),
    {
        Self { raw_line: to_boxed(line), error_type: ParseErrorType::UnknownValue }
    }

    /// Appends the line as it was read, and a line end, to `writer`, and
    /// returns the number of bytes written.
    pub fn serialize(&self, writer: &mut Vec<u8>) -> (written: usize)
        ensures
            final(writer)@ == old(writer)@ + self@.wire(),
            written == self@.raw_line.len() + 2,
    {
        let start = writer.len();
        append(writer, &self.raw_line);
        let newline = [CR, LF];
        append(writer, newline.as_slice());
        proof {
            assert(newline@ =~= line_end());
            assert(writer@ =~= old(writer)@ + self@.wire());
        }
        writer.len() - start
    }

    /// The line as it was read.
    pub fn raw_line(&self) -> (raw_line: &[u8])
        ensures
            raw_line@ == self@.raw_line,
    {
        &self.raw_line
    }

    /// What is wrong with the line.
    pub fn error_type(&self) -> (error_type: ParseErrorType)
        ensures
            error_type == self@.error_type,
    {
        self.error_type
    }
}

/// What the result of reading a line says.
pub open spec fn parsed_view(parsed: Result<Line, ParseError>) -> Result<
    LineView,
    ParseErrorView,
> {
    match parsed {
        Ok(line) => Ok(line@),
        Err(error) => Err(error@),
    }
}

/// A status code is three bytes, none of them a space.
pub proof fn lemma_code(value: Value)
    ensures
        value.code().len() == 3,
        !value.code().contains(SPACE),
        Value::from_code(value.code()) == Some(value),
{
    assert(hide_code()[2] != show_code()[2]);
}

/// The written line, without its end, is as long as the identifier or 63
/// bytes, whichever is more, and one space and the three bytes of the code;
/// and a space stands right behind the identifier.
pub proof fn lemma_padding(line: LineView)
    ensures
        line.padding() >= 1,
        line.text().len() == (if line.key.len() > 63 {
            line.key.len()
        } else {
            63
        }) + 1 + 3,
        line.wire().len() == line.text().len() + 2,
        line.text()[line.key.len() as int] == SPACE,
{
    lemma_code(line.value);
}

/// A field, a run of at least one space and another field split into the two
/// fields, where neither field is empty or holds a space.
pub proof fn lemma_split_joined(key: Seq<u8>, gap: nat, code: Seq<u8>)
    requires
        key.len() > 0,
        code.len() > 0,
        gap >= 1,
        !key.contains(SPACE),
        !code.contains(SPACE),
    ensures
        LineView::split(key + spaces(gap) + code) == Some((key, code)),
{
    let line = key + spaces(gap) + code;
    let first = key.len() as int;
    let last = key.len() + gap - 1;
    assert forall|i: int| 0 <= i < first implies line[i] != SPACE by {
        assert(key.contains(line[i]));
    }
    assert forall|i: int| last < i < line.len() implies line[i] != SPACE by {
        assert(code[i - last - 1] == line[i]);
        assert(code.contains(line[i]));
    }
    lemma_first_index(line, SPACE, first);
    lemma_last_index(line, SPACE, last);
    assert(line.subrange(first, last + 1) =~= spaces(gap));
    assert(line.subrange(0, first) =~= key);
    assert(line.subrange(last + 1, line.len() as int) =~= code);
}

/// A line that splits is its two fields with a run of at least one space
/// between them, and neither field is empty or holds a space.
pub proof fn lemma_split_fields(line: Seq<u8>)
    requires
        LineView::split(line) is Some,
    ensures
        ({
            let (key, code) = LineView::split(line)->Some_0;
            let gap = line.len() - key.len() - code.len();
            &&& key.len() > 0
            &&& code.len() > 0
            &&& gap >= 1
            &&& !key.contains(SPACE)
            &&& !code.contains(SPACE)
            &&& line == key + spaces(gap as nat) + code
        }),
{
    line.index_of_first_ensures(SPACE);
    line.index_of_last_ensures(SPACE);
    let first = line.index_of_first(SPACE)->Some_0;
    let last = line.index_of_last(SPACE)->Some_0;
    let (key, code) = LineView::split(line)->Some_0;
    let gap = line.len() - key.len() - code.len();
    assert(gap == last + 1 - first);
    assert(line =~= key + line.subrange(first, last + 1) + code);
}

/// A well-formed line, written and read back, is the same line.
pub proof fn lemma_round_trip(line: LineView)
    requires
        line.well_formed(),
    ensures
        LineView::parse(line.text()) == Ok::<LineView, ParseErrorView>(line),
        line.wire() == line.text() + line_end(),
{
    lemma_code(line.value);
    lemma_padding(line);
    lemma_split_joined(line.key, line.padding(), line.value.code());
}

/// A line that is read is well formed.
pub proof fn lemma_parsed_well_formed(line: Seq<u8>)
    requires
        LineView::parse(line) is Ok,
    ensures
        LineView::parse(line)->Ok_0.well_formed(),
{
    lemma_split_fields(line);
}

/// A line that cannot be read is written back as the bytes that were read
/// and a line end.
pub proof fn lemma_malformed_kept(line: Seq<u8>)
    requires
        LineView::parse(line) is Err,
    ensures
        LineView::parse(line)->Err_0.wire() == line + line_end(),
{
}

} // verus!
