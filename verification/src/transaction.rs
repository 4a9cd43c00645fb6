//! One line of the transaction log, and the running count kept for an
//! identifier.
//!
//! A line of the log is the identifier, one space, the name of the event, and
//! a line feed. The log is only ever appended to; replayed from its first line
//! it gives, for each identifier, whether it is shown or hidden and how often
//! it was shown since it was last hidden.

use crate::scan::{
    append, bytes_eq, lemma_first_index, lemma_no_index, occurs_at, split_once_str, to_boxed, LF,
    SPACE,
};
use vstd::prelude::*;
use vstd::string::StringSliceAdditionalSpecFns;

verus! {

/// A single transaction from the ordered transaction log used to track
/// changes over time to a list file.
#[derive(PartialEq, Eq, Debug)]
pub struct Transaction {
    /// referenced user
    key: Box<[u8]>,
    /// the event
    value: Value,
}

/// The value of a transaction. This is the event being logged.
#[derive(PartialEq, Eq, Structural, Debug, Clone, Copy)]
pub enum Value {
    /// an entry of the list was deleted because it had not been shown often enough
    AutoReset,
    /// an entry was added to the list because it had been shown often enough:
    /// this happens when the threshold was lowered since the entry was deleted
    AutoShow,
    /// a hide by the user was found by comparing the list with the log
    ManualHide,
    /// a reset by the user was found by comparing the list with the log
    ManualReset,
    /// a show by the user was found by comparing the list with the log
    ManualShow,
}

impl Value {
    /// The name of the event as the log holds it.
    pub open spec fn token(self) -> Seq<u8> {
        match self {
            Value::AutoReset => "AUTO_RESET".spec_bytes(),
            Value::AutoShow => "AUTO_SHOW".spec_bytes(),
            Value::ManualHide => "MANUAL_HIDE".spec_bytes(),
            Value::ManualReset => "MANUAL_RESET".spec_bytes(),
            Value::ManualShow => "MANUAL_SHOW".spec_bytes(),
        }
    }

    /// The event that a name stands for, if it is a known one.
    pub open spec fn from_token(token: Seq<u8>) -> Option<Value> {
        if token == Value::AutoReset.token() {
            Some(Value::AutoReset)
        } else if token == Value::AutoShow.token() {
            Some(Value::AutoShow)
        } else if token == Value::ManualHide.token() {
            Some(Value::ManualHide)
        } else if token == Value::ManualReset.token() {
            Some(Value::ManualReset)
        } else if token == Value::ManualShow.token() {
            Some(Value::ManualShow)
        } else {
            None
        }
    }

    /// Reads the name of an event. A name that is not known is handed back
    /// in the error.
    pub fn parse(value: &[u8]) -> (parsed: Result<Self, ParseError>)
        ensures
            match parsed {
                Ok(event) => Value::from_token(value@) == Some(event),
                Err(error) => Value::from_token(value@) is None && error@
                    == ParseErrorView::UnknownValue(value@),
            },
    {
        if bytes_eq(value, Value::AutoReset.serialize()) {
            Ok(Value::AutoReset)
        } else if bytes_eq(value, Value::AutoShow.serialize()) {
            Ok(Value::AutoShow)
        } else if bytes_eq(value, Value::ManualHide.serialize()) {
            Ok(Value::ManualHide)
        } else if bytes_eq(value, Value::ManualReset.serialize()) {
            Ok(Value::ManualReset)
        } else if bytes_eq(value, Value::ManualShow.serialize()) {
            Ok(Value::ManualShow)
        } else {
            Err(ParseError::UnknownValue(to_boxed(value)))
        }
    }

    /// The name of the event as the log holds it.
    pub fn serialize(&self) -> (token: &'static [u8])
        ensures
            token@ == self.token(),
    {
        match self {
            Value::AutoReset => "AUTO_RESET".as_bytes(),
            Value::AutoShow => "AUTO_SHOW".as_bytes(),
            Value::ManualHide => "MANUAL_HIDE".as_bytes(),
            Value::ManualReset => "MANUAL_RESET".as_bytes(),
            Value::ManualShow => "MANUAL_SHOW".as_bytes(),
        }
    }
}

/// What a transaction says: the identifier and the event.
pub struct TransactionView {
    pub key: Seq<u8>,
    pub value: Value,
}

impl TransactionView {
    /// An identifier holds no space.
    pub open spec fn well_formed(self) -> bool {
        !self.key.contains(SPACE)
    }

    /// The transaction as the log holds it, without the line feed.
    pub open spec fn text(self) -> Seq<u8> {
        self.key + seq![SPACE] + self.value.token()
    }

    /// The transaction as the log holds it, with the line feed.
    pub open spec fn wire(self) -> Seq<u8> {
        self.text() + seq![LF]
    }

    /// What `line`, given without its line feed, says. The identifier is what
    /// stands before the first space, and the rest is the name of the event.
    /// A line without a space is a bad split and is kept in the error; a name
    /// that is not known is an unknown value, and the name is kept.
    pub open spec fn parse(line: Seq<u8>) -> Result<TransactionView, ParseErrorView> {
        match line.index_of_first(SPACE) {
            None => Err(ParseErrorView::BadSplit(line)),
            Some(space) => {
                let key = line.subrange(0, space);
                let token = line.subrange(space + 1, line.len() as int);
                match Value::from_token(token) {
                    None => Err(ParseErrorView::UnknownValue(token)),
                    Some(value) => Ok(TransactionView { key, value }),
                }
            },
        }
    }
}

impl View for Transaction {
    type V = TransactionView;

    closed spec fn view(&self) -> TransactionView {
        TransactionView { key: self.key@, value: self.value }
    }
}

impl Transaction {
    /// The transaction that logs the event `value` for `key`.
    pub fn new(key: Box<[u8]>, value: Value) -> (transaction: Self)
        ensures
            transaction@ == (TransactionView { key: key@, value }),
    {
        Self { key, value }
    }

    /// Reads a line of the log, given without its line feed.
    pub fn parse(value: &[u8]) -> (parsed: Result<Self, ParseError>)
        ensures
            parsed_view(parsed) == TransactionView::parse(value@),
    {
        let space = [SPACE];
        let (key, token) = match split_once_str(value, space.as_slice()) {
            Some(parts) => parts,
            None => {
                proof {
                    assert forall|i: int| 0 <= i < value@.len() implies value@[i] != SPACE by {
                        if value@[i] == SPACE {
                            assert(value@.subrange(i, i + 1) =~= space@);
                            assert(occurs_at(value@, space@, i));
                        }
                    }
                    lemma_no_index(value@, SPACE);
                }
                return Err(ParseError::BadSplit(to_boxed(value)));
            },
        };
        proof {
            assert forall|i: int| 0 <= i < key@.len() implies value@[i] != SPACE by {
                if value@[i] == SPACE {
                    assert(value@.subrange(i, i + 1) =~= space@);
                    assert(occurs_at(value@, space@, i));
                }
            }
            lemma_first_index(value@, SPACE, key@.len() as int);
            assert(value@.subrange(0, key@.len() as int) =~= key@);
            assert(value@.subrange(key@.len() as int + 1, value@.len() as int) =~= token@);
        }
        let key = to_boxed(key);
        match Value::parse(token) {
            Ok(value) => Ok(Self { key, value }),
            Err(error) => Err(error),
        }
    }

    /// Appends the transaction to `writer` and returns the number of bytes
    /// written.
    pub fn serialize(&self, writer: &mut Vec<u8>) -> (written: usize)
        ensures
            final(writer)@ == old(writer)@ + self@.wire(),
            written == self@.wire().len(),
    {
        let start = writer.len();
        append(writer, &self.key);
        let space = [SPACE];
        append(writer, space.as_slice());
        append(writer, self.value.serialize());
        let newline = [LF];
        append(writer, newline.as_slice());
        proof {
            assert(space@ =~= seq![SPACE]);
            assert(newline@ =~= seq![LF]);
            assert(writer@ =~= old(writer)@ + self@.wire());
        }
        writer.len() - start
    }

    /// The identifier that the transaction is about.
    pub fn key(&self) -> (key: &[u8])
        ensures
            key@ == self@.key,
    {
        &self.key
    }

    /// The event.
    pub fn value(&self) -> (value: Value)
        ensures
            value == self@.value,
    {
        self.value
    }
}

/// What a parse error says.
pub enum ParseErrorView {
    /// The line holds no space; it is kept as it was read.
    BadSplit(Seq<u8>),
    /// The name of the event is not known; the name is kept.
    UnknownValue(Seq<u8>),
}

/// Why a line of the log could not be read.
#[derive(PartialEq, Eq, Debug)]
pub enum ParseError {
    /// The line holds no space; it is kept as it was read.
    BadSplit(Box<[u8]>),
    /// The name of the event is not known; the name is kept.
    UnknownValue(Box<[u8]>),
}

impl View for ParseError {
    type V = ParseErrorView;

    open spec fn view(&self) -> ParseErrorView {
        match self {
            ParseError::BadSplit(line) => ParseErrorView::BadSplit(line@),
            ParseError::UnknownValue(token) => ParseErrorView::UnknownValue(token@),
        }
    }
}

/// What the result of reading a line of the log says.
pub open spec fn parsed_view(parsed: Result<Transaction, ParseError>) -> Result<
    TransactionView,
    ParseErrorView,
> {
    match parsed {
        Ok(transaction) => Ok(transaction@),
        Err(error) => Err(error@),
    }
}

/// The names of the events differ from each other, and none holds a space.
pub proof fn lemma_token(value: Value)
    ensures
        value.token().len() > 0,
        !value.token().contains(SPACE),
        Value::from_token(value.token()) == Some(value),
{
    reveal_strlit("AUTO_RESET");
    reveal_strlit("AUTO_SHOW");
    reveal_strlit("MANUAL_HIDE");
    reveal_strlit("MANUAL_RESET");
    reveal_strlit("MANUAL_SHOW");
    vstd::string::is_ascii_spec_bytes("AUTO_RESET");
    vstd::string::is_ascii_spec_bytes("AUTO_SHOW");
    vstd::string::is_ascii_spec_bytes("MANUAL_HIDE");
    vstd::string::is_ascii_spec_bytes("MANUAL_RESET");
    vstd::string::is_ascii_spec_bytes("MANUAL_SHOW");
    assert(vstd::string::is_ascii("AUTO_RESET"));
    assert(vstd::string::is_ascii("AUTO_SHOW"));
    assert(vstd::string::is_ascii("MANUAL_HIDE"));
    assert(vstd::string::is_ascii("MANUAL_RESET"));
    assert(vstd::string::is_ascii("MANUAL_SHOW"));
    assert(Value::AutoReset.token()[5] != Value::AutoShow.token()[5]);
    assert(Value::AutoReset.token()[0] != Value::ManualHide.token()[0]);
    assert(Value::AutoReset.token()[0] != Value::ManualReset.token()[0]);
    assert(Value::AutoReset.token()[0] != Value::ManualShow.token()[0]);
    assert(Value::AutoShow.token()[0] != Value::ManualHide.token()[0]);
    assert(Value::AutoShow.token()[0] != Value::ManualReset.token()[0]);
    assert(Value::AutoShow.token()[0] != Value::ManualShow.token()[0]);
    assert(Value::ManualHide.token()[7] != Value::ManualReset.token()[7]);
    assert(Value::ManualHide.token()[7] != Value::ManualShow.token()[7]);
    assert(Value::ManualReset.token()[7] != Value::ManualShow.token()[7]);
}

/// A transaction whose identifier holds no space, written and read back, is
/// the same transaction.
pub proof fn lemma_round_trip(transaction: TransactionView)
    requires
        transaction.well_formed(),
    ensures
        TransactionView::parse(transaction.text()) == Ok::<TransactionView, ParseErrorView>(
            transaction,
        ),
{
    let line = transaction.text();
    let space = transaction.key.len() as int;
    lemma_token(transaction.value);
    assert forall|i: int| 0 <= i < space implies line[i] != SPACE by {
        assert(transaction.key.contains(line[i]));
    }
    lemma_first_index(line, SPACE, space);
    assert(line.subrange(0, space) =~= transaction.key);
    assert(line.subrange(space + 1, line.len() as int) =~= transaction.value.token());
}

/// Whether an identifier is shown, hidden, or neither.
#[derive(PartialEq, Eq, Structural, Debug, Clone, Copy)]
pub enum ShowHideState {
    /// The list holds a line that shows the identifier.
    Shown,
    /// The list holds a line that hides the identifier.
    Hidden,
    /// The list holds no line for the identifier.
    Default,
}

/// What is known of an identifier: how often it was shown since it was last
/// hidden, and its state.
pub struct ShowHideCountView {
    pub count: nat,
    pub state: ShowHideState,
}

impl ShowHideCountView {
    /// What is known of an identifier after one more transaction. `prior` is
    /// what was known before, and `None` for an identifier not seen before,
    /// whose count starts at zero.
    ///
    /// A hide or a reset by the user sets the count to zero. What the tool did
    /// itself, a reset or a show, leaves the count as it is. Only a show by
    /// the user adds one to it.
    pub open spec fn after(prior: Option<ShowHideCountView>, event: Value) -> ShowHideCountView {
        let count = match prior {
            Some(known) => known.count,
            None => 0,
        };
        match event {
            Value::ManualHide => ShowHideCountView { count: 0, state: ShowHideState::Hidden },
            Value::ManualReset => ShowHideCountView { count: 0, state: ShowHideState::Default },
            Value::AutoReset => ShowHideCountView { count, state: ShowHideState::Default },
            Value::AutoShow => ShowHideCountView { count, state: ShowHideState::Shown },
            Value::ManualShow => ShowHideCountView {
                count: count + 1,
                state: ShowHideState::Shown,
            },
        }
    }
}

/// Current state for a user key, calculated by scanning over the transaction
/// log linearly.
#[derive(PartialEq, Eq, Debug, Clone, Copy)]
pub struct ShowHideCount {
    /// running count of shows since last hide
    count: u32,
    /// current state for this user key
    state: ShowHideState,
}

impl View for ShowHideCount {
    type V = ShowHideCountView;

    closed spec fn view(&self) -> ShowHideCountView {
        ShowHideCountView { count: self.count as nat, state: self.state }
    }
}

impl ShowHideCount {
    /// An identifier that was shown `count` times and is in `state`.
    pub fn new(count: u32, state: ShowHideState) -> (known: Self)
        ensures
            known@ == (ShowHideCountView { count: count as nat, state }),
    {
        Self { count, state }
    }

    /// Reset the running shows-since-last-hide count and set the state
    pub fn reset(&mut self, state: ShowHideState)
        ensures
            final(self)@ == (ShowHideCountView { count: 0, state }),
    {
        self.count = 0;
        self.state = state;
    }

    /// Increment the running shows-since-last-hide count and set the state
    pub fn increment(&mut self, state: ShowHideState)
        requires
            old(self)@.count < u32::MAX,
        ensures
            final(self)@ == (ShowHideCountView { count: old(self)@.count + 1, state }),
    {
        self.count += 1;
        self.state = state;
    }

    /// Set the state and leave the count as it is
    pub fn set_state(&mut self, state: ShowHideState)
        ensures
            final(self)@ == (ShowHideCountView { count: old(self)@.count, state }),
    {
        self.state = state;
    }

    /// What is known after one more transaction.
    pub fn apply(&mut self, event: Value)
        requires
            event == Value::ManualShow ==> old(self)@.count < u32::MAX,
        ensures
            final(self)@ == ShowHideCountView::after(Some(old(self)@), event),
    {
        match event {
            Value::AutoReset => self.set_state(ShowHideState::Default),
            Value::AutoShow => self.set_state(ShowHideState::Shown),
            Value::ManualHide => self.reset(ShowHideState::Hidden),
            Value::ManualReset => self.reset(ShowHideState::Default),
            Value::ManualShow => self.increment(ShowHideState::Shown),
        }
    }

    /// What is known of an identifier after its first transaction.
    pub fn first(event: Value) -> (known: Self)
        ensures
            known@ == ShowHideCountView::after(None, event),
    {
        match event {
            Value::AutoReset => ShowHideCount::new(0, ShowHideState::Default),
            Value::AutoShow => ShowHideCount::new(0, ShowHideState::Shown),
            Value::ManualHide => ShowHideCount::new(0, ShowHideState::Hidden),
            Value::ManualReset => ShowHideCount::new(0, ShowHideState::Default),
            Value::ManualShow => ShowHideCount::new(1, ShowHideState::Shown),
        }
    }

    /// Number of shows since last hide
    pub fn count(&self) -> (count: u32)
        ensures
            count == self@.count,
    {
        self.count
    }

    /// Is this user key shown?
    pub fn is_shown(&self) -> (shown: bool)
        ensures
            shown == (self@.state == ShowHideState::Shown),
    {
        matches!(self.state, ShowHideState::Shown)
    }

    /// Is this user key hidden?
    pub fn is_hidden(&self) -> (hidden: bool)
        ensures
            hidden == (self@.state == ShowHideState::Hidden),
    {
        matches!(self.state, ShowHideState::Hidden)
    }

    /// Is this user key at the default (aka unset) show/hide state?
    pub fn is_default(&self) -> (unset: bool)
        ensures
            unset == (self@.state == ShowHideState::Default),
    {
        matches!(self.state, ShowHideState::Default)
    }
}

/// The count falls to zero on a hide or a reset by the user, rises by one on
/// a show by the user, and is left alone by what the tool did itself.
pub proof fn lemma_count_moves(prior: ShowHideCountView, event: Value)
    ensures
        ({
            let next = ShowHideCountView::after(Some(prior), event);
            &&& (event == Value::ManualHide || event == Value::ManualReset) ==> next.count == 0
            &&& (event == Value::AutoReset || event == Value::AutoShow) ==> next.count
                == prior.count
            &&& event == Value::ManualShow ==> next.count == prior.count + 1
            &&& next.count > prior.count ==> event == Value::ManualShow
            &&& next.state == ShowHideState::Hidden ==> next.count == 0
        }),
{
}

} // verus!
