//! The transaction log replayed into one state per identifier.
//!
//! A history holds each identifier that the log names once, in the order in
//! which the log first names them, with what is known of it after the last
//! transaction that names it.
//!
//! A line of the log that cannot be read does not stop the replay. It is
//! passed over, and its error is handed back to be put on record.

use crate::scan::{bytes_eq, to_boxed};
use crate::transaction::{
    ParseError, ParseErrorView, ShowHideCount, ShowHideCountView, ShowHideState, Transaction,
    TransactionView, Value,
};
use vstd::prelude::*;

verus! {

/// What a history says: the identifiers in the order in which they were
/// first seen, each with what is known of it.
pub type HistoryView = Seq<(Seq<u8>, ShowHideCountView)>;

/// The identifiers of a history, in its order.
pub open spec fn keys(slots: HistoryView) -> Seq<Seq<u8>> {
    slots.map_values(|slot: (Seq<u8>, ShowHideCountView)| slot.0)
}

/// No identifier stands twice in the history.
pub open spec fn distinct(slots: HistoryView) -> bool {
    keys(slots).no_duplicates()
}

/// Where `key` stands in the history.
pub open spec fn position(slots: HistoryView, key: Seq<u8>) -> Option<int> {
    keys(slots).index_of_first(key)
}

/// What the history knows of `key`.
pub open spec fn lookup(slots: HistoryView, key: Seq<u8>) -> Option<ShowHideCountView> {
    match position(slots, key) {
        Some(at) => Some(slots[at].1),
        None => None,
    }
}

/// The history without `key`; the others keep their order.
pub open spec fn without(slots: HistoryView, key: Seq<u8>) -> HistoryView {
    match position(slots, key) {
        Some(at) => slots.remove(at),
        None => slots,
    }
}

/// The history after one more transaction: an identifier that it holds
/// keeps its place, a new one goes to the end.
pub open spec fn record(slots: HistoryView, transaction: TransactionView) -> HistoryView {
    match position(slots, transaction.key) {
        Some(at) => slots.update(
            at,
            (transaction.key, ShowHideCountView::after(Some(slots[at].1), transaction.value)),
        ),
        None => slots.push((transaction.key, ShowHideCountView::after(None, transaction.value))),
    }
}

/// The history that a log gives when it is replayed from its first
/// transaction to its last.
pub open spec fn replay(log: Seq<TransactionView>) -> HistoryView
    decreases log.len(),
{
    if log.len() == 0 {
        Seq::empty()
    } else {
        record(replay(log.drop_last()), log.last())
    }
}

/// What a log says of one identifier: the transactions that name it,
/// applied in the order of the log.
pub open spec fn state_of(log: Seq<TransactionView>, key: Seq<u8>) -> Option<ShowHideCountView>
    decreases log.len(),
{
    if log.len() == 0 {
        None
    } else {
        let earlier = state_of(log.drop_last(), key);
        if log.last().key == key {
            Some(ShowHideCountView::after(earlier, log.last().value))
        } else {
            earlier
        }
    }
}

/// The transactions that the lines of a log hold, in the order of the log.
/// A line that cannot be read holds none.
pub open spec fn readable(lines: Seq<Seq<u8>>) -> Seq<TransactionView>
    decreases lines.len(),
{
    if lines.len() == 0 {
        Seq::empty()
    } else {
        let earlier = readable(lines.drop_last());
        match TransactionView::parse(lines.last()) {
            Ok(transaction) => earlier.push(transaction),
            Err(_) => earlier,
        }
    }
}

/// The errors of the lines of a log that cannot be read, in the order of the
/// log.
pub open spec fn unreadable(lines: Seq<Seq<u8>>) -> Seq<ParseErrorView>
    decreases lines.len(),
{
    if lines.len() == 0 {
        Seq::empty()
    } else {
        let earlier = unreadable(lines.drop_last());
        match TransactionView::parse(lines.last()) {
            Ok(_) => earlier,
            Err(error) => earlier.push(error),
        }
    }
}

/// No count in the history is above `bound`.
pub open spec fn bounded(slots: HistoryView, bound: int) -> bool {
    forall|i: int| 0 <= i < slots.len() ==> (#[trigger] slots[i]).1.count <= bound
}

/// The place that `position` names holds the identifier, and no place before
/// it does.
pub proof fn lemma_position(slots: HistoryView, key: Seq<u8>)
    ensures
        match position(slots, key) {
            Some(at) => {
                &&& 0 <= at < slots.len()
                &&& slots[at].0 == key
                &&& forall|i: int| 0 <= i < at ==> slots[i].0 != key
            },
            None => forall|i: int| 0 <= i < slots.len() ==> slots[i].0 != key,
        },
{
    let names = keys(slots);
    names.index_of_first_ensures(key);
    match position(slots, key) {
        Some(at) => {
            assert(names[at] == slots[at].0);
            assert forall|i: int| 0 <= i < at implies slots[i].0 != key by {
                assert(names[i] == slots[i].0);
            }
        },
        None => {
            assert forall|i: int| 0 <= i < slots.len() implies slots[i].0 != key by {
                assert(names[i] == slots[i].0);
                assert(names.contains(names[i]));
            }
        },
    }
}

/// A place that holds the identifier, with no such place before it, is the
/// one that `position` names.
pub proof fn lemma_position_is(slots: HistoryView, key: Seq<u8>, at: int)
    requires
        0 <= at < slots.len(),
        slots[at].0 == key,
        forall|i: int| 0 <= i < at ==> slots[i].0 != key,
    ensures
        position(slots, key) == Some(at),
{
    lemma_position(slots, key);
}

/// Recording a transaction keeps every identifier in the history once.
pub proof fn lemma_record_distinct(slots: HistoryView, transaction: TransactionView)
    requires
        distinct(slots),
    ensures
        distinct(record(slots, transaction)),
{
    lemma_position(slots, transaction.key);
    let next = record(slots, transaction);
    assert forall|i: int, j: int|
        0 <= i < keys(next).len() && 0 <= j < keys(next).len() && i != j implies keys(next)[i]
        != keys(next)[j] by {
        match position(slots, transaction.key) {
            Some(at) => {
                assert(keys(next)[i] == keys(slots)[i]);
                assert(keys(next)[j] == keys(slots)[j]);
            },
            None => {
                if i < slots.len() {
                    assert(keys(next)[i] == keys(slots)[i]);
                }
                if j < slots.len() {
                    assert(keys(next)[j] == keys(slots)[j]);
                }
            },
        }
    }
}

/// Taking an identifier out keeps every other identifier in the history once.
pub proof fn lemma_without_distinct(slots: HistoryView, key: Seq<u8>)
    requires
        distinct(slots),
    ensures
        distinct(without(slots, key)),
        lookup(without(slots, key), key) is None,
{
    lemma_position(slots, key);
    let rest = without(slots, key);
    match position(slots, key) {
        Some(at) => {
            assert forall|i: int, j: int|
                0 <= i < keys(rest).len() && 0 <= j < keys(rest).len() && i != j implies keys(
                rest,
            )[i] != keys(rest)[j] by {
                let from_i = if i < at {
                    i
                } else {
                    i + 1
                };
                let from_j = if j < at {
                    j
                } else {
                    j + 1
                };
                assert(keys(rest)[i] == keys(slots)[from_i]);
                assert(keys(rest)[j] == keys(slots)[from_j]);
            }
            assert forall|i: int| 0 <= i < rest.len() implies rest[i].0 != key by {
                let from = if i < at {
                    i
                } else {
                    i + 1
                };
                assert(rest[i] == slots[from]);
                assert(keys(slots)[from] == slots[from].0);
                assert(keys(slots)[at] == slots[at].0);
            }
        },
        None => {},
    }
    lemma_position(rest, key);
}

/// Taking an identifier out changes nothing of what is known of another.
pub proof fn lemma_without_other(slots: HistoryView, key: Seq<u8>, other: Seq<u8>)
    requires
        other != key,
    ensures
        lookup(without(slots, key), other) == lookup(slots, other),
{
    lemma_position(slots, key);
    lemma_position(slots, other);
    let rest = without(slots, key);
    match position(slots, key) {
        Some(at) => {
            match position(slots, other) {
                Some(place) => {
                    let moved = if place < at {
                        place
                    } else {
                        place - 1
                    };
                    assert(rest[moved] == slots[place]);
                    assert forall|i: int| 0 <= i < moved implies rest[i].0 != other by {
                        let from = if i < at {
                            i
                        } else {
                            i + 1
                        };
                        assert(rest[i] == slots[from]);
                    }
                    lemma_position_is(rest, other, moved);
                },
                None => {
                    assert forall|i: int| 0 <= i < rest.len() implies rest[i].0 != other by {
                        let from = if i < at {
                            i
                        } else {
                            i + 1
                        };
                        assert(rest[i] == slots[from]);
                    }
                    lemma_position(rest, other);
                },
            }
        },
        None => {},
    }
}

/// What a history knows of an identifier after one more transaction: the
/// transaction applied, where it names the identifier, and what was known
/// before, where it names another.
pub proof fn lemma_record_lookup(slots: HistoryView, transaction: TransactionView, key: Seq<u8>)
    ensures
        lookup(record(slots, transaction), key) == if transaction.key == key {
            Some(ShowHideCountView::after(lookup(slots, key), transaction.value))
        } else {
            lookup(slots, key)
        },
{
    lemma_position(slots, transaction.key);
    lemma_position(slots, key);
    let next = record(slots, transaction);
    match position(slots, key) {
        Some(place) => {
            assert(next[place].0 == key);
            assert forall|i: int| 0 <= i < place implies next[i].0 != key by {
                assert(slots[i].0 != key);
            }
            lemma_position_is(next, key, place);
        },
        None => {
            if transaction.key == key {
                let place = slots.len() as int;
                assert(next[place].0 == key);
                lemma_position_is(next, key, place);
            } else {
                assert forall|i: int| 0 <= i < next.len() implies next[i].0 != key by {
                    if i < slots.len() {
                        assert(slots[i].0 != key);
                    }
                }
                lemma_position(next, key);
            }
        },
    }
}

/// A replayed log names every identifier once.
pub proof fn lemma_replay_distinct(log: Seq<TransactionView>)
    ensures
        distinct(replay(log)),
    decreases log.len(),
{
    if log.len() > 0 {
        lemma_replay_distinct(log.drop_last());
        lemma_record_distinct(replay(log.drop_last()), log.last());
    }
}

/// What a replayed log knows of an identifier is what the transactions that
/// name it say, applied in the order of the log; it knows nothing of an
/// identifier that no transaction names.
pub proof fn lemma_replay_state(log: Seq<TransactionView>, key: Seq<u8>)
    ensures
        lookup(replay(log), key) == state_of(log, key),
    decreases log.len(),
{
    if log.len() > 0 {
        lemma_replay_state(log.drop_last(), key);
        lemma_record_lookup(replay(log.drop_last()), log.last(), key);
    } else {
        lemma_position(replay(log), key);
    }
}

/// The history depends on nothing but the transactions and their order: the
/// same log replayed twice gives the same history.
pub proof fn lemma_replay_deterministic(first: Seq<TransactionView>, second: Seq<TransactionView>)
    requires
        first.len() == second.len(),
        forall|i: int| 0 <= i < first.len() ==> first[i] == second[i],
    ensures
        replay(first) == replay(second),
        forall|key: Seq<u8>| lookup(replay(first), key) == lookup(replay(second), key),
{
    assert(first =~= second);
}

/// No count is above the number of transactions replayed, and an identifier
/// that is hidden has a count of zero.
pub proof fn lemma_replay_counts(log: Seq<TransactionView>)
    ensures
        bounded(replay(log), log.len() as int),
        forall|i: int|
            0 <= i < replay(log).len() && (#[trigger] replay(log)[i]).1.state
                == ShowHideState::Hidden ==> replay(log)[i].1.count == 0,
    decreases log.len(),
{
    if log.len() > 0 {
        lemma_replay_counts(log.drop_last());
        lemma_position(replay(log.drop_last()), log.last().key);
    }
}

/// The transaction log replayed: each identifier once, with its state.
pub struct History {
    slots: Vec<(Box<[u8]>, ShowHideCount)>,
}

/// What the slots of a history say.
spec fn slots_view(slots: Seq<(Box<[u8]>, ShowHideCount)>) -> HistoryView {
    slots.map_values(|slot: (Box<[u8]>, ShowHideCount)| (slot.0@, slot.1@))
}

impl View for History {
    type V = HistoryView;

    closed spec fn view(&self) -> HistoryView {
        slots_view(self.slots@)
    }
}

impl History {
    #[verifier::type_invariant]
    spec fn each_key_once(self) -> bool {
        distinct(self@)
    }

    /// Whether recording `transaction` keeps the count of its identifier
    /// within what a `u32` holds.
    pub open spec fn has_room_for(self, transaction: TransactionView) -> bool {
        transaction.value == Value::ManualShow ==> match lookup(self@, transaction.key) {
            Some(known) => known.count < u32::MAX,
            None => true,
        }
    }

    /// A history that knows no identifier.
    pub fn new() -> (history: Self)
        ensures
            history@ == Seq::<(Seq<u8>, ShowHideCountView)>::empty(),
    {
        let history = Self { slots: Vec::new() };
        assert(history@ =~= Seq::empty());
        history
    }

    /// The number of identifiers that the history knows.
    pub fn len(&self) -> (len: usize)
        ensures
            len == self@.len(),
            distinct(self@),
    {
        proof {
            use_type_invariant(self);
        }
        self.slots.len()
    }

    /// The identifier at place `at`, and what is known of it.
    pub fn slot(&self, at: usize) -> (slot: (&[u8], ShowHideCount))
        requires
            at < self@.len(),
        ensures
            slot.0@ == self@[at as int].0,
            slot.1@ == self@[at as int].1,
    {
        let slot = &self.slots[at];
        (&slot.0, slot.1)
    }

    fn find(&self, key: &[u8]) -> (found: Option<usize>)
        ensures
            match found {
                Some(at) => position(self@, key@) == Some(at as int) && at < self@.len(),
                None => position(self@, key@) is None,
            },
    {
        let mut at: usize = 0;
        while at < self.slots.len()
            invariant
                at <= self.slots@.len(),
                self@.len() == self.slots@.len(),
                forall|i: int| 0 <= i < at ==> self@[i].0 != key@,
            decreases self.slots@.len() - at,
        {
            if bytes_eq(&self.slots[at].0, key) {
                proof {
                    lemma_position_is(self@, key@, at as int);
                }
                return Some(at);
            }
            at += 1;
        }
        proof {
            lemma_position(self@, key@);
        }
        None
    }

    /// What the history knows of `key`.
    pub fn get(&self, key: &[u8]) -> (known: Option<ShowHideCount>)
        ensures
            match known {
                Some(count) => lookup(self@, key@) == Some(count@),
                None => lookup(self@, key@) is None,
            },
    {
        match self.find(key) {
            Some(at) => Some(self.slots[at].1),
            None => None,
        }
    }

    /// Takes `key` out of the history and hands back what was known of it.
    pub fn remove(&mut self, key: &[u8]) -> (known: Option<ShowHideCount>)
        ensures
            match known {
                Some(count) => lookup(old(self)@, key@) == Some(count@),
                None => lookup(old(self)@, key@) is None,
            },
            final(self)@ == without(old(self)@, key@),
            distinct(final(self)@),
    {
        proof {
            use_type_invariant(&*self);
            lemma_without_distinct(self@, key@);
        }
        match self.find(key) {
            Some(at) => {
                let mut slots = Vec::new();
                core::mem::swap(&mut self.slots, &mut slots);
                let slot = slots.remove(at);
                assert(slots_view(slots@) =~= old(self)@.remove(at as int));
                self.slots = slots;
                Some(slot.1)
            },
            None => None,
        }
    }

    /// Records one more transaction.
    pub fn record(&mut self, transaction: &Transaction)
        requires
            old(self).has_room_for(transaction@),
        ensures
            final(self)@ == record(old(self)@, transaction@),
            distinct(final(self)@),
    {
        proof {
            use_type_invariant(&*self);
            lemma_record_distinct(self@, transaction@);
        }
        let found = self.find(transaction.key());
        let mut slots = Vec::new();
        core::mem::swap(&mut self.slots, &mut slots);
        match found {
            Some(at) => {
                let slot = slots.remove(at);
                let key = slot.0;
                let mut count = slot.1;
                count.apply(transaction.value());
                slots.insert(at, (key, count));
                proof {
                    lemma_position(old(self)@, transaction@.key);
                    assert(slots@ =~= old(self).slots@.update(at as int, (key, count)));
                }
            },
            None => {
                let key = to_boxed(transaction.key());
                let count = ShowHideCount::first(transaction.value());
                slots.push((key, count));
            },
        }
        assert(slots_view(slots@) =~= record(old(self)@, transaction@));
        self.slots = slots;
    }
}

/// What the lines of a log say, each given as its bytes.
pub open spec fn lines_view(lines: Seq<Vec<u8>>) -> Seq<Seq<u8>> {
    lines.map_values(|line: Vec<u8>| line@)
}

/// What the errors of a vector say.
pub open spec fn errors_view(errors: Seq<ParseError>) -> Seq<ParseErrorView> {
    errors.map_values(|error: ParseError| error@)
}

/// What the replaying of a log gives: the history of the lines that can be
/// read, and the errors of the others. A log of more lines than a `u32`
/// counts gives nothing.
pub open spec fn replayed(lines: Seq<Seq<u8>>) -> Option<(HistoryView, Seq<ParseErrorView>)> {
    if lines.len() <= u32::MAX {
        Some((replay(readable(lines)), unreadable(lines)))
    } else {
        None
    }
}

/// What the result of replaying a log says.
pub open spec fn replayed_view(replayed: Option<(History, Vec<ParseError>)>) -> Option<
    (HistoryView, Seq<ParseErrorView>),
> {
    match replayed {
        Some((history, errors)) => Some((history@, errors_view(errors@))),
        None => None,
    }
}

/// Replays a transaction log, given as its lines without their line feeds.
/// A line that cannot be read is passed over: the lines behind it are
/// replayed all the same, and its error is handed back with the history, so
/// that it can be put on record.
///
/// A log of more lines than a `u32` counts is not replayed, as a count could
/// then leave its type.
pub fn read_log(lines: &Vec<Vec<u8>>) -> (replayed: Option<(History, Vec<ParseError>)>)
    ensures
        replayed_view(replayed) == self::replayed(lines_view(lines@)),
        replayed matches Some((history, _)) ==> distinct(history@),
{
    if lines.len() > u32::MAX as usize {
        return None;
    }
    let mut history = History::new();
    let mut errors: Vec<ParseError> = Vec::new();
    let ghost mut log: Seq<TransactionView> = Seq::empty();
    let mut at: usize = 0;
    proof {
        assert(lines_view(lines@).take(0) =~= Seq::empty());
        assert(errors_view(errors@) =~= Seq::empty());
    }
    while at < lines.len()
        invariant
            at <= lines@.len() <= u32::MAX,
            log.len() <= at,
            log == readable(lines_view(lines@).take(at as int)),
            errors_view(errors@) == unreadable(lines_view(lines@).take(at as int)),
            history@ == replay(log),
        decreases lines@.len() - at,
    {
        proof {
            let next = lines_view(lines@).take(at + 1);
            assert(next.drop_last() =~= lines_view(lines@).take(at as int));
            assert(next.last() == lines@[at as int]@);
        }
        match Transaction::parse(lines[at].as_slice()) {
            Ok(transaction) => {
                proof {
                    lemma_replay_counts(log);
                    lemma_position(history@, transaction@.key);
                    assert(log.push(transaction@).drop_last() =~= log);
                }
                history.record(&transaction);
                proof {
                    log = log.push(transaction@);
                }
            },
            Err(error) => {
                let ghost before = errors@;
                errors.push(error);
                assert(errors_view(errors@) =~= errors_view(before).push(error@));
            },
        }
        at += 1;
    }
    proof {
        assert(lines_view(lines@).take(at as int) =~= lines_view(lines@));
        lemma_replay_distinct(log);
    }
    Some((history, errors))
}

/// Two logs of the same lines give the same history and the same errors:
/// nothing but the lines and their order decides what a replay gives.
pub proof fn lemma_replayed_deterministic(first: Seq<Seq<u8>>, second: Seq<Seq<u8>>)
    requires
        first.len() == second.len(),
        forall|i: int| 0 <= i < first.len() ==> first[i] == second[i],
    ensures
        replayed(first) == replayed(second),
{
    assert(first =~= second);
}

/// A line that cannot be read changes nothing of what the lines before and
/// behind it give.
pub proof fn lemma_unreadable_line_skipped(
    before: Seq<Seq<u8>>,
    line: Seq<u8>,
    after: Seq<Seq<u8>>,
)
    requires
        TransactionView::parse(line) is Err,
    ensures
        readable(before + seq![line] + after) == readable(before + after),
    decreases after.len(),
{
    if after.len() == 0 {
        assert(before + seq![line] + after =~= before.push(line));
        assert(before.push(line).drop_last() =~= before);
        assert(before + after =~= before);
    } else {
        let with = before + seq![line] + after;
        assert(with.drop_last() =~= before + seq![line] + after.drop_last());
        assert((before + after).drop_last() =~= before + after.drop_last());
        lemma_unreadable_line_skipped(before, line, after.drop_last());
    }
}

} // verus!
