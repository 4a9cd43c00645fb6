//! The log and the list agree after a run.
//!
//! A run logs whatever differs between the list and the history. So the log,
//! with the transactions of the run at its end, replays to the state in
//! which the run left the list: an identifier is hidden or shown in the one
//! exactly if it is so in the other.

use crate::history::{
    distinct, keys, lemma_position, lemma_position_is, lemma_replay_distinct, lemma_replay_state,
    lemma_without_distinct, lemma_without_other, lookup, position, replay, state_of, HistoryView,
};
use crate::local_player_moderations::Value;
use crate::reconcile::{
    after_events, is_due, is_gone, judge, logged, pass, resets, revived, shows, start, ItemView,
};
use crate::transaction::{ShowHideCountView, ShowHideState, TransactionView, Value as Event};
use vstd::prelude::*;

verus! {

/// The events that a log holds for one identifier, in the order of the log.
pub open spec fn events_of(log: Seq<TransactionView>, key: Seq<u8>) -> Seq<Event>
    decreases log.len(),
{
    if log.len() == 0 {
        Seq::empty()
    } else {
        let earlier = events_of(log.drop_last(), key);
        if log.last().key == key {
            earlier.push(log.last().value)
        } else {
            earlier
        }
    }
}

/// The value of the line that a list holds for an identifier: that of the
/// last such line, where there are several.
pub open spec fn line_for(items: Seq<ItemView>, key: Seq<u8>) -> Option<Value>
    decreases items.len(),
{
    if items.len() == 0 {
        None
    } else {
        match items.last() {
            Ok(line) if line.key == key => Some(line.value),
            _ => line_for(items.drop_last(), key),
        }
    }
}

/// The list holds no identifier twice.
pub open spec fn each_once(items: Seq<ItemView>) -> bool
    decreases items.len(),
{
    if items.len() == 0 {
        true
    } else {
        &&& each_once(items.drop_last())
        &&& items.last() matches Ok(line) ==> line_for(items.drop_last(), line.key) is None
    }
}

/// The events of two logs, one behind the other, are the events of the
/// first and then those of the second.
pub proof fn lemma_events_of_add(
    first: Seq<TransactionView>,
    second: Seq<TransactionView>,
    key: Seq<u8>,
)
    ensures
        events_of(first + second, key) == events_of(first, key) + events_of(second, key),
    decreases second.len(),
{
    if second.len() == 0 {
        assert(first + second =~= first);
        assert(events_of(first, key) + events_of(second, key) =~= events_of(first, key));
    } else {
        assert((first + second).drop_last() =~= first + second.drop_last());
        lemma_events_of_add(first, second.drop_last(), key);
        assert(events_of(first + second, key) =~= events_of(first, key) + events_of(second, key));
    }
}

/// Events that follow each other are applied one after the other.
pub proof fn lemma_after_events_add(
    prior: Option<ShowHideCountView>,
    first: Seq<Event>,
    second: Seq<Event>,
)
    ensures
        after_events(prior, first + second) == after_events(after_events(prior, first), second),
    decreases second.len(),
{
    if second.len() == 0 {
        assert(first + second =~= first);
    } else {
        assert((first + second).drop_last() =~= first + second.drop_last());
        lemma_after_events_add(prior, first, second.drop_last());
    }
}

/// What a log says of an identifier is what its events for the identifier
/// say, applied to an identifier of which nothing is known.
pub proof fn lemma_state_of_events(log: Seq<TransactionView>, key: Seq<u8>)
    ensures
        state_of(log, key) == after_events(None, events_of(log, key)),
    decreases log.len(),
{
    if log.len() > 0 {
        lemma_state_of_events(log.drop_last(), key);
        if log.last().key == key {
            let events = events_of(log, key);
            assert(events.drop_last() =~= events_of(log.drop_last(), key));
        }
    }
}

/// Transactions that are logged for an identifier are events of that
/// identifier and of no other.
pub proof fn lemma_events_of_logged(logged_for: Seq<u8>, events: Seq<Event>, key: Seq<u8>)
    ensures
        events_of(logged(logged_for, events), key) == if logged_for == key {
            events
        } else {
            Seq::empty()
        },
    decreases events.len(),
{
    let log = logged(logged_for, events);
    if events.len() > 0 {
        assert(log.drop_last() =~= logged(logged_for, events.drop_last()));
        lemma_events_of_logged(logged_for, events.drop_last(), key);
        if logged_for == key {
            assert(events_of(log, key) =~= events);
        }
    } else {
        assert(events_of(log, key) =~= Seq::empty());
    }
}

/// What a history knows of an identifier is what its last place knows,
/// where that holds the identifier, and else what the places before it know.
pub proof fn lemma_lookup_last(history: HistoryView, key: Seq<u8>)
    requires
        history.len() > 0,
        distinct(history),
    ensures
        distinct(history.drop_last()),
        history.last().0 == key ==> lookup(history.drop_last(), key) is None,
        lookup(history, key) == if history.last().0 == key {
            Some(history.last().1)
        } else {
            lookup(history.drop_last(), key)
        },
{
    let earlier = history.drop_last();
    let last = history.len() - 1;
    assert(keys(earlier) =~= keys(history).drop_last());
    assert forall|i: int, j: int|
        0 <= i < keys(earlier).len() && 0 <= j < keys(earlier).len() && i != j implies keys(
        earlier,
    )[i] != keys(earlier)[j] by {
        assert(keys(earlier)[i] == keys(history)[i]);
        assert(keys(earlier)[j] == keys(history)[j]);
    }
    lemma_position(history, key);
    lemma_position(earlier, key);
    if history.last().0 == key {
        assert forall|i: int| 0 <= i < last implies history[i].0 != key by {
            assert(keys(history)[i] == history[i].0);
            assert(keys(history)[last] == history[last].0);
        }
        lemma_position_is(history, key, last);
        assert forall|i: int| 0 <= i < earlier.len() implies earlier[i].0 != key by {
            assert(earlier[i] == history[i]);
        }
    } else {
        match position(earlier, key) {
            Some(at) => {
                assert(history[at] == earlier[at]);
                assert forall|i: int| 0 <= i < at implies history[i].0 != key by {
                    assert(history[i] == earlier[i]);
                }
                lemma_position_is(history, key, at);
            },
            None => {
                assert forall|i: int| 0 <= i < history.len() implies history[i].0 != key by {
                    if i < last {
                        assert(history[i] == earlier[i]);
                    }
                }
            },
        }
    }
}

/// The resets at the end of a run hold one event for an identifier that the
/// history knows and that is gone, and none for any other.
pub proof fn lemma_events_of_resets(history: HistoryView, key: Seq<u8>)
    requires
        distinct(history),
    ensures
        events_of(resets(history), key) == if lookup(history, key) matches Some(known) && is_gone(
            (key, known),
        ) {
            seq![Event::ManualReset]
        } else {
            Seq::empty()
        },
    decreases history.len(),
{
    if history.len() == 0 {
        lemma_position(history, key);
    } else {
        lemma_lookup_last(history, key);
        lemma_events_of_resets(history.drop_last(), key);
        let earlier = resets(history.drop_last());
        if is_gone(history.last()) {
            assert(resets(history).drop_last() =~= earlier);
            if history.last().0 == key {
                assert(events_of(resets(history), key) =~= seq![Event::ManualReset]);
            }
        }
    }
}

/// The shows at the end of a run hold one event for an identifier that the
/// history knows and that is due, and none for any other; and those are the
/// identifiers that come back.
pub proof fn lemma_events_of_shows(threshold: nat, history: HistoryView, key: Seq<u8>)
    requires
        distinct(history),
    ensures
        events_of(shows(revived(threshold, history)), key) == if lookup(history, key) matches Some(
            known,
        ) && is_due(threshold, (key, known)) {
            seq![Event::AutoShow]
        } else {
            Seq::empty()
        },
        revived(threshold, history).contains(key) <==> (lookup(history, key) matches Some(known)
            && is_due(threshold, (key, known))),
    decreases history.len(),
{
    let back = revived(threshold, history);
    if history.len() == 0 {
        lemma_position(history, key);
        assert(shows(back) =~= Seq::empty());
    } else {
        lemma_lookup_last(history, key);
        lemma_events_of_shows(threshold, history.drop_last(), key);
        let earlier = revived(threshold, history.drop_last());
        if is_due(threshold, history.last()) {
            assert(back.drop_last() =~= earlier);
            assert(shows(back).drop_last() =~= shows(earlier));
            assert(back.last() == history.last().0);
            if history.last().0 == key {
                assert(events_of(shows(back), key) =~= seq![Event::AutoShow]);
            } else if back.contains(key) {
                let at = choose|i: int| 0 <= i < back.len() && back[i] == key;
                assert(earlier[at] == key);
            }
            if earlier.contains(key) {
                let at = choose|i: int| 0 <= i < earlier.len() && earlier[i] == key;
                assert(back[at] == key);
            }
        }
    }
}

/// What a pass over a list that holds no identifier twice leaves behind.
/// An identifier that the list holds has left the history, and the others
/// are known as before. The transactions found hold, for an identifier of
/// the list, the events that were decided for its line, and nothing for any
/// other. And the lines that stay are those for which that was decided.
pub proof fn lemma_pass(threshold: nat, history: HistoryView, items: Seq<ItemView>, key: Seq<u8>)
    requires
        distinct(history),
        each_once(items),
    ensures
        ({
            let met = pass(start(threshold, history), items);
            let prior = lookup(history, key);
            &&& met.state.threshold == threshold
            &&& distinct(met.state.history)
            &&& match line_for(items, key) {
                Some(value) => {
                    &&& lookup(met.state.history, key) is None
                    &&& events_of(met.state.pending, key) == judge(threshold, prior, value).events
                    &&& line_for(met.kept, key) == if judge(
                        threshold,
                        prior,
                        value,
                    ).verdict.retains() {
                        Some(value)
                    } else {
                        None
                    }
                },
                None => {
                    &&& lookup(met.state.history, key) == prior
                    &&& events_of(met.state.pending, key) == Seq::<Event>::empty()
                    &&& line_for(met.kept, key) is None
                },
            }
        }),
    decreases items.len(),
{
    if items.len() > 0 {
        let earlier = pass(start(threshold, history), items.drop_last());
        lemma_pass(threshold, history, items.drop_last(), key);
        match items.last() {
            Ok(line) => {
                lemma_pass(threshold, history, items.drop_last(), line.key);
                let decided = judge(threshold, lookup(earlier.state.history, line.key), line.value);
                lemma_without_distinct(earlier.state.history, line.key);
                lemma_events_of_add(earlier.state.pending, logged(line.key, decided.events), key);
                lemma_events_of_logged(line.key, decided.events, key);
                if line.key == key {
                    assert(events_of(earlier.state.pending, key) + decided.events
                        =~= decided.events);
                } else {
                    lemma_without_other(earlier.state.history, line.key, key);
                    assert(events_of(earlier.state.pending, key) + Seq::<Event>::empty()
                        =~= events_of(earlier.state.pending, key));
                }
                if decided.verdict.retains() {
                    assert(earlier.kept.push(items.last()).drop_last() =~= earlier.kept);
                }
            },
            Err(_) => {
                assert(earlier.kept.push(items.last()).drop_last() =~= earlier.kept);
            },
        }
    } else {
        assert(events_of(Seq::<TransactionView>::empty(), key) =~= Seq::<Event>::empty());
    }
}

/// The state in which a line of the list shows its identifier to be.
pub open spec fn state_shown_by(value: Value) -> ShowHideState {
    match value {
        Value::Hide => ShowHideState::Hidden,
        Value::Show => ShowHideState::Shown,
    }
}

/// The log and the list agree after a run. Take a log, and a list that holds
/// no identifier twice; reconcile the list with the history that the log
/// gives, and put the transactions of the run at the end of the log. Then
/// the log says of every identifier what the list says of it after the run:
/// an identifier whose line stays is hidden or shown as its line has it, one
/// that comes back is shown, and any other is at its default or not known.
pub proof fn lemma_log_follows_list(
    threshold: nat,
    log: Seq<TransactionView>,
    items: Seq<ItemView>,
    key: Seq<u8>,
)
    requires
        each_once(items),
    ensures
        ({
            let met = pass(start(threshold, replay(log)), items);
            let known = state_of(log + met.state.transactions(), key);
            match line_for(met.kept, key) {
                Some(value) => {
                    &&& known matches Some(now) && now.state == state_shown_by(value)
                    &&& !revived(threshold, met.state.history).contains(key)
                },
                None => if revived(threshold, met.state.history).contains(key) {
                    known matches Some(now) && now.state == ShowHideState::Shown
                } else {
                    known matches Some(now) ==> now.state == ShowHideState::Default
                },
            }
        }),
{
    let history = replay(log);
    let met = pass(start(threshold, history), items);
    let rest = met.state.history;
    let prior = lookup(history, key);
    lemma_replay_distinct(log);
    lemma_replay_state(log, key);
    lemma_pass(threshold, history, items, key);
    lemma_events_of_resets(rest, key);
    lemma_events_of_shows(threshold, rest, key);

    let found = met.state.pending;
    let gone = resets(rest);
    let back = shows(revived(threshold, rest));
    let added = met.state.transactions();
    lemma_events_of_add(found, gone, key);
    lemma_events_of_add(found + gone, back, key);
    lemma_events_of_add(log, added, key);
    lemma_state_of_events(log, key);
    lemma_state_of_events(log + added, key);
    lemma_after_events_add(None, events_of(log, key), events_of(added, key));
    let events = events_of(added, key);
    assert(state_of(log + added, key) == after_events(prior, events));
    reveal_with_fuel(after_events, 3);
    match line_for(items, key) {
        Some(value) => {
            let decided = judge(threshold, prior, value);
            assert(events =~= decided.events);
            lemma_after_decided(threshold, prior, value);
        },
        None => {
            if prior matches Some(known) && is_gone((key, known)) {
                assert(events =~= seq![Event::ManualReset]);
                assert(events.drop_last() =~= Seq::empty());
            } else if prior matches Some(known) && is_due(threshold, (key, known)) {
                assert(events =~= seq![Event::AutoShow]);
                assert(events.drop_last() =~= Seq::empty());
            } else {
                assert(events =~= Seq::empty());
            }
        },
    }
}

/// The events that are decided for a line leave its identifier in the state
/// that the line shows, where the line stays, and at its default, where the
/// line is taken out.
pub proof fn lemma_after_decided(threshold: nat, prior: Option<ShowHideCountView>, value: Value)
    ensures
        ({
            let decided = judge(threshold, prior, value);
            let known = after_events(prior, decided.events);
            known matches Some(now) && now.state == if decided.verdict.retains() {
                state_shown_by(value)
            } else {
                ShowHideState::Default
            }
        }),
{
    let events = judge(threshold, prior, value).events;
    reveal_with_fuel(after_events, 3);
    if events.len() == 1 {
        assert(events.drop_last() =~= Seq::empty());
    } else if events.len() == 2 {
        assert(events.drop_last().drop_last() =~= Seq::empty());
    }
}

} // verus!
