//! A run right after a run changes nothing.
//!
//! When a run has ended, the log knows the list as the run left it. So a
//! second run, with the same threshold and with the list untouched in
//! between, finds nothing to log, takes no line out and brings none back.

use crate::agreement::{
    each_once, events_of, lemma_after_events_add, lemma_events_of_add, lemma_events_of_resets,
    lemma_events_of_shows, lemma_lookup_last, lemma_pass, lemma_state_of_events, line_for,
    state_shown_by,
};
use crate::history::{
    distinct, lemma_replay_distinct, lemma_replay_state, lookup, replay, state_of, HistoryView,
};
use crate::local_player_moderations::{LineView, ParseErrorView, Value};
use crate::reconcile::{
    after_events, is_due, is_gone, judge, pass, resets, revived, shows, start, total_shows,
    verdict_at, ItemView, ReconcilerView,
};
use crate::transaction::{ShowHideCountView, ShowHideState, TransactionView, Value as Event};
use vstd::prelude::*;

verus! {

/// The lines of a list that show each of `keys`.
pub open spec fn shown_items(keys: Seq<Seq<u8>>) -> Seq<ItemView> {
    keys.map_values(
        |key: Seq<u8>| Ok::<LineView, ParseErrorView>(LineView { key, value: Value::Show }),
    )
}

/// The list as a run leaves it: the lines that stay, and behind them a line
/// for each identifier that comes back.
pub open spec fn list_after(threshold: nat, history: HistoryView, items: Seq<ItemView>) -> Seq<
    ItemView,
> {
    let met = pass(start(threshold, history), items);
    met.kept + shown_items(revived(threshold, met.state.history))
}

/// The log as a run leaves it: the log as it was, and behind it the
/// transactions of the run.
pub open spec fn log_after(
    threshold: nat,
    log: Seq<TransactionView>,
    items: Seq<ItemView>,
) -> Seq<TransactionView> {
    log + pass(start(threshold, replay(log)), items).state.transactions()
}

/// A log that holds no event for any identifier holds no transaction.
pub proof fn lemma_no_events(log: Seq<TransactionView>)
    requires
        forall|key: Seq<u8>| #[trigger] events_of(log, key).len() == 0,
    ensures
        log.len() == 0,
{
    if log.len() > 0 {
        let key = log.last().key;
        assert(events_of(log, key).len() > 0);
    }
}

/// The events that are decided for a line leave its identifier in the state
/// that the line shows, where the line stays, and at its default, where the
/// line is taken out; and a shown line leaves the count at the number of
/// times that its identifier was shown.
pub proof fn lemma_count_after_decided(
    threshold: nat,
    prior: Option<ShowHideCountView>,
    value: Value,
)
    ensures
        ({
            let decided = judge(threshold, prior, value);
            let known = after_events(prior, decided.events);
            &&& known matches Some(now) && now.state == if decided.verdict.retains() {
                state_shown_by(value)
            } else {
                ShowHideState::Default
            }
            &&& value == Value::Show ==> known->Some_0.count == total_shows(prior)
            &&& decided.verdict.retains() <==> (value == Value::Hide || total_shows(prior)
                >= threshold)
        }),
{
    let events = judge(threshold, prior, value).events;
    reveal_with_fuel(after_events, 3);
    if events.len() == 1 {
        assert(events.drop_last() =~= Seq::empty());
    } else if events.len() == 2 {
        assert(events.drop_last().drop_last() =~= Seq::empty());
    }
}

/// What the log knows of an identifier when a run has ended. An identifier
/// whose line stays is in the state that its line shows, and where the line
/// shows it, it was shown often enough. One that comes back is shown, and
/// was shown often enough. Any other is not known, or is at its default
/// and was not shown often enough.
pub proof fn lemma_known_after_run(
    threshold: nat,
    log: Seq<TransactionView>,
    items: Seq<ItemView>,
    key: Seq<u8>,
)
    requires
        threshold >= 1,
        each_once(items),
    ensures
        ({
            let met = pass(start(threshold, replay(log)), items);
            let known = state_of(log_after(threshold, log, items), key);
            let back = revived(threshold, met.state.history).contains(key);
            match line_for(met.kept, key) {
                Some(value) => {
                    &&& !back
                    &&& known matches Some(now) && now.state == state_shown_by(value) && (value
                        == Value::Show ==> now.count >= threshold)
                },
                None => if back {
                    known matches Some(now) && now.state == ShowHideState::Shown && now.count
                        >= threshold
                } else {
                    known matches Some(now) ==> now.state == ShowHideState::Default && now.count
                        < threshold
                },
            }
        }),
{
    let history = replay(log);
    let met = pass(start(threshold, history), items);
    let rest = met.state.history;
    let prior = lookup(history, key);
    lemma_replay_distinct(log);
    lemma_replay_state(log, key);
    lemma_pass(threshold, history, items, key);
    lemma_events_of_resets(rest, key);
    lemma_events_of_shows(threshold, rest, key);

    let found = met.state.pending;
    let gone = resets(rest);
    let back = shows(revived(threshold, rest));
    let added = met.state.transactions();
    lemma_events_of_add(found, gone, key);
    lemma_events_of_add(found + gone, back, key);
    lemma_events_of_add(log, added, key);
    lemma_state_of_events(log, key);
    lemma_state_of_events(log + added, key);
    lemma_after_events_add(None, events_of(log, key), events_of(added, key));
    let events = events_of(added, key);
    assert(state_of(log + added, key) == after_events(prior, events));
    reveal_with_fuel(after_events, 3);
    match line_for(items, key) {
        Some(value) => {
            let decided = judge(threshold, prior, value);
            assert(events =~= decided.events);
            lemma_count_after_decided(threshold, prior, value);
        },
        None => {
            if prior matches Some(known) && is_gone((key, known)) {
                assert(events =~= seq![Event::ManualReset]);
                assert(events.drop_last() =~= Seq::empty());
            } else if prior matches Some(known) && is_due(threshold, (key, known)) {
                assert(events =~= seq![Event::AutoShow]);
                assert(events.drop_last() =~= Seq::empty());
            } else {
                assert(events =~= Seq::empty());
            }
        },
    }
}

/// The lines that stay after a pass over a list that holds no identifier
/// twice hold no identifier twice.
pub proof fn lemma_kept_each_once(threshold: nat, history: HistoryView, items: Seq<ItemView>)
    requires
        distinct(history),
        each_once(items),
    ensures
        each_once(pass(start(threshold, history), items).kept),
    decreases items.len(),
{
    if items.len() > 0 {
        lemma_kept_each_once(threshold, history, items.drop_last());
        let earlier = pass(start(threshold, history), items.drop_last());
        let kept = pass(start(threshold, history), items).kept;
        if kept.len() == earlier.kept.len() + 1 {
            assert(kept.drop_last() =~= earlier.kept);
            assert(kept.last() == items.last());
            match items.last() {
                Ok(line) => {
                    lemma_pass(threshold, history, items.drop_last(), line.key);
                },
                Err(_) => {},
            }
        }
    }
}

/// No identifier comes back twice, and one that comes back is known to the
/// history.
pub proof fn lemma_revived_once(threshold: nat, history: HistoryView)
    requires
        distinct(history),
    ensures
        revived(threshold, history).no_duplicates(),
    decreases history.len(),
{
    if history.len() > 0 {
        let earlier = revived(threshold, history.drop_last());
        let key = history.last().0;
        lemma_lookup_last(history, key);
        lemma_revived_once(threshold, history.drop_last());
        lemma_events_of_shows(threshold, history.drop_last(), key);
        assert(!earlier.contains(key));
        let back = revived(threshold, history);
        assert forall|i: int, j: int|
            0 <= i < back.len() && 0 <= j < back.len() && i != j implies back[i] != back[j] by {
            if i < earlier.len() && j < earlier.len() {
                assert(back[i] == earlier[i] && back[j] == earlier[j]);
            } else if i < earlier.len() {
                assert(earlier.contains(back[i]));
            } else if j < earlier.len() {
                assert(earlier.contains(back[j]));
            }
        }
    }
}

/// The line that a list holds for an identifier, when lines that show
/// `keys` are put behind it: one that shows the identifier, where `keys`
/// holds it, and else the line that the list held before.
pub proof fn lemma_line_for_added(items: Seq<ItemView>, keys: Seq<Seq<u8>>, key: Seq<u8>)
    ensures
        line_for(items + shown_items(keys), key) == if keys.contains(key) {
            Some(Value::Show)
        } else {
            line_for(items, key)
        },
    decreases keys.len(),
{
    let list = items + shown_items(keys);
    if keys.len() == 0 {
        assert(list =~= items);
    } else {
        let fewer = keys.drop_last();
        assert(list.drop_last() =~= items + shown_items(fewer));
        assert(list.last() == Ok::<LineView, ParseErrorView>(
            LineView { key: keys.last(), value: Value::Show },
        ));
        lemma_line_for_added(items, fewer, key);
        if keys.last() != key {
            if keys.contains(key) {
                let at = choose|i: int| 0 <= i < keys.len() && keys[i] == key;
                assert(fewer[at] == key);
            }
            if fewer.contains(key) {
                let at = choose|i: int| 0 <= i < fewer.len() && fewer[i] == key;
                assert(keys[at] == key);
            }
        }
    }
}

/// A list that holds no identifier twice still holds none twice when lines
/// are put behind it that show identifiers which it does not hold, each of
/// them once.
pub proof fn lemma_each_once_added(items: Seq<ItemView>, keys: Seq<Seq<u8>>)
    requires
        each_once(items),
        keys.no_duplicates(),
        forall|i: int| 0 <= i < keys.len() ==> line_for(items, #[trigger] keys[i]) is None,
    ensures
        each_once(items + shown_items(keys)),
    decreases keys.len(),
{
    let list = items + shown_items(keys);
    if keys.len() == 0 {
        assert(list =~= items);
    } else {
        let fewer = keys.drop_last();
        assert(list.drop_last() =~= items + shown_items(fewer));
        assert(list.last() == Ok::<LineView, ParseErrorView>(
            LineView { key: keys.last(), value: Value::Show },
        ));
        assert forall|i: int| 0 <= i < fewer.len() implies line_for(
            items,
            #[trigger] fewer[i],
        ) is None by {
            assert(fewer[i] == keys[i]);
        }
        assert(fewer.no_duplicates()) by {
            assert forall|i: int, j: int|
                0 <= i < fewer.len() && 0 <= j < fewer.len() && i != j implies fewer[i]
                != fewer[j] by {
                assert(fewer[i] == keys[i] && fewer[j] == keys[j]);
            }
        }
        lemma_each_once_added(items, fewer);
        lemma_line_for_added(items, fewer, keys.last());
        if fewer.contains(keys.last()) {
            let at = choose|i: int| 0 <= i < fewer.len() && fewer[i] == keys.last();
            assert(keys[at] == keys[keys.len() - 1]);
        }
        assert(line_for(items, keys[keys.len() - 1]) is None);
    }
}

/// In a list that holds no identifier twice, the first lines hold none
/// twice, the line at a place is the line that the list holds for its
/// identifier, and no line before it is.
pub proof fn lemma_line_at(items: Seq<ItemView>, at: int)
    requires
        each_once(items),
        0 <= at < items.len(),
    ensures
        each_once(items.take(at)),
        items[at] matches Ok(line) ==> line_for(items, line.key) == Some(line.value) && line_for(
            items.take(at),
            line.key,
        ) is None,
    decreases items.len(),
{
    let fewer = items.drop_last();
    if at == items.len() - 1 {
        assert(items.take(at) =~= fewer);
    } else {
        lemma_line_at(fewer, at);
        assert(fewer.take(at) =~= items.take(at));
        assert(fewer[at] == items[at]);
        match (items[at], items.last()) {
            (Ok(line), Ok(last)) => {
                if last.key == line.key {
                    assert(line_for(fewer, last.key) is None);
                }
            },
            _ => {},
        }
    }
}

/// A pass that takes no line out keeps the list as it is.
pub proof fn lemma_all_kept(first: ReconcilerView, items: Seq<ItemView>)
    requires
        forall|at: int|
            0 <= at < items.len() ==> (#[trigger] verdict_at(first, items, at)).retains(),
    ensures
        pass(first, items).kept == items,
        pass(first, items).removed == 0,
    decreases items.len(),
{
    if items.len() > 0 {
        let fewer = items.drop_last();
        assert forall|at: int| 0 <= at < fewer.len() implies (#[trigger] verdict_at(
            first,
            fewer,
            at,
        )).retains() by {
            assert(fewer.take(at) =~= items.take(at));
            assert(verdict_at(first, items, at).retains());
        }
        lemma_all_kept(first, fewer);
        let last = items.len() - 1;
        assert(items.take(last) =~= fewer);
        assert(verdict_at(first, items, last).retains());
        assert(fewer.push(items.last()) =~= items);
    }
}

/// What the second of two runs finds for an identifier: the history that
/// the log gives after the first run knows the identifier as the list
/// after the first run has it, so that nothing is left to decide.
proof fn lemma_settled(
    threshold: nat,
    log: Seq<TransactionView>,
    items: Seq<ItemView>,
    key: Seq<u8>,
)
    requires
        threshold >= 1,
        each_once(items),
    ensures
        ({
            let list = list_after(threshold, replay(log), items);
            let known = lookup(replay(log_after(threshold, log, items)), key);
            match line_for(list, key) {
                Some(value) => {
                    &&& judge(threshold, known, value).verdict.retains()
                    &&& judge(threshold, known, value).events == Seq::<Event>::empty()
                },
                None => known matches Some(now) ==> !is_gone((key, now)) && !is_due(
                    threshold,
                    (key, now),
                ),
            }
        }),
{
    let met = pass(start(threshold, replay(log)), items);
    lemma_known_after_run(threshold, log, items, key);
    lemma_line_for_added(met.kept, revived(threshold, met.state.history), key);
    lemma_replay_state(log_after(threshold, log, items), key);
}

/// The list as a run leaves it holds no identifier twice, where the list
/// held none twice before.
pub proof fn lemma_list_after_each_once(
    threshold: nat,
    log: Seq<TransactionView>,
    items: Seq<ItemView>,
)
    requires
        each_once(items),
    ensures
        each_once(list_after(threshold, replay(log), items)),
{
    let history = replay(log);
    let met = pass(start(threshold, history), items);
    let back = revived(threshold, met.state.history);
    lemma_replay_distinct(log);
    lemma_kept_each_once(threshold, history, items);
    lemma_pass(threshold, history, items, Seq::empty());
    lemma_revived_once(threshold, met.state.history);
    assert forall|i: int| 0 <= i < back.len() implies line_for(met.kept, #[trigger] back[i])
        is None by {
        let key = back[i];
        assert(back.contains(key));
        lemma_pass(threshold, history, items, key);
        lemma_events_of_shows(threshold, met.state.history, key);
    }
    lemma_each_once_added(met.kept, back);
}

/// A run right after a run changes nothing. Take a log, a list that holds
/// no identifier twice, and a threshold of at least one; reconcile the list,
/// and then reconcile the list as that run left it, with the log as that run
/// left it and with the same threshold. The second run keeps every line,
/// finds no transaction to log, and brings no line back.
///
/// With a threshold of zero this does not hold: an identifier whose line
/// was taken out of the list by someone else has been shown zero times
/// since, which is then often enough for it to come back.
pub proof fn lemma_second_run_changes_nothing(
    threshold: nat,
    log: Seq<TransactionView>,
    items: Seq<ItemView>,
)
    requires
        threshold >= 1,
        each_once(items),
    ensures
        ({
            let list = list_after(threshold, replay(log), items);
            let again = pass(start(threshold, replay(log_after(threshold, log, items))), list);
            &&& again.kept == list
            &&& again.removed == 0
            &&& again.state.transactions() == Seq::<TransactionView>::empty()
            &&& again.state.lines_to_show() == Seq::<LineView>::empty()
        }),
{
    let list = list_after(threshold, replay(log), items);
    let history = replay(log_after(threshold, log, items));
    let first = start(threshold, history);
    let again = pass(first, list);
    lemma_replay_distinct(log_after(threshold, log, items));
    lemma_list_after_each_once(threshold, log, items);

    // every line stays
    assert forall|at: int| 0 <= at < list.len() implies (#[trigger] verdict_at(
        first,
        list,
        at,
    )).retains() by {
        lemma_line_at(list, at);
        match list[at] {
            Ok(line) => {
                lemma_pass(threshold, history, list.take(at), line.key);
                lemma_settled(threshold, log, items, line.key);
            },
            Err(_) => {},
        }
    }
    lemma_all_kept(first, list);

    // nothing is found line by line
    let found = again.state.pending;
    assert forall|key: Seq<u8>| #[trigger] events_of(found, key).len() == 0 by {
        lemma_pass(threshold, history, list, key);
        lemma_settled(threshold, log, items, key);
    }
    lemma_no_events(found);

    // no identifier is gone, and none comes back
    let rest = again.state.history;
    let gone = resets(rest);
    let back = shows(revived(threshold, rest));
    lemma_pass(threshold, history, list, Seq::empty());
    assert forall|key: Seq<u8>| #[trigger] events_of(gone, key).len() == 0 by {
        lemma_pass(threshold, history, list, key);
        lemma_settled(threshold, log, items, key);
        lemma_events_of_resets(rest, key);
    }
    lemma_no_events(gone);
    assert forall|key: Seq<u8>| #[trigger] events_of(back, key).len() == 0 by {
        lemma_pass(threshold, history, list, key);
        lemma_settled(threshold, log, items, key);
        lemma_events_of_shows(threshold, rest, key);
    }
    lemma_no_events(back);
    assert(revived(threshold, rest).len() == 0);
    assert(again.state.transactions() =~= Seq::empty());
    assert(again.state.lines_to_show() =~= Seq::empty());
}

} // verus!
