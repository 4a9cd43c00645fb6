//! The decision taken for each line of the list, and for the identifiers
//! that the list no longer holds.
//!
//! The list is compared with the history, line by line. A hidden entry
//! always stays. A shown entry stays when the history says that it was shown
//! often enough, and is taken out otherwise. Whatever differs from the
//! history becomes a new transaction. An identifier is taken out of the
//! history as its line is met, so that those left at the end are the ones
//! that the list no longer holds.
//!
//! Where the list holds two lines for one identifier, the first of them meets
//! what the history knows, and each later one is judged as the line of an
//! identifier that the history does not know.

use crate::config::Config;
use crate::history::{lookup, without, History, HistoryView};
use crate::local_player_moderations::{
    parsed_view, Line, LineView, ParseError, ParseErrorView, Value,
};
use crate::scan::to_boxed;
use crate::transaction::{
    ShowHideCountView, ShowHideState, Transaction, TransactionView, Value as Event,
};
use vstd::prelude::*;

verus! {

/// What becomes of a line of the list.
#[derive(PartialEq, Eq, Structural, Debug, Clone, Copy)]
pub enum Verdict {
    /// The line could not be read and stays as it is.
    Untouched,
    /// The line hides its identifier and stays.
    Hidden,
    /// The line shows its identifier, which was shown often enough: it stays.
    Retained,
    /// The line shows its identifier, which was not shown often enough: it
    /// is taken out.
    Removed,
}

impl Verdict {
    /// Whether the line stays in the list.
    pub open spec fn retains(self) -> bool {
        self != Verdict::Removed
    }

    /// Whether the line stays in the list.
    pub fn keeps(&self) -> (kept: bool)
        ensures
            kept == self.retains(),
    {
        !matches!(self, Verdict::Removed)
    }
}

/// What is decided for one line that was read: what becomes of it, and the
/// events that are logged for its identifier, in their order.
pub struct Judgement {
    pub verdict: Verdict,
    pub events: Seq<Event>,
}

/// Whether the history says that the identifier is in `state`.
pub open spec fn known_as(prior: Option<ShowHideCountView>, state: ShowHideState) -> bool {
    prior matches Some(known) && known.state == state
}

/// The number of times that the identifier of a shown line was shown since
/// it was last hidden: what the history counted, and one more where the
/// history does not say that it is shown.
pub open spec fn total_shows(prior: Option<ShowHideCountView>) -> nat {
    let counted = match prior {
        Some(known) => known.count,
        None => 0,
    };
    if known_as(prior, ShowHideState::Shown) {
        counted
    } else {
        counted + 1
    }
}

/// Whether a shown line stays: its identifier was shown at least `threshold`
/// times. For an identifier that the history does not know, the line at hand
/// is the first show.
pub open spec fn shown_enough(threshold: nat, prior: Option<ShowHideCountView>) -> bool {
    total_shows(prior) >= threshold
}

/// What is decided for a line with `value`, where `prior` is what the
/// history knows of its identifier.
///
/// A hidden line stays, and a hide is logged unless the history says that
/// the identifier is hidden. For a shown line a show is logged unless the
/// history says that the identifier is shown; then the line stays if it was
/// shown often enough, and else it is taken out and a reset is logged.
pub open spec fn judge(
    threshold: nat,
    prior: Option<ShowHideCountView>,
    value: Value,
) -> Judgement {
    match value {
        Value::Hide => Judgement {
            verdict: Verdict::Hidden,
            events: if known_as(prior, ShowHideState::Hidden) {
                Seq::empty()
            } else {
                seq![Event::ManualHide]
            },
        },
        Value::Show => {
            let shows = if known_as(prior, ShowHideState::Shown) {
                Seq::empty()
            } else {
                seq![Event::ManualShow]
            };
            if shown_enough(threshold, prior) {
                Judgement { verdict: Verdict::Retained, events: shows }
            } else {
                Judgement { verdict: Verdict::Removed, events: shows.push(Event::AutoReset) }
            }
        },
    }
}

/// The transactions that log `events` for `key`.
pub open spec fn logged(key: Seq<u8>, events: Seq<Event>) -> Seq<TransactionView> {
    events.map_values(|event: Event| TransactionView { key, value: event })
}

/// Where a reconciliation stands: the threshold, what is left of the
/// history, and the transactions found so far.
pub struct ReconcilerView {
    pub threshold: nat,
    pub history: HistoryView,
    pub pending: Seq<TransactionView>,
}

impl ReconcilerView {
    /// The reconciliation after a line that was read, and what becomes of
    /// the line. The identifier of the line leaves the history.
    pub open spec fn observe(self, line: LineView) -> (ReconcilerView, Verdict) {
        let judgement = judge(self.threshold, lookup(self.history, line.key), line.value);
        (
            ReconcilerView {
                threshold: self.threshold,
                history: without(self.history, line.key),
                pending: self.pending + logged(line.key, judgement.events),
            },
            judgement.verdict,
        )
    }

    /// The reconciliation after a line, read or not, and what becomes of the
    /// line. A line that could not be read changes nothing and stays.
    pub open spec fn filter(self, line: Result<LineView, ParseErrorView>) -> (
        ReconcilerView,
        Verdict,
    ) {
        match line {
            Ok(line) => self.observe(line),
            Err(_) => (self, Verdict::Untouched),
        }
    }

    /// Every transaction of the reconciliation: those found line by line,
    /// then a reset for each identifier that is gone, then a show for each
    /// identifier that comes back.
    pub open spec fn transactions(self) -> Seq<TransactionView> {
        self.pending + resets(self.history) + shows(revived(self.threshold, self.history))
    }

    /// The lines that are added to the list: one that shows each identifier
    /// that comes back.
    pub open spec fn lines_to_show(self) -> Seq<LineView> {
        shown_lines(revived(self.threshold, self.history))
    }
}

/// The transactions for the identifiers that are left in the history but are
/// not at their default: their lines were taken out of the list by someone
/// else, which is a reset by the user. They come in the order of the history.
pub open spec fn resets(history: HistoryView) -> Seq<TransactionView>
    decreases history.len(),
{
    if history.len() == 0 {
        Seq::empty()
    } else {
        let earlier = resets(history.drop_last());
        if is_gone(history.last()) {
            earlier.push(TransactionView { key: history.last().0, value: Event::ManualReset })
        } else {
            earlier
        }
    }
}

/// The identifiers that are left in the history at their default and were
/// shown often enough for the threshold as it is now: they come back. They
/// come in the order of the history.
pub open spec fn revived(threshold: nat, history: HistoryView) -> Seq<Seq<u8>>
    decreases history.len(),
{
    if history.len() == 0 {
        Seq::empty()
    } else {
        let earlier = revived(threshold, history.drop_last());
        if is_due(threshold, history.last()) {
            earlier.push(history.last().0)
        } else {
            earlier
        }
    }
}

/// A line that shows each of `keys`.
pub open spec fn shown_lines(keys: Seq<Seq<u8>>) -> Seq<LineView> {
    keys.map_values(|key: Seq<u8>| LineView { key, value: Value::Show })
}

/// A show by the tool for each of `keys`.
pub open spec fn shows(keys: Seq<Seq<u8>>) -> Seq<TransactionView> {
    keys.map_values(|key: Seq<u8>| TransactionView { key, value: Event::AutoShow })
}

/// The identifier is not at its default, though the list holds no line for it.
pub open spec fn is_gone(slot: (Seq<u8>, ShowHideCountView)) -> bool {
    slot.1.state != ShowHideState::Default
}

/// The identifier is at its default and was shown at least `threshold` times.
pub open spec fn is_due(threshold: nat, slot: (Seq<u8>, ShowHideCountView)) -> bool {
    slot.1.state == ShowHideState::Default && slot.1.count >= threshold
}

/// What a reconciliation found.
pub struct Outcome {
    /// The transactions to append to the log, in their order.
    pub transactions: Vec<Transaction>,
    /// The lines to append to the list, in their order.
    pub lines_to_show: Vec<Line>,
}

/// What the transactions of a vector say.
pub open spec fn transactions_view(transactions: Seq<Transaction>) -> Seq<TransactionView> {
    transactions.map_values(|transaction: Transaction| transaction@)
}

/// What the lines of a vector say.
pub open spec fn lines_view(lines: Seq<Line>) -> Seq<LineView> {
    lines.map_values(|line: Line| line@)
}

/// Compares a list with its history, line by line.
pub struct Reconciler {
    threshold: u32,
    history: History,
    pending: Vec<Transaction>,
}

impl View for Reconciler {
    type V = ReconcilerView;

    closed spec fn view(&self) -> ReconcilerView {
        ReconcilerView {
            threshold: self.threshold as nat,
            history: self.history@,
            pending: transactions_view(self.pending@),
        }
    }
}

impl Reconciler {
    /// Starts a reconciliation with the threshold of `config` and the
    /// history that the log gave.
    pub fn new(config: &Config, history: History) -> (reconciler: Self)
        ensures
            reconciler@ == (ReconcilerView {
                threshold: config.auto_hide_threshold as nat,
                history: history@,
                pending: Seq::empty(),
            }),
    {
        let reconciler = Self {
            threshold: config.auto_hide_threshold,
            history,
            pending: Vec::new(),
        };
        assert(reconciler@.pending =~= Seq::empty());
        reconciler
    }

    /// Decides what becomes of a line that was read.
    pub fn observe(&mut self, line: &Line) -> (verdict: Verdict)
        ensures
            (final(self)@, verdict) == old(self)@.observe(line@),
    {
        // number of times user was shown since last hide OR None if there is no data
        let shows = self.history.remove(line.key());
        let ghost judgement = judge(
            old(self)@.threshold,
            lookup(old(self)@.history, line@.key),
            line@.value,
        );
        let verdict = match line.value() {
            Value::Hide => {
                // we read a Hide from the list
                let was_hidden = match shows {
                    Some(known) => known.is_hidden(),
                    None => false,
                };
                if !was_hidden {
                    // if user was NOT last known to be hidden, record this manual hide
                    self.pending.push(Transaction::new(to_boxed(line.key()), Event::ManualHide));
                }
                Verdict::Hidden  // retain hidden user entries
            },
            Value::Show => {
                // we read a Show from the list
                // if we see a manual show here we need to consider it in the total show count
                let was_shown = match shows {
                    Some(known) => known.is_shown(),
                    None => false,
                };
                let extra_shows: u64 = if !was_shown {
                    // if user was NOT last known to be shown, record this manual show
                    self.pending.push(Transaction::new(to_boxed(line.key()), Event::ManualShow));
                    1
                } else {
                    0
                };
                // check if we've shown this user enough times that the show should stick
                let counted: u64 = match shows {
                    Some(known) => known.count() as u64,
                    None => 0,
                };
                let enough = counted + extra_shows >= self.threshold as u64;
                if enough {
                    // enough shows; retain the user
                    Verdict::Retained
                } else {
                    // not enough shows; reset the user
                    self.pending.push(Transaction::new(to_boxed(line.key()), Event::AutoReset));
                    Verdict::Removed
                }
            },
        };
        proof {
            assert(verdict == judgement.verdict);
            assert(self@.pending =~= old(self)@.pending + logged(line@.key, judgement.events));
        }
        verdict
    }

    /// Decides what becomes of a line, read or not.
    pub fn filter(&mut self, line: &Result<Line, ParseError>) -> (verdict: Verdict)
        ensures
            (final(self)@, verdict) == old(self)@.filter(parsed_view(*line)),
    {
        match line {
            Ok(line) => self.observe(line),
            Err(_) => Verdict::Untouched,  // retain errors
        }
    }

    /// Ends the reconciliation, when every line of the list was met: decides
    /// what becomes of the identifiers that are left in the history.
    pub fn finish(self) -> (outcome: Outcome)
        ensures
            transactions_view(outcome.transactions@) == self@.transactions(),
            lines_view(outcome.lines_to_show@) == self@.lines_to_show(),
    {
        let threshold = self.threshold;
        let history = self.history;
        let mut transactions = self.pending;
        let mut lines_to_show: Vec<Line> = Vec::new();
        let len = history.len();

        // handle manual non-default -> default transitions
        let mut at: usize = 0;
        proof {
            assert(history@.take(0) =~= Seq::empty());
            assert(transactions_view(transactions@) =~= self@.pending + resets(history@.take(0)));
        }
        while at < len
            invariant
                at <= len == history@.len(),
                transactions_view(transactions@) == self@.pending + resets(
                    history@.take(at as int),
                ),
            decreases len - at,
        {
            let (key, known) = history.slot(at);
            proof {
                lemma_resets_step(history@, at as int);
            }
            let ghost before = transactions@;
            if !known.is_default() {
                transactions.push(Transaction::new(to_boxed(key), Event::ManualReset));
                assert(transactions_view(transactions@) =~= transactions_view(before).push(
                    TransactionView { key: key@, value: Event::ManualReset },
                ));
            }
            at += 1;
            assert(transactions_view(transactions@) =~= self@.pending + resets(
                history@.take(at as int),
            ));
        }

        // handle case where the threshold has lowered: we need to go back and re-show
        // previously reset users
        let ghost found = transactions_view(transactions@);
        at = 0;
        proof {
            assert(history@.take(len as int) =~= history@);
            assert(history@.take(0) =~= Seq::empty());
            assert(transactions_view(transactions@) =~= found + shows(
                revived(threshold as nat, history@.take(0)),
            ));
            assert(lines_view(lines_to_show@) =~= shown_lines(
                revived(threshold as nat, history@.take(0)),
            ));
        }
        while at < len
            invariant
                at <= len == history@.len(),
                found == self@.pending + resets(history@),
                transactions_view(transactions@) == found + shows(
                    revived(threshold as nat, history@.take(at as int)),
                ),
                lines_view(lines_to_show@) == shown_lines(
                    revived(threshold as nat, history@.take(at as int)),
                ),
            decreases len - at,
        {
            let (key, known) = history.slot(at);
            proof {
                lemma_revived_step(threshold as nat, history@, at as int);
            }
            let ghost before = transactions@;
            let ghost lines_before = lines_to_show@;
            if known.is_default() && known.count() >= threshold {
                transactions.push(Transaction::new(to_boxed(key), Event::AutoShow));
                lines_to_show.push(Line::new(to_boxed(key), Value::Show));
                assert(transactions_view(transactions@) =~= transactions_view(before).push(
                    TransactionView { key: key@, value: Event::AutoShow },
                ));
                assert(lines_view(lines_to_show@) =~= lines_view(lines_before).push(
                    LineView { key: key@, value: Value::Show },
                ));
            }
            at += 1;
            assert(transactions_view(transactions@) =~= found + shows(
                revived(threshold as nat, history@.take(at as int)),
            ));
            assert(lines_view(lines_to_show@) =~= shown_lines(
                revived(threshold as nat, history@.take(at as int)),
            ));
        }
        proof {
            assert(history@.take(len as int) =~= history@);
            assert(transactions_view(transactions@) =~= self@.transactions());
        }
        Outcome { transactions, lines_to_show }
    }
}

/// The resets of a history that is one identifier longer: one more reset
/// where that identifier is gone, and else the same.
pub proof fn lemma_resets_step(history: HistoryView, at: int)
    requires
        0 <= at < history.len(),
    ensures
        resets(history.take(at + 1)) == if is_gone(history[at]) {
            resets(history.take(at)).push(
                TransactionView { key: history[at].0, value: Event::ManualReset },
            )
        } else {
            resets(history.take(at))
        },
{
    assert(history.take(at + 1).drop_last() =~= history.take(at));
    assert(history.take(at + 1).last() == history[at]);
}

/// The identifiers that come back from a history that is one identifier
/// longer: that identifier too where it is due, and else the same.
pub proof fn lemma_revived_step(threshold: nat, history: HistoryView, at: int)
    requires
        0 <= at < history.len(),
    ensures
        revived(threshold, history.take(at + 1)) == if is_due(threshold, history[at]) {
            revived(threshold, history.take(at)).push(history[at].0)
        } else {
            revived(threshold, history.take(at))
        },
{
    assert(history.take(at + 1).drop_last() =~= history.take(at));
    assert(history.take(at + 1).last() == history[at]);
}

/// A line as it was read, or the error that kept it from being read.
pub type ItemView = Result<LineView, ParseErrorView>;

/// What a pass over the lines of a list gives: where the reconciliation
/// stands after it, the lines that stay, in their order, and how many shown
/// lines were taken out and how many stayed.
pub struct Pass {
    pub state: ReconcilerView,
    pub kept: Seq<ItemView>,
    pub removed: nat,
    pub retained: nat,
}

/// The pass over `items`, met in their order, that starts at `start`.
pub open spec fn pass(start: ReconcilerView, items: Seq<ItemView>) -> Pass
    decreases items.len(),
{
    if items.len() == 0 {
        Pass { state: start, kept: Seq::empty(), removed: 0, retained: 0 }
    } else {
        let earlier = pass(start, items.drop_last());
        let (state, verdict) = earlier.state.filter(items.last());
        Pass {
            state,
            kept: if verdict.retains() {
                earlier.kept.push(items.last())
            } else {
                earlier.kept
            },
            removed: if verdict == Verdict::Removed {
                earlier.removed + 1
            } else {
                earlier.removed
            },
            retained: if verdict == Verdict::Retained {
                earlier.retained + 1
            } else {
                earlier.retained
            },
        }
    }
}

/// What becomes of the item at place `at`, in the pass over `items` that
/// starts at `start`.
pub open spec fn verdict_at(start: ReconcilerView, items: Seq<ItemView>, at: int) -> Verdict {
    pass(start, items.take(at)).state.filter(items[at]).1
}

/// The reconciliation that starts with a threshold and a history, before any
/// line is met.
pub open spec fn start(threshold: nat, history: HistoryView) -> ReconcilerView {
    ReconcilerView { threshold, history, pending: Seq::empty() }
}

/// A higher threshold keeps no line that a lower one takes out: with the
/// same history, the verdicts on a line differ only where the lower
/// threshold retains a shown line that the higher one removes.
pub proof fn lemma_judge_monotone(
    low: nat,
    high: nat,
    prior: Option<ShowHideCountView>,
    value: Value,
)
    requires
        low <= high,
    ensures
        judge(high, prior, value).verdict.retains() ==> judge(low, prior, value).verdict.retains(),
        judge(low, prior, value).verdict != judge(high, prior, value).verdict ==> judge(
            low,
            prior,
            value,
        ).verdict == Verdict::Retained && judge(high, prior, value).verdict == Verdict::Removed,
{
}

/// What is left of the history after a pass does not depend on the
/// threshold, nor on the transactions found before.
pub proof fn lemma_pass_history(
    first: ReconcilerView,
    second: ReconcilerView,
    items: Seq<ItemView>,
)
    requires
        first.history == second.history,
    ensures
        pass(first, items).state.history == pass(second, items).state.history,
        pass(first, items).state.threshold == first.threshold,
    decreases items.len(),
{
    if items.len() > 0 {
        lemma_pass_history(first, second, items.drop_last());
    }
}

/// Within one run, with the same history and the same list, raising the
/// threshold can only turn retained shown lines into removed ones. Every
/// line that the higher threshold keeps, the lower one keeps, and where the
/// verdicts differ the lower threshold retained the line and the higher one
/// removed it.
pub proof fn lemma_threshold_monotone(
    low: nat,
    high: nat,
    history: HistoryView,
    items: Seq<ItemView>,
    at: int,
)
    requires
        low <= high,
        0 <= at < items.len(),
    ensures
        verdict_at(start(high, history), items, at).retains() ==> verdict_at(
            start(low, history),
            items,
            at,
        ).retains(),
        verdict_at(start(low, history), items, at) != verdict_at(start(high, history), items, at)
            ==> verdict_at(start(low, history), items, at) == Verdict::Retained && verdict_at(
            start(high, history),
            items,
            at,
        ) == Verdict::Removed,
{
    let seen = items.take(at);
    lemma_pass_history(start(low, history), start(high, history), seen);
    lemma_pass_history(start(high, history), start(low, history), seen);
    match items[at] {
        Ok(line) => {
            let prior = lookup(pass(start(low, history), seen).state.history, line.key);
            lemma_judge_monotone(low, high, prior, line.value);
        },
        Err(_) => {},
    }
}

/// Raising the threshold takes out at least as many shown lines and retains
/// at most as many.
pub proof fn lemma_threshold_counts(
    low: nat,
    high: nat,
    history: HistoryView,
    items: Seq<ItemView>,
)
    requires
        low <= high,
    ensures
        pass(start(low, history), items).removed <= pass(start(high, history), items).removed,
        pass(start(low, history), items).retained >= pass(start(high, history), items).retained,
        pass(start(low, history), items).kept.len() >= pass(
            start(high, history),
            items,
        ).kept.len(),
    decreases items.len(),
{
    if items.len() > 0 {
        lemma_threshold_counts(low, high, history, items.drop_last());
        let at = items.len() - 1;
        assert(items.take(at) =~= items.drop_last());
        lemma_threshold_monotone(low, high, history, items, at);
    }
}

/// An identifier that comes back under a threshold comes back under every
/// lower one.
pub proof fn lemma_revived_monotone(low: nat, high: nat, history: HistoryView, key: Seq<u8>)
    requires
        low <= high,
        revived(high, history).contains(key),
    ensures
        revived(low, history).contains(key),
    decreases history.len(),
{
    if history.len() > 0 {
        let earlier = history.drop_last();
        if revived(high, earlier).contains(key) {
            lemma_revived_monotone(low, high, earlier, key);
            let at = choose|i: int|
                0 <= i < revived(low, earlier).len() && revived(low, earlier)[i] == key;
            assert(revived(low, history)[at] == key);
        } else {
            let found = choose|i: int|
                0 <= i < revived(high, history).len() && revived(high, history)[i] == key;
            assert(is_due(high, history.last()));
            assert(found == revived(high, earlier).len());
            assert(revived(low, history).last() == key);
        }
    }
}

/// What the history knows of an identifier after `events` are logged for it.
pub open spec fn after_events(prior: Option<ShowHideCountView>, events: Seq<Event>) -> Option<
    ShowHideCountView,
>
    decreases events.len(),
{
    if events.len() == 0 {
        prior
    } else {
        Some(ShowHideCountView::after(after_events(prior, events.drop_last()), events.last()))
    }
}

/// Across runs, a lower threshold brings back what a higher one took out.
/// When a shown line is taken out, the log remembers how often its
/// identifier was shown. Replayed, the log has the identifier at its default
/// with that count; so a later run, which finds no line for it, brings it
/// back exactly if the count is at least the threshold of that later run.
pub proof fn lemma_removed_comes_back(
    then: nat,
    now: nat,
    prior: Option<ShowHideCountView>,
    key: Seq<u8>,
)
    requires
        judge(then, prior, Value::Show).verdict == Verdict::Removed,
    ensures
        ({
            let events = judge(then, prior, Value::Show).events;
            let known = after_events(prior, events);
            &&& known == Some(
                ShowHideCountView { count: total_shows(prior), state: ShowHideState::Default },
            )
            &&& is_due(now, (key, known->Some_0)) <==> total_shows(prior) >= now
            &&& revived(now, seq![(key, known->Some_0)]) == if total_shows(prior) >= now {
                seq![key]
            } else {
                Seq::empty()
            }
        }),
{
    let events = judge(then, prior, Value::Show).events;
    reveal_with_fuel(after_events, 3);
    if known_as(prior, ShowHideState::Shown) {
        assert(events =~= seq![Event::AutoReset]);
        assert(events.drop_last() =~= Seq::empty());
    } else {
        assert(events =~= seq![Event::ManualShow, Event::AutoReset]);
        assert(events.drop_last() =~= seq![Event::ManualShow]);
        assert(events.drop_last().drop_last() =~= Seq::empty());
    }
    let known = after_events(prior, events)->Some_0;
    let slots = seq![(key, known)];
    assert(slots.drop_last() =~= Seq::empty());
    reveal_with_fuel(revived, 2);
    assert(revived(now, slots) =~= if total_shows(prior) >= now {
        seq![key]
    } else {
        Seq::empty()
    });
}

} // verus!
