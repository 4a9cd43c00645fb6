//! The bytes of the rewritten list and of the log's new lines.
//!
//! The list is rewritten front to back: each line that stays is written as
//! soon as it was met, and a line that is taken out is not written at all.
//! The lines that come back are written behind those, and the transactions
//! that were found go to the end of the log.

use crate::config::Config;
use crate::history::{lines_view as raw_lines, History, HistoryView};
use crate::local_player_moderations::{
    lemma_padding, line_end, parsed_view, Line, LineView, ParseError,
};
use crate::reconcile::{
    lines_view, pass, start, transactions_view, ItemView, Outcome, Reconciler, Verdict,
};
use crate::transaction::{Transaction, TransactionView};
use vstd::prelude::*;

verus! {

/// A line of the list as it is written: a line that was read is written
/// anew, and one that could not be read is written as it was.
pub open spec fn item_wire(item: ItemView) -> Seq<u8> {
    match item {
        Ok(line) => line.wire(),
        Err(error) => error.wire(),
    }
}

/// The lines of a list as they are written, one behind the other.
pub open spec fn items_wire(items: Seq<ItemView>) -> Seq<u8>
    decreases items.len(),
{
    if items.len() == 0 {
        Seq::empty()
    } else {
        items_wire(items.drop_last()) + item_wire(items.last())
    }
}

/// Lines that were read, as they are written, one behind the other.
pub open spec fn lines_wire(lines: Seq<LineView>) -> Seq<u8>
    decreases lines.len(),
{
    if lines.len() == 0 {
        Seq::empty()
    } else {
        lines_wire(lines.drop_last()) + lines.last().wire()
    }
}

/// Transactions as the log holds them, one behind the other.
pub open spec fn log_wire(transactions: Seq<TransactionView>) -> Seq<u8>
    decreases transactions.len(),
{
    if transactions.len() == 0 {
        Seq::empty()
    } else {
        log_wire(transactions.drop_last()) + transactions.last().wire()
    }
}

/// What the lines of a list say, each given without what ends it.
pub open spec fn parse_all(lines: Seq<Seq<u8>>) -> Seq<ItemView> {
    lines.map_values(|line: Seq<u8>| LineView::parse(line))
}

/// Appends a line of the list to `writer`: a line that was read is written
/// anew, and one that could not be read is written as it was. Returns the
/// number of bytes written.
pub fn write_line(line: &Result<Line, ParseError>, writer: &mut Vec<u8>) -> (written: usize)
    ensures
        final(writer)@ == old(writer)@ + item_wire(parsed_view(*line)),
        written == item_wire(parsed_view(*line)).len(),
{
    match line {
        Ok(line) => line.serialize(writer),
        Err(error) => error.serialize(writer),
    }
}

/// Appends lines to `writer`, in their order, and returns the number of
/// bytes written.
pub fn write_lines(lines: &Vec<Line>, writer: &mut Vec<u8>) -> (size: u64)
    ensures
        final(writer)@ == old(writer)@ + lines_wire(lines_view(lines@)),
        size == lines_wire(lines_view(lines@)).len(),
{
    let start = writer.len();
    let mut at: usize = 0;
    proof {
        assert(lines_view(lines@).take(0) =~= Seq::empty());
        assert(writer@ =~= old(writer)@ + lines_wire(lines_view(lines@).take(0)));
    }
    while at < lines.len()
        invariant
            at <= lines@.len(),
            start == old(writer)@.len(),
            writer@ == old(writer)@ + lines_wire(lines_view(lines@).take(at as int)),
        decreases lines@.len() - at,
    {
        proof {
            let next = lines_view(lines@).take(at + 1);
            assert(next.drop_last() =~= lines_view(lines@).take(at as int));
            assert(next.last() == lines@[at as int]@);
        }
        lines[at].serialize(writer);
        at += 1;
        assert(writer@ =~= old(writer)@ + lines_wire(lines_view(lines@).take(at as int)));
    }
    assert(lines_view(lines@).take(at as int) =~= lines_view(lines@));
    (writer.len() - start) as u64
}

/// Appends transactions to `writer` as the log holds them, in their order.
pub fn write_log(transactions: &Vec<Transaction>, writer: &mut Vec<u8>)
    ensures
        final(writer)@ == old(writer)@ + log_wire(transactions_view(transactions@)),
{
    let mut at: usize = 0;
    proof {
        assert(transactions_view(transactions@).take(0) =~= Seq::empty());
        assert(writer@ =~= old(writer)@ + log_wire(transactions_view(transactions@).take(0)));
    }
    while at < transactions.len()
        invariant
            at <= transactions@.len(),
            writer@ == old(writer)@ + log_wire(transactions_view(transactions@).take(at as int)),
        decreases transactions@.len() - at,
    {
        proof {
            let next = transactions_view(transactions@).take(at + 1);
            assert(next.drop_last() =~= transactions_view(transactions@).take(at as int));
            assert(next.last() == transactions@[at as int]@);
        }
        transactions[at].serialize(writer);
        at += 1;
        assert(writer@ =~= old(writer)@ + log_wire(
            transactions_view(transactions@).take(at as int),
        ));
    }
    assert(transactions_view(transactions@).take(at as int) =~= transactions_view(transactions@));
}

/// What the rewriting of a list gives.
pub struct RewrittenView {
    /// The list as it stands when every line was met: the lines that stay.
    pub kept: Seq<u8>,
    /// What is then added to the list: the lines that come back.
    pub added: Seq<u8>,
    /// What is added to the log.
    pub log: Seq<u8>,
    /// The number of shown lines that were taken out.
    pub removed: nat,
    /// The number of shown lines that stayed.
    pub retained: nat,
    /// The number of lines that came back.
    pub shown: nat,
    /// The number of transactions added to the log.
    pub transactions: nat,
}

/// What the rewriting of a list gives, for a threshold, the history that the
/// log gave, and the lines of the list, each without what ends it.
pub open spec fn rewritten(
    threshold: nat,
    history: HistoryView,
    lines: Seq<Seq<u8>>,
) -> RewrittenView {
    let met = pass(start(threshold, history), parse_all(lines));
    RewrittenView {
        kept: items_wire(met.kept),
        added: lines_wire(met.state.lines_to_show()),
        log: log_wire(met.state.transactions()),
        removed: met.removed,
        retained: met.retained,
        shown: met.state.lines_to_show().len(),
        transactions: met.state.transactions().len(),
    }
}

/// What the rewriting of a list gave.
pub struct Rewritten {
    /// The list as it stands when every line was met: the lines that stay.
    pub kept: Vec<u8>,
    /// What is then added to the list: the lines that come back.
    pub added: Vec<u8>,
    /// What is added to the log.
    pub log: Vec<u8>,
    /// The number of shown lines that were taken out.
    pub removed: usize,
    /// The number of shown lines that stayed.
    pub retained: usize,
    /// The number of lines that came back.
    pub shown: usize,
    /// The number of transactions added to the log.
    pub transactions: usize,
}

impl View for Rewritten {
    type V = RewrittenView;

    open spec fn view(&self) -> RewrittenView {
        RewrittenView {
            kept: self.kept@,
            added: self.added@,
            log: self.log@,
            removed: self.removed as nat,
            retained: self.retained as nat,
            shown: self.shown as nat,
            transactions: self.transactions as nat,
        }
    }
}

/// Rewrites a list that is held in memory. `lines` are the lines of the
/// list, each without what ends it, and `history` is what the log gave.
pub fn rewrite_list(config: &Config, history: History, lines: &Vec<Vec<u8>>) -> (done: Rewritten)
    ensures
        done@ == rewritten(config.auto_hide_threshold as nat, history@, raw_lines(lines@)),
{
    let ghost first = start(config.auto_hide_threshold as nat, history@);
    let ghost items = parse_all(raw_lines(lines@));
    let mut reconciler = Reconciler::new(config, history);
    let mut kept: Vec<u8> = Vec::new();
    let mut removed: usize = 0;
    let mut retained: usize = 0;
    let mut at: usize = 0;
    proof {
        assert(items.take(0) =~= Seq::empty());
        assert(kept@ =~= items_wire(pass(first, items.take(0)).kept));
    }
    while at < lines.len()
        invariant
            at <= lines@.len() == items.len(),
            items == parse_all(raw_lines(lines@)),
            reconciler@ == pass(first, items.take(at as int)).state,
            kept@ == items_wire(pass(first, items.take(at as int)).kept),
            removed == pass(first, items.take(at as int)).removed,
            retained == pass(first, items.take(at as int)).retained,
            removed + retained <= at,
        decreases lines@.len() - at,
    {
        proof {
            assert(items.take(at + 1).drop_last() =~= items.take(at as int));
            assert(items.take(at + 1).last() == LineView::parse(lines@[at as int]@));
        }
        let line = Line::parse(lines[at].as_slice());
        let verdict = reconciler.filter(&line);
        if verdict.keeps() {
            write_line(&line, &mut kept);
            proof {
                let stayed = pass(first, items.take(at as int)).kept;
                assert(stayed.push(parsed_view(line)).drop_last() =~= stayed);
            }
        }
        match verdict {
            Verdict::Removed => {
                removed += 1;
            },
            Verdict::Retained => {
                retained += 1;
            },
            _ => {},
        }
        at += 1;
    }
    assert(items.take(at as int) =~= items);
    let Outcome { transactions, lines_to_show } = reconciler.finish();
    let mut added: Vec<u8> = Vec::new();
    write_lines(&lines_to_show, &mut added);
    let mut log: Vec<u8> = Vec::new();
    write_log(&transactions, &mut log);
    proof {
        assert(added@ =~= lines_wire(lines_view(lines_to_show@)));
        assert(log@ =~= log_wire(transactions_view(transactions@)));
    }
    Rewritten {
        kept,
        added,
        log,
        removed,
        retained,
        shown: lines_to_show.len(),
        transactions: transactions.len(),
    }
}

/// A list of one line that cannot be read is rewritten as the bytes of that
/// line and a line end, whatever the threshold and the history are.
pub proof fn lemma_malformed_passes(threshold: nat, history: HistoryView, line: Seq<u8>)
    requires
        LineView::parse(line) is Err,
    ensures
        rewritten(threshold, history, seq![line]).kept == line + line_end(),
        rewritten(threshold, history, seq![line]).removed == 0,
        rewritten(threshold, history, seq![line]).retained == 0,
        pass(start(threshold, history), parse_all(seq![line])).state == start(threshold, history),
{
    let items = parse_all(seq![line]);
    assert(items.drop_last() =~= Seq::empty());
    assert(items.last() == LineView::parse(line));
    reveal_with_fuel(pass, 2);
    let met = pass(start(threshold, history), items);
    assert(met.kept =~= seq![LineView::parse(line)]);
    assert(met.kept.drop_last() =~= Seq::empty());
    reveal_with_fuel(items_wire, 2);
    assert(items_wire(met.kept) =~= line + line_end());
}

/// A line of the list takes no more bytes when it is written than it took
/// when it was read, as a line that ended in a carriage return and a line
/// feed.
pub open spec fn fits(line: Seq<u8>) -> bool {
    item_wire(LineView::parse(line)).len() <= line.len() + 2
}

/// Whether a line of the list can be written in the place from which it was
/// read: written, it takes no more bytes than it took in the list, where it
/// ended in a carriage return and a line feed. `raw` is the line as it was
/// read, without what ends it, and `line` is what was read from it.
///
/// A line that cannot be read always fits, as it is written as it was. A
/// line that was read is written with its padding set right, and so may
/// grow.
pub fn fits_in_place(raw: &[u8], line: &Result<Line, ParseError>) -> (fits: bool)
    ensures
        fits == (item_wire(parsed_view(*line)).len() <= raw@.len() + 2),
        parsed_view(*line) == LineView::parse(raw@) ==> fits == self::fits(raw@),
{
    match line {
        Ok(line) => {
            proof {
                lemma_padding(line@);
            }
            let key_len = line.key().len();
            let column: usize = if key_len > 63 {
                key_len
            } else {
                63
            };
            raw.len() >= 4 && column <= raw.len() - 4
        },
        Err(error) => error.raw_line().len() <= raw.len(),
    }
}

/// The number of bytes that the lines take in a list where each of them
/// ends in a carriage return and a line feed.
pub open spec fn read_len(lines: Seq<Seq<u8>>) -> nat
    decreases lines.len(),
{
    if lines.len() == 0 {
        0
    } else {
        read_len(lines.drop_last()) + lines.last().len() + 2
    }
}

/// The rewritten list never grows past what was read of it: where every
/// line of the list fits in its place, the lines that stay take no more
/// bytes than the lines that were met. This holds after every line, as it
/// holds of every list.
pub proof fn lemma_written_within_read(threshold: nat, history: HistoryView, lines: Seq<Seq<u8>>)
    requires
        forall|i: int| 0 <= i < lines.len() ==> fits(#[trigger] lines[i]),
    ensures
        rewritten(threshold, history, lines).kept.len() <= read_len(lines),
    decreases lines.len(),
{
    let items = parse_all(lines);
    if lines.len() > 0 {
        let earlier = lines.drop_last();
        assert(parse_all(earlier) =~= items.drop_last());
        assert(forall|i: int| 0 <= i < earlier.len() ==> earlier[i] == lines[i]);
        lemma_written_within_read(threshold, history, earlier);
        assert(items.last() == LineView::parse(lines.last()));
        assert(fits(lines[lines.len() - 1]));
        let stayed = pass(start(threshold, history), items.drop_last()).kept;
        assert(stayed.push(items.last()).drop_last() =~= stayed);
    }
}

/// A line that cannot be read fits in its place, and so does a line that is
/// as it would be written.
pub proof fn lemma_fits(line: Seq<u8>)
    ensures
        LineView::parse(line) is Err ==> fits(line),
        LineView::parse(line) matches Ok(read) ==> (read.text() == line ==> fits(line)),
{
    match LineView::parse(line) {
        Ok(read) => lemma_padding(read),
        Err(_) => {},
    }
}

} // verus!
