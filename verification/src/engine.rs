//! The moving-average engine: for every symbol the windows over its most
//! recent closing prices, and the averages that a new bar gets from them.

use crate::decimal::Decimal;
use crate::record::{Record, RecordView};
use crate::window::{mean_of, slide, trailing, Window};
use vstd::prelude::*;
use vstd::string::*;

verus! {

/// Bars that the short average looks back over.
pub const SHORT_SPAN: usize = 50;

/// Bars that the long average looks back over.
pub const LONG_SPAN: usize = 100;

/// The two windows of one symbol.
struct SymbolWindows {
    symbol: String,
    short: Window,
    long: Window,
}

impl SymbolWindows {
    /// Both windows are in order, and the short one holds the latest values
    /// of the long one.
    spec fn wf(&self) -> bool {
        &&& self.short.wf()
        &&& self.long.wf()
        &&& self.short.capacity() == SHORT_SPAN
        &&& self.long.capacity() == LONG_SPAN
        &&& self.short@ == trailing(self.long@, SHORT_SPAN as int)
    }
}

/// Keeps, for every symbol seen, windows over its last 50 and last 100
/// closing prices, and gives each bar the averages over them.
pub struct MovingAverageEngine {
    entries: Vec<SymbolWindows>,
}

/// A bar with the averages that the window of its symbol gives: over the
/// latest 50 values of the window, and over the whole window of at most 100.
/// Each is the mean of as many values as there are, rounded towards zero to
/// a whole unit.
pub open spec fn enriched(bar: RecordView, window: Seq<i64>) -> RecordView {
    RecordView {
        avg_50: Some(Decimal { units: mean_of(trailing(window, SHORT_SPAN as int)) as i64 }),
        avg_100: Some(Decimal { units: mean_of(window) as i64 }),
        ..bar
    }
}

impl MovingAverageEngine {
    /// Entry `i` is the one of `symbol`.
    spec fn tracks(&self, i: int, symbol: Seq<char>) -> bool {
        0 <= i < self.entries@.len() && self.entries@[i].symbol@ == symbol
    }

    /// Every symbol has one pair of windows, and each pair is in order.
    pub closed spec fn wf(&self) -> bool {
        &&& forall|i: int| 0 <= i < self.entries@.len() ==> (#[trigger] self.entries@[i]).wf()
        &&& forall|i: int, j: int|
            0 <= i < self.entries@.len() && 0 <= j < self.entries@.len()
                && (#[trigger] self.entries@[i]).symbol@ == (#[trigger] self.entries@[j]).symbol@
                ==> i == j
    }

    /// The latest closing prices seen of a symbol, at most 100 of them,
    /// oldest first; none for a symbol not yet seen.
    pub closed spec fn recent(&self, symbol: Seq<char>) -> Seq<i64> {
        if exists|i: int| self.tracks(i, symbol) {
            self.entries@[choose|i: int| self.tracks(i, symbol)].long@
        } else {
            Seq::empty()
        }
    }

    /// An engine that has seen no symbol.
    pub fn new() -> (engine: MovingAverageEngine)
        ensures
            engine.wf(),
            forall|symbol: Seq<char>| #[trigger] engine.recent(symbol) == Seq::<i64>::empty(),
    {
        MovingAverageEngine { entries: Vec::new() }
    }

    /// Where the windows of a symbol are, or the number of entries if the
    /// symbol has none.
    fn position(&self, symbol: &String) -> (at: usize)
        ensures
            at <= self.entries@.len(),
            at < self.entries@.len() ==> self.tracks(at as int, symbol@),
            at == self.entries@.len() ==> forall|i: int| !self.tracks(i, symbol@),
    {
        let mut at: usize = 0;
        while at < self.entries.len() && !(self.entries[at].symbol == *symbol)
            invariant
                at <= self.entries@.len(),
                forall|i: int| 0 <= i < at ==> !self.tracks(i, symbol@),
            decreases self.entries@.len() - at,
        {
            at += 1;
        }
        at
    }

    /// Takes in one bar and returns it with its averages.
    ///
    /// The closing price enters both windows of the bar's symbol, which are
    /// made on the symbol's first bar; a full window lets its oldest value
    /// go. The windows of every other symbol stay as they are. Each average
    /// is the sum of its window divided by the number of values in it, also
    /// before the window is full.
    pub fn observe(&mut self, record: Record) -> (out: Record)
        requires
            old(self).wf(),
        ensures
            final(self).wf(),
            forall|symbol: Seq<char>|
                #[trigger] final(self).recent(symbol) == if symbol == record.symbol@ {
                    slide(old(self).recent(symbol), record.close.units, LONG_SPAN as int)
                } else {
                    old(self).recent(symbol)
                },
            out@ == enriched(record@, final(self).recent(record.symbol@)),
    {
        let at = self.position(&record.symbol);
        if at == self.entries.len() {
            self.entries.push(
                SymbolWindows {
                    symbol: record.symbol.clone(),
                    short: Window::new(SHORT_SPAN),
                    long: Window::new(LONG_SPAN),
                },
            );
        }
        let ghost before = self.entries@;
        assert(old(self).recent(record.symbol@) == before[at as int].long@) by {
            if at == old(self).entries@.len() {
            } else {
                assert(old(self).tracks(at as int, record.symbol@));
            }
        }
        assert(forall|i: int, j: int|
            0 <= i < before.len() && 0 <= j < before.len() && (#[trigger] before[i]).symbol@ == (
            #[trigger] before[j]).symbol@ ==> i == j) by {
            assert(forall|i: int| 0 <= i < old(self).entries@.len() ==> before[i] == old(
                self,
            ).entries@[i]);
            assert(forall|i: int|
                0 <= i < old(self).entries@.len() ==> !old(self).tracks(i, record.symbol@) ==> (
                #[trigger] before[i]).symbol@ != record.symbol@);
        }
        let close = record.close.units;
        proof {
            before[at as int].long.lemma_within_capacity();
            lemma_short_follows_long(before[at as int].long@, close);
        }
        self.entries[at].short.push(close);
        self.entries[at].long.push(close);
        let avg_50 = self.entries[at].short.mean();
        let avg_100 = self.entries[at].long.mean();
        proof {
            assert(self.entries@.len() == before.len());
            assert(forall|j: int|
                0 <= j < before.len() && j != at ==> #[trigger] self.entries@[j] == before[j]);
            assert(self.entries@[at as int].symbol == before[at as int].symbol);
            assert(self.entries@[at as int].long@ == slide(
                before[at as int].long@,
                close,
                LONG_SPAN as int,
            ));
            assert(self.wf());
            assert forall|symbol: Seq<char>|
                #[trigger] self.recent(symbol) == if symbol == record.symbol@ {
                    slide(old(self).recent(symbol), record.close.units, LONG_SPAN as int)
                } else {
                    old(self).recent(symbol)
                } by {
                if symbol == record.symbol@ {
                    assert(self.tracks(at as int, symbol));
                } else if exists|i: int| old(self).tracks(i, symbol) {
                    let i = choose|i: int| old(self).tracks(i, symbol);
                    assert(self.tracks(i, symbol));
                } else {
                    assert forall|i: int| !self.tracks(i, symbol) by {
                        if self.tracks(i, symbol) {
                            assert(old(self).tracks(i, symbol));
                        }
                    }
                }
            }
        }
        Record {
            timestamp: record.timestamp,
            symbol: record.symbol,
            open: record.open,
            high: record.high,
            low: record.low,
            close: record.close,
            volume_base: record.volume_base,
            volume_quote: record.volume_quote,
            avg_50: Some(Decimal { units: avg_50 }),
            avg_100: Some(Decimal { units: avg_100 }),
        }
    }
}

/// A window over the latest 50 values stays the end of a window over the
/// latest 100 when the same value enters both.
proof fn lemma_short_follows_long(long: Seq<i64>, value: i64)
    requires
        long.len() <= LONG_SPAN,
    ensures
        slide(trailing(long, SHORT_SPAN as int), value, SHORT_SPAN as int) == trailing(
            slide(long, value, LONG_SPAN as int),
            SHORT_SPAN as int,
        ),
        slide(long, value, LONG_SPAN as int).len() > 0,
{
    assert(slide(trailing(long, SHORT_SPAN as int), value, SHORT_SPAN as int) =~= trailing(
        slide(long, value, LONG_SPAN as int),
        SHORT_SPAN as int,
    ));
}

/// The closing prices of the bars of one symbol in a stream, in order.
pub open spec fn closes_of(stream: Seq<RecordView>, symbol: Seq<char>) -> Seq<i64>
    decreases stream.len(),
{
    if stream.len() == 0 {
        Seq::empty()
    } else if stream.last().symbol == symbol {
        closes_of(stream.drop_last(), symbol).push(stream.last().close.units)
    } else {
        closes_of(stream.drop_last(), symbol)
    }
}

/// The window of a symbol in an engine that has taken in a stream of bars,
/// one after the other, starting with no symbol seen.
pub open spec fn recent_after(stream: Seq<RecordView>, symbol: Seq<char>) -> Seq<i64>
    decreases stream.len(),
{
    if stream.len() == 0 {
        Seq::empty()
    } else if stream.last().symbol == symbol {
        slide(recent_after(stream.drop_last(), symbol), stream.last().close.units, LONG_SPAN as int)
    } else {
        recent_after(stream.drop_last(), symbol)
    }
}

/// What an engine that starts with no symbol seen returns for a stream of
/// bars: each bar with the averages from the window of its symbol after the
/// bar has entered it.
pub open spec fn enriched_stream(stream: Seq<RecordView>) -> Seq<RecordView> {
    Seq::new(
        stream.len(),
        |k: int| enriched(stream[k], recent_after(stream.take(k + 1), stream[k].symbol)),
    )
}

/// The window of a symbol holds the latest closing prices of that symbol's
/// own bars, at most 100 of them, whatever bars of other symbols came in
/// between; its latest 50 values are the latest 50 of the symbol.
pub proof fn lemma_window_holds_latest(stream: Seq<RecordView>, symbol: Seq<char>)
    ensures
        recent_after(stream, symbol) == trailing(closes_of(stream, symbol), LONG_SPAN as int),
        trailing(recent_after(stream, symbol), SHORT_SPAN as int) == trailing(
            closes_of(stream, symbol),
            SHORT_SPAN as int,
        ),
    decreases stream.len(),
{
    if stream.len() > 0 {
        lemma_window_holds_latest(stream.drop_last(), symbol);
        let closes = closes_of(stream.drop_last(), symbol);
        if stream.last().symbol == symbol {
            let value = stream.last().close.units;
            assert(slide(trailing(closes, LONG_SPAN as int), value, LONG_SPAN as int) =~= trailing(
                closes.push(value),
                LONG_SPAN as int,
            ));
        }
    }
    assert(trailing(trailing(closes_of(stream, symbol), LONG_SPAN as int), SHORT_SPAN as int)
        =~= trailing(closes_of(stream, symbol), SHORT_SPAN as int));
}

/// The averages of the bar at place `k` of a stream are the means of the
/// latest closing prices of its symbol up to and with that bar: of the last
/// 50, or of all if there are fewer, and of the last 100, or of all if there
/// are fewer. The sum is divided by the number of prices that there are.
pub proof fn lemma_averages_of_stream(stream: Seq<RecordView>, k: int)
    requires
        0 <= k < stream.len(),
    ensures
        ({
            let seen = closes_of(stream.take(k + 1), stream[k].symbol);
            let out = enriched_stream(stream)[k];
            &&& seen.len() > 0
            &&& seen.last() == stream[k].close.units
            &&& out.avg_50 == Some(
                Decimal { units: mean_of(trailing(seen, SHORT_SPAN as int)) as i64 },
            )
            &&& out.avg_100 == Some(
                Decimal { units: mean_of(trailing(seen, LONG_SPAN as int)) as i64 },
            )
            &&& trailing(seen, SHORT_SPAN as int).len() == if seen.len() < SHORT_SPAN {
                seen.len()
            } else {
                SHORT_SPAN as nat
            }
        }),
{
    lemma_window_holds_latest(stream.take(k + 1), stream[k].symbol);
    assert(stream.take(k + 1).last() == stream[k]);
}

} // verus!
