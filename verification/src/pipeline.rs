//! The pipeline: rows are assembled into bars, the bars go through the
//! moving-average engine, and what comes out is handed on in the order of the
//! rows.

use crate::engine::{enriched, enriched_stream, recent_after, MovingAverageEngine, LONG_SPAN};
use crate::record::{assemble, assembled, AssembleError, AssembleErrorView, Record, RecordView, Row};
use crate::window::slide;
use vstd::prelude::*;

verus! {

/// What the pipeline does with a row that is no bar.
#[derive(Clone, Copy, Debug, PartialEq, Eq, Structural)]
pub enum ErrorPolicy {
    /// The first such row ends the run.
    AbortOnFirstError,
    /// The row is dropped and reported, and the run goes on.
    SkipAndContinue,
}

impl Default for ErrorPolicy {
    fn default() -> (policy: ErrorPolicy)
        ensures
            policy == ErrorPolicy::AbortOnFirstError,
    {
        ErrorPolicy::AbortOnFirstError
    }
}

/// What became of one row.
#[derive(Clone, Debug, PartialEq, Eq)]
pub enum Outcome {
    /// The row was a bar: here it is with its averages, for the sink.
    Emitted(Record),
    /// The row was no bar and is dropped; the run goes on.
    Skipped(AssembleError),
    /// The row was no bar, and the run ends here.
    Aborted(AssembleError),
}

/// What a run over a sequence of rows gave.
#[derive(Clone, Debug, PartialEq, Eq)]
pub struct RunReport {
    /// The bars with their averages, in the order of their rows.
    pub emitted: Vec<Record>,
    /// The errors of the rows that were dropped, in the order of the rows.
    pub skipped: Vec<AssembleError>,
    /// The error that ended the run, if one did.
    pub aborted: Option<AssembleError>,
}

/// The bars that a run takes from a sequence of rows, in order: those of the
/// rows that assemble, under `AbortOnFirstError` only up to the first row
/// that does not.
pub open spec fn accepted(rows: Seq<Row>, policy: ErrorPolicy) -> Seq<RecordView>
    decreases rows.len(),
{
    if rows.len() == 0 {
        Seq::empty()
    } else {
        match assembled(rows[0]) {
            Ok(bar) => seq![bar] + accepted(rows.drop_first(), policy),
            Err(_) => match policy {
                ErrorPolicy::SkipAndContinue => accepted(rows.drop_first(), policy),
                ErrorPolicy::AbortOnFirstError => Seq::empty(),
            },
        }
    }
}

/// The errors that a run drops rows for, in order: under `SkipAndContinue`
/// those of all rows that do not assemble, under `AbortOnFirstError` none.
pub open spec fn dropped(rows: Seq<Row>, policy: ErrorPolicy) -> Seq<AssembleErrorView>
    decreases rows.len(),
{
    if rows.len() == 0 {
        Seq::empty()
    } else {
        match assembled(rows[0]) {
            Ok(_) => dropped(rows.drop_first(), policy),
            Err(e) => match policy {
                ErrorPolicy::SkipAndContinue => seq![e] + dropped(rows.drop_first(), policy),
                ErrorPolicy::AbortOnFirstError => Seq::empty(),
            },
        }
    }
}

/// The error that ends a run: under `AbortOnFirstError` that of the first row
/// that does not assemble, if there is one; under `SkipAndContinue` none.
pub open spec fn abort_cause(rows: Seq<Row>, policy: ErrorPolicy) -> Option<AssembleErrorView>
    decreases rows.len(),
{
    if rows.len() == 0 {
        None
    } else {
        match assembled(rows[0]) {
            Ok(_) => abort_cause(rows.drop_first(), policy),
            Err(e) => match policy {
                ErrorPolicy::SkipAndContinue => abort_cause(rows.drop_first(), policy),
                ErrorPolicy::AbortOnFirstError => Some(e),
            },
        }
    }
}

pub open spec fn record_views(records: Seq<Record>) -> Seq<RecordView> {
    Seq::new(records.len(), |i: int| records[i]@)
}

pub open spec fn error_views(errors: Seq<AssembleError>) -> Seq<AssembleErrorView> {
    Seq::new(errors.len(), |i: int| errors[i]@)
}

/// Assembles rows, takes the bars through the moving-average engine one at a
/// time and returns each at once. It keeps nothing but the engine.
pub struct Pipeline {
    engine: MovingAverageEngine,
    policy: ErrorPolicy,
}

impl Pipeline {
    pub closed spec fn wf(&self) -> bool {
        self.engine.wf()
    }

    /// What the pipeline does with a row that is no bar.
    pub closed spec fn policy(&self) -> ErrorPolicy {
        self.policy
    }

    /// The latest closing prices of a symbol that went through, at most 100.
    pub closed spec fn recent(&self, symbol: Seq<char>) -> Seq<i64> {
        self.engine.recent(symbol)
    }

    /// A pipeline that has seen no row and ends the run on the first error.
    pub fn new() -> (pipeline: Pipeline)
        ensures
            pipeline.wf(),
            pipeline.policy() == ErrorPolicy::AbortOnFirstError,
            forall|symbol: Seq<char>| #[trigger] pipeline.recent(symbol) == Seq::<i64>::empty(),
    {
        Pipeline::with_policy(ErrorPolicy::AbortOnFirstError)
    }

    /// A pipeline that has seen no row, with the policy given.
    pub fn with_policy(policy: ErrorPolicy) -> (pipeline: Pipeline)
        ensures
            pipeline.wf(),
            pipeline.policy() == policy,
            forall|symbol: Seq<char>| #[trigger] pipeline.recent(symbol) == Seq::<i64>::empty(),
    {
        let engine = MovingAverageEngine::new();
        assert(forall|symbol: Seq<char>| #[trigger]
            engine.recent(symbol) == Seq::<i64>::empty());
        Pipeline { engine, policy }
    }

    /// Takes in one row and says what is to be done with it.
    ///
    /// A row that assembles goes through the engine and comes back with its
    /// averages, to be handed to the sink. A row that does not is dropped
    /// under `SkipAndContinue`, and ends the run under `AbortOnFirstError`;
    /// either way no window has changed.
    pub fn feed(&mut self, row: &Row) -> (outcome: Outcome)
        requires
            old(self).wf(),
        ensures
            final(self).wf(),
            final(self).policy() == old(self).policy(),
            match assembled(*row) {
                Ok(bar) => {
                    &&& outcome matches Outcome::Emitted(out)
                    &&& out@ == enriched(bar, final(self).recent(bar.symbol))
                    &&& forall|symbol: Seq<char>|
                        #[trigger] final(self).recent(symbol) == if symbol == bar.symbol {
                            slide(old(self).recent(symbol), bar.close.units, LONG_SPAN as int)
                        } else {
                            old(self).recent(symbol)
                        }
                },
                Err(e) => {
                    &&& forall|symbol: Seq<char>|
                        #[trigger] final(self).recent(symbol) == old(self).recent(symbol)
                    &&& match old(self).policy() {
                        ErrorPolicy::SkipAndContinue => outcome matches Outcome::Skipped(err)
                            && err@ == e,
                        ErrorPolicy::AbortOnFirstError => outcome matches Outcome::Aborted(err)
                            && err@ == e,
                    }
                },
            },
    {
        match assemble(row) {
            Ok(record) => Outcome::Emitted(self.engine.observe(record)),
            Err(e) => match self.policy {
                ErrorPolicy::SkipAndContinue => Outcome::Skipped(e),
                ErrorPolicy::AbortOnFirstError => Outcome::Aborted(e),
            },
        }
    }

    /// Runs a fresh pipeline over rows, in their order.
    ///
    /// The bars come out in the order of their rows, each with the averages
    /// that the bars before it and itself give. Under `SkipAndContinue` the
    /// rows that do not assemble are left out and their errors reported;
    /// under `AbortOnFirstError` the run ends at the first such row, with
    /// its error, and what came out before it stays.
    pub fn run(rows: &Vec<Row>, policy: ErrorPolicy) -> (report: RunReport)
        ensures
            record_views(report.emitted@) == enriched_stream(accepted(rows@, policy)),
            error_views(report.skipped@) == dropped(rows@, policy),
            match report.aborted {
                Some(e) => abort_cause(rows@, policy) == Some(e@),
                None => abort_cause(rows@, policy) is None,
            },
    {
        let mut pipeline = Pipeline::with_policy(policy);
        let mut emitted: Vec<Record> = Vec::new();
        let mut skipped: Vec<AssembleError> = Vec::new();
        let mut aborted: Option<AssembleError> = None;
        let ghost mut taken: Seq<RecordView> = Seq::empty();
        let mut i: usize = 0;
        assert(rows@.skip(0) =~= rows@);
        assert(record_views(emitted@) =~= enriched_stream(taken));
        assert(error_views(skipped@) =~= Seq::<AssembleErrorView>::empty());
        while i < rows.len() && aborted.is_none()
            invariant
                i <= rows.len(),
                pipeline.wf(),
                pipeline.policy() == policy,
                forall|symbol: Seq<char>| #[trigger]
                    pipeline.recent(symbol) == recent_after(taken, symbol),
                record_views(emitted@) == enriched_stream(taken),
                aborted is None ==> accepted(rows@, policy) == taken + accepted(
                    rows@.skip(i as int),
                    policy,
                ),
                aborted is None ==> dropped(rows@, policy) == error_views(skipped@) + dropped(
                    rows@.skip(i as int),
                    policy,
                ),
                aborted is None ==> abort_cause(rows@, policy) == abort_cause(
                    rows@.skip(i as int),
                    policy,
                ),
                aborted matches Some(e) ==> {
                    &&& accepted(rows@, policy) == taken
                    &&& dropped(rows@, policy) == error_views(skipped@)
                    &&& abort_cause(rows@, policy) == Some(e@)
                },
            decreases (rows.len() - i) + (if aborted is None { 1int } else { 0int }),
        {
            let ghost before = emitted@;
            let ghost errors_before = skipped@;
            proof {
                lemma_next_row(rows@, i as int, policy);
            }
            match pipeline.feed(&rows[i]) {
                Outcome::Emitted(out) => {
                    emitted.push(out);
                    proof {
                        let bar = assembled(rows@[i as int])->Ok_0;
                        lemma_stream_grows(taken, bar);
                        assert(record_views(emitted@) =~= record_views(before).push(out@));
                        assert(taken + (seq![bar] + accepted(rows@.skip(i + 1), policy))
                            =~= taken.push(bar) + accepted(rows@.skip(i + 1), policy));
                        taken = taken.push(bar);
                    }
                    i += 1;
                },
                Outcome::Skipped(e) => {
                    skipped.push(e);
                    proof {
                        assert(error_views(skipped@) =~= error_views(errors_before).push(e@));
                        assert(error_views(errors_before) + (seq![e@] + dropped(
                            rows@.skip(i + 1),
                            policy,
                        )) =~= error_views(skipped@) + dropped(rows@.skip(i + 1), policy));
                    }
                    i += 1;
                },
                Outcome::Aborted(e) => {
                    proof {
                        assert(taken + Seq::<RecordView>::empty() =~= taken);
                        assert(error_views(skipped@) + Seq::<AssembleErrorView>::empty()
                            =~= error_views(skipped@));
                    }
                    aborted = Some(e);
                },
            }
        }
        proof {
            if aborted is None {
                assert(taken + Seq::<RecordView>::empty() =~= taken);
                assert(error_views(skipped@) + Seq::<AssembleErrorView>::empty() =~= error_views(
                    skipped@,
                ));
            }
        }
        RunReport { emitted, skipped, aborted }
    }
}

/// What the first of the rows from place `at` on adds to a run.
proof fn lemma_next_row(rows: Seq<Row>, at: int, policy: ErrorPolicy)
    requires
        0 <= at < rows.len(),
    ensures
        accepted(rows.skip(at), policy) == match assembled(rows[at]) {
            Ok(bar) => seq![bar] + accepted(rows.skip(at + 1), policy),
            Err(_) => match policy {
                ErrorPolicy::SkipAndContinue => accepted(rows.skip(at + 1), policy),
                ErrorPolicy::AbortOnFirstError => Seq::empty(),
            },
        },
        dropped(rows.skip(at), policy) == match assembled(rows[at]) {
            Ok(_) => dropped(rows.skip(at + 1), policy),
            Err(e) => match policy {
                ErrorPolicy::SkipAndContinue => seq![e] + dropped(rows.skip(at + 1), policy),
                ErrorPolicy::AbortOnFirstError => Seq::empty(),
            },
        },
        abort_cause(rows.skip(at), policy) == match assembled(rows[at]) {
            Ok(_) => abort_cause(rows.skip(at + 1), policy),
            Err(e) => match policy {
                ErrorPolicy::SkipAndContinue => abort_cause(rows.skip(at + 1), policy),
                ErrorPolicy::AbortOnFirstError => Some(e),
            },
        },
{
    assert(rows.skip(at)[0] == rows[at]);
    assert(rows.skip(at).drop_first() =~= rows.skip(at + 1));
}

/// What one more bar adds to what the engine returns for a stream, and to
/// the windows after it.
proof fn lemma_stream_grows(stream: Seq<RecordView>, bar: RecordView)
    ensures
        enriched_stream(stream.push(bar)) == enriched_stream(stream).push(
            enriched(bar, recent_after(stream.push(bar), bar.symbol)),
        ),
        forall|symbol: Seq<char>| #[trigger]
            recent_after(stream.push(bar), symbol) == if symbol == bar.symbol {
                slide(recent_after(stream, symbol), bar.close.units, LONG_SPAN as int)
            } else {
                recent_after(stream, symbol)
            },
{
    let longer = stream.push(bar);
    assert(longer.drop_last() =~= stream);
    assert forall|k: int| 0 <= k < longer.len() implies #[trigger] enriched_stream(longer)[k]
        == enriched_stream(stream).push(enriched(bar, recent_after(longer, bar.symbol)))[k] by {
        if k < stream.len() {
            assert(longer.take(k + 1) =~= stream.take(k + 1));
        } else {
            assert(longer.take(k + 1) =~= longer);
        }
    }
    assert(enriched_stream(longer) =~= enriched_stream(stream).push(
        enriched(bar, recent_after(longer, bar.symbol)),
    ));
}

/// A row that does not assemble leaves no trace in what a run under
/// `SkipAndContinue` hands on: the bars that come out, and with them their
/// averages, are those of a run over the rows without it.
pub proof fn lemma_skipped_row_leaves_no_trace(rows: Seq<Row>, at: int)
    requires
        0 <= at < rows.len(),
        assembled(rows[at]) is Err,
    ensures
        accepted(rows, ErrorPolicy::SkipAndContinue) == accepted(
            rows.remove(at),
            ErrorPolicy::SkipAndContinue,
        ),
        enriched_stream(accepted(rows, ErrorPolicy::SkipAndContinue)) == enriched_stream(
            accepted(rows.remove(at), ErrorPolicy::SkipAndContinue),
        ),
    decreases at,
{
    if at == 0 {
        assert(rows.remove(0) =~= rows.drop_first());
    } else {
        lemma_skipped_row_leaves_no_trace(rows.drop_first(), at - 1);
        assert(rows.remove(at).drop_first() =~= rows.drop_first().remove(at - 1));
        assert(rows.remove(at)[0] == rows[0]);
    }
}

} // verus!
