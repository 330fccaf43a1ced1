use price_parser::decimal::Decimal;
use price_parser::pipeline::{ErrorPolicy, Outcome, Pipeline, RunReport};
use price_parser::record::{AssembleError, Column, Field, Row, Violation};

fn row(number: u64, date: &str, symbol: &str, low: &str, close: &str, high: &str) -> Row {
    let texts = [
        ("Date", date),
        ("Symbol", symbol),
        ("Open", close),
        ("High", high),
        ("Low", low),
        ("Close", close),
        ("Volume BTC", "1.5"),
        ("Volume USD", "15000"),
    ];
    Row {
        number,
        fields: texts
            .iter()
            .map(|(column, text)| Field { column: column.to_string(), text: text.to_string() })
            .collect(),
    }
}

fn good(number: u64, symbol: &str, close: i64) -> Row {
    row(
        number,
        "2021-03-04 10-AM",
        symbol,
        &format!("{}", close - 1),
        &format!("{}", close),
        &format!("{}", close + 1),
    )
}

fn low_above_high(number: u64, symbol: &str) -> Row {
    row(number, "2021-03-04 11-AM", symbol, "500", "400", "300")
}

fn closes(report: &RunReport) -> Vec<(String, i64)> {
    report.emitted.iter().map(|r| (r.symbol.clone(), r.close.units / 100_000_000)).collect()
}

#[test]
fn the_default_policy_aborts() {
    assert_eq!(ErrorPolicy::default(), ErrorPolicy::AbortOnFirstError);
    let mut pipeline = Pipeline::new();
    assert_eq!(
        pipeline.feed(&low_above_high(1, "A")),
        Outcome::Aborted(AssembleError::InvariantViolationError {
            row: 1,
            violation: Violation::LowAboveHigh
        })
    );
}

#[test]
fn a_bar_comes_back_with_its_averages() {
    let mut pipeline = Pipeline::new();
    match pipeline.feed(&good(1, "A", 100)) {
        Outcome::Emitted(out) => {
            assert_eq!(out.symbol, "A");
            assert_eq!(out.close, Decimal { units: 10_000_000_000 });
            assert_eq!(out.avg_50, Some(Decimal { units: 10_000_000_000 }));
            assert_eq!(out.avg_100, Some(Decimal { units: 10_000_000_000 }));
        }
        other => panic!("{:?}", other),
    }
    match pipeline.feed(&good(2, "A", 200)) {
        Outcome::Emitted(out) => {
            assert_eq!(out.avg_50, Some(Decimal { units: 15_000_000_000 }));
            assert_eq!(out.avg_100, Some(Decimal { units: 15_000_000_000 }));
        }
        other => panic!("{:?}", other),
    }
}

#[test]
fn a_skipped_row_is_reported_and_the_run_goes_on() {
    let mut pipeline = Pipeline::with_policy(ErrorPolicy::SkipAndContinue);
    assert!(matches!(pipeline.feed(&good(1, "A", 100)), Outcome::Emitted(_)));
    assert_eq!(
        pipeline.feed(&low_above_high(2, "A")),
        Outcome::Skipped(AssembleError::InvariantViolationError {
            row: 2,
            violation: Violation::LowAboveHigh
        })
    );
    match pipeline.feed(&good(3, "A", 300)) {
        Outcome::Emitted(out) => assert_eq!(out.avg_50, Some(Decimal { units: 20_000_000_000 })),
        other => panic!("{:?}", other),
    }
}

#[test]
fn a_run_over_no_rows() {
    for policy in [ErrorPolicy::AbortOnFirstError, ErrorPolicy::SkipAndContinue] {
        let report = Pipeline::run(&Vec::new(), policy);
        assert_eq!(report, RunReport { emitted: Vec::new(), skipped: Vec::new(), aborted: None });
    }
}

#[test]
fn bars_come_out_in_the_order_of_the_rows() {
    let rows = vec![good(1, "A", 10), good(2, "B", 20), good(3, "A", 30), good(4, "B", 40)];
    for policy in [ErrorPolicy::AbortOnFirstError, ErrorPolicy::SkipAndContinue] {
        let report = Pipeline::run(&rows, policy);
        assert_eq!(
            closes(&report),
            vec![
                ("A".to_string(), 10),
                ("B".to_string(), 20),
                ("A".to_string(), 30),
                ("B".to_string(), 40)
            ]
        );
        assert_eq!(report.emitted[2].avg_50, Some(Decimal { units: 2_000_000_000 }));
        assert_eq!(report.emitted[3].avg_100, Some(Decimal { units: 3_000_000_000 }));
        assert!(report.skipped.is_empty());
        assert_eq!(report.aborted, None);
    }
}

#[test]
fn a_skipped_row_is_as_if_it_were_absent() {
    let mut rows = Vec::new();
    for k in 0..120u64 {
        rows.push(good(2 * k, "A", 1_000 + (k as i64 * 17) % 91));
        rows.push(good(2 * k + 1, "B", 50 + k as i64));
    }
    let mut with_bad = rows.clone();
    with_bad.insert(131, low_above_high(9_000, "A"));
    with_bad.insert(7, low_above_high(9_001, "B"));
    let clean = Pipeline::run(&rows, ErrorPolicy::SkipAndContinue);
    let report = Pipeline::run(&with_bad, ErrorPolicy::SkipAndContinue);
    assert_eq!(report.emitted.len(), 240);
    assert_eq!(report.emitted, clean.emitted);
    assert_eq!(report.emitted[7], clean.emitted[7]);
    assert_eq!(
        report.skipped,
        vec![
            AssembleError::InvariantViolationError {
                row: 9_001,
                violation: Violation::LowAboveHigh
            },
            AssembleError::InvariantViolationError {
                row: 9_000,
                violation: Violation::LowAboveHigh
            },
        ]
    );
    assert_eq!(report.aborted, None);
    assert!(clean.skipped.is_empty());
}

#[test]
fn every_kind_of_error_is_skipped() {
    let mut missing = good(2, "A", 20);
    missing.fields.remove(5);
    let rows = vec![
        good(1, "A", 10),
        missing,
        row(3, "2021-03-04 25-AM", "A", "1", "2", "3"),
        row(4, "2021-03-04 10-AM", "A", "1", "two", "3"),
        low_above_high(5, "A"),
        good(6, "A", 30),
    ];
    let report = Pipeline::run(&rows, ErrorPolicy::SkipAndContinue);
    assert_eq!(closes(&report), vec![("A".to_string(), 10), ("A".to_string(), 30)]);
    assert_eq!(report.emitted[1].avg_50, Some(Decimal { units: 2_000_000_000 }));
    assert_eq!(report.skipped.len(), 4);
    assert_eq!(report.skipped[0], AssembleError::SchemaError { row: 2, column: Column::Close });
    assert!(matches!(report.skipped[1], AssembleError::TimestampFormatError { row: 3, .. }));
    assert_eq!(
        report.skipped[2],
        AssembleError::FieldParseError { row: 4, column: Column::Open, raw: "two".to_string() }
    );
    assert!(matches!(report.skipped[3], AssembleError::InvariantViolationError { row: 5, .. }));
    assert_eq!(report.aborted, None);
}

#[test]
fn the_first_error_ends_an_aborting_run() {
    let rows = vec![
        good(1, "A", 10),
        good(2, "A", 20),
        low_above_high(3, "A"),
        good(4, "A", 30),
        row(5, "never", "A", "1", "2", "3"),
    ];
    let report = Pipeline::run(&rows, ErrorPolicy::AbortOnFirstError);
    assert_eq!(closes(&report), vec![("A".to_string(), 10), ("A".to_string(), 20)]);
    assert!(report.skipped.is_empty());
    assert_eq!(
        report.aborted,
        Some(AssembleError::InvariantViolationError { row: 3, violation: Violation::LowAboveHigh })
    );
}

#[test]
fn a_run_is_a_fresh_pipeline_fed_row_by_row() {
    let rows = vec![good(1, "A", 10), low_above_high(2, "B"), good(3, "B", 20), good(4, "A", 31)];
    let report = Pipeline::run(&rows, ErrorPolicy::SkipAndContinue);
    let mut pipeline = Pipeline::with_policy(ErrorPolicy::SkipAndContinue);
    let mut emitted = Vec::new();
    let mut skipped = Vec::new();
    for r in &rows {
        match pipeline.feed(r) {
            Outcome::Emitted(out) => emitted.push(out),
            Outcome::Skipped(e) => skipped.push(e),
            Outcome::Aborted(e) => panic!("{:?}", e),
        }
    }
    assert_eq!(report, RunReport { emitted, skipped, aborted: None });
}
