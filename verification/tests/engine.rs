use price_parser::decimal::Decimal;
use price_parser::engine::{MovingAverageEngine, LONG_SPAN, SHORT_SPAN};
use price_parser::parse_csv_date::Timestamp;
use price_parser::record::Record;

fn bar(symbol: &str, close: i64) -> Record {
    Record {
        timestamp: Timestamp { year: 2021, month: 3, day: 4, hour: 10 },
        symbol: symbol.to_string(),
        open: Decimal { units: close },
        high: Decimal { units: close },
        low: Decimal { units: close },
        close: Decimal { units: close },
        volume_base: Decimal { units: 1 },
        volume_quote: Decimal { units: 2 },
        avg_50: None,
        avg_100: None,
    }
}

fn mean_of_last(closes: &[i64], count: usize) -> i64 {
    let from = closes.len().saturating_sub(count);
    let sum: i128 = closes[from..].iter().map(|c| *c as i128).sum();
    (sum / (closes.len() - from) as i128) as i64
}

fn averages(out: &Record) -> (i64, i64) {
    (out.avg_50.unwrap().units, out.avg_100.unwrap().units)
}

#[test]
fn the_spans_of_the_averages() {
    assert_eq!(SHORT_SPAN, 50);
    assert_eq!(LONG_SPAN, 100);
}

#[test]
fn the_first_bar_is_its_own_average() {
    let mut engine = MovingAverageEngine::new();
    let out = engine.observe(bar("BTCUSD", 928_001_000_000));
    assert_eq!(out.avg_50, Some(Decimal { units: 928_001_000_000 }));
    assert_eq!(out.avg_100, Some(Decimal { units: 928_001_000_000 }));
}

#[test]
fn only_the_averages_of_a_bar_change() {
    let mut engine = MovingAverageEngine::new();
    let mut given = bar("BTCUSD", 500);
    given.open = Decimal { units: 400 };
    given.high = Decimal { units: 600 };
    given.low = Decimal { units: 300 };
    given.avg_50 = Some(Decimal { units: -1 });
    let out = engine.observe(given.clone());
    let mut expected = given;
    expected.avg_50 = Some(Decimal { units: 500 });
    expected.avg_100 = Some(Decimal { units: 500 });
    assert_eq!(out, expected);
}

#[test]
fn averages_before_the_windows_are_full() {
    let mut engine = MovingAverageEngine::new();
    assert_eq!(averages(&engine.observe(bar("A", 100))), (100, 100));
    assert_eq!(averages(&engine.observe(bar("A", 200))), (150, 150));
    assert_eq!(averages(&engine.observe(bar("A", 600))), (300, 300));
    assert_eq!(averages(&engine.observe(bar("A", 101))), (250, 250));
}

#[test]
fn constant_closes_give_constant_averages() {
    let hundred = 100.0f64;
    let close = Decimal::parse("100.0").unwrap();
    let mut engine = MovingAverageEngine::new();
    for _ in 0..150 {
        let mut given = bar("BTCUSD", close.units);
        given.close = close;
        let out = engine.observe(given);
        assert_eq!(out.avg_50, Some(close));
        assert_eq!(out.avg_100, Some(close));
        assert_eq!(out.avg_50.unwrap().units as f64 / 1e8, hundred);
        assert_eq!(out.avg_100.unwrap().units as f64 / 1e8, hundred);
    }
}

#[test]
fn averages_are_the_means_of_the_latest_closes() {
    let mut engine = MovingAverageEngine::new();
    let mut closes: Vec<i64> = Vec::new();
    for k in 0..260i64 {
        let close = (k * 7_919 % 1_013 - 300) * 100_000_000 + k * 37;
        closes.push(close);
        let out = engine.observe(bar("BTCUSD", close));
        assert_eq!(out.avg_50.unwrap().units, mean_of_last(&closes, 50));
        assert_eq!(out.avg_100.unwrap().units, mean_of_last(&closes, 100));
        let exact: f64 = closes[closes.len().saturating_sub(50)..]
            .iter()
            .map(|c| *c as f64 / 1e8)
            .sum::<f64>()
            / closes.len().min(50) as f64;
        assert!((out.avg_50.unwrap().units as f64 / 1e8 - exact).abs() < 1e-6);
    }
}

#[test]
fn the_fiftieth_and_the_fifty_first_bar() {
    let mut engine = MovingAverageEngine::new();
    let mut last = (0, 0);
    for k in 1..=50i64 {
        last = averages(&engine.observe(bar("A", k * 100)));
    }
    assert_eq!(last, (2_550, 2_550));
    assert_eq!(averages(&engine.observe(bar("A", 5_100))), (2_650, 2_600));
    for k in 52..=100i64 {
        last = averages(&engine.observe(bar("A", k * 100)));
    }
    assert_eq!(last, (7_550, 5_050));
    assert_eq!(averages(&engine.observe(bar("A", 10_100))), (7_650, 5_150));
}

#[test]
fn symbols_do_not_mix() {
    let mut both = MovingAverageEngine::new();
    let mut only_a = MovingAverageEngine::new();
    let mut only_b = MovingAverageEngine::new();
    for k in 0..230i64 {
        let a = bar("AAA", 1_000 + k * k);
        let b = bar("BBB", -5_000_000 + 13 * k);
        assert_eq!(both.observe(a.clone()), only_a.observe(a));
        if k % 3 != 1 {
            assert_eq!(both.observe(b.clone()), only_b.observe(b));
        }
    }
}

#[test]
fn symbols_differ_by_any_character() {
    let mut engine = MovingAverageEngine::new();
    assert_eq!(averages(&engine.observe(bar("btc", 10))), (10, 10));
    assert_eq!(averages(&engine.observe(bar("BTC", 30))), (30, 30));
    assert_eq!(averages(&engine.observe(bar("BTC ", 50))), (50, 50));
    assert_eq!(averages(&engine.observe(bar("", 70))), (70, 70));
    assert_eq!(averages(&engine.observe(bar("btc", 20))), (15, 15));
    assert_eq!(averages(&engine.observe(bar("", 72))), (71, 71));
}

#[test]
fn negative_means_are_rounded_towards_zero() {
    let mut engine = MovingAverageEngine::new();
    engine.observe(bar("A", -3));
    assert_eq!(averages(&engine.observe(bar("A", -4))), (-3, -3));
    assert_eq!(averages(&engine.observe(bar("A", 6))), (0, 0));
}
