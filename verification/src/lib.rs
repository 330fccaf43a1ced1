//! Ingestion, validation and enrichment of hourly OHLCV price bars.
//!
//! A row of named text fields is assembled into a bar, whose timestamp is
//! read from the fixed `YYYY-MM-DD HH-AP` layout and whose prices and volumes
//! are exact decimal numbers. The bar then goes through the moving-average
//! engine, which gives it the simple moving averages of the last 50 and the
//! last 100 closing prices of its symbol, and is handed on in the order of
//! the rows.
//!
//! - [`parse_csv_date`]: the timestamp column, read and written.
//! - [`decimal`]: the numeric columns.
//! - [`record`]: rows, bars, and the errors of a row that is no bar.
//! - [`window`]: a bounded window over the latest values of a series.
//! - [`engine`]: the moving averages, symbol by symbol.
//! - [`pipeline`]: rows in, bars with averages out, under an error policy.

pub mod decimal;
pub mod engine;
pub mod parse_csv_date;
pub mod pipeline;
pub mod record;
pub mod window;
