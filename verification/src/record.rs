//! One price bar, the row of text fields it is read from, and the errors of
//! a row that is no bar.

use crate::decimal::{decimal_units, Decimal};
use crate::parse_csv_date::{deserialize, normalized, Timestamp, TimestampFormatError};
use vstd::prelude::*;
use vstd::string::*;

verus! {

/// The columns that a row must have.
#[derive(Clone, Copy, Debug, PartialEq, Eq, Structural)]
pub enum Column {
    Date,
    Symbol,
    Open,
    High,
    Low,
    Close,
    VolumeBase,
    VolumeQuote,
}

impl Column {
    /// The column's name in the header of the table.
    pub open spec fn name(self) -> Seq<char> {
        match self {
            Column::Date => "Date"@,
            Column::Symbol => "Symbol"@,
            Column::Open => "Open"@,
            Column::High => "High"@,
            Column::Low => "Low"@,
            Column::Close => "Close"@,
            Column::VolumeBase => "Volume BTC"@,
            Column::VolumeQuote => "Volume USD"@,
        }
    }

    /// The column's name in the header of the table.
    pub fn header(self) -> (r: &'static str)
        ensures
            r@ == self.name(),
    {
        match self {
            Column::Date => "Date",
            Column::Symbol => "Symbol",
            Column::Open => "Open",
            Column::High => "High",
            Column::Low => "Low",
            Column::Close => "Close",
            Column::VolumeBase => "Volume BTC",
            Column::VolumeQuote => "Volume USD",
        }
    }
}

/// One named text field of a row.
#[derive(Clone, Debug, PartialEq, Eq)]
pub struct Field {
    pub column: String,
    pub text: String,
}

/// One row of the table: its number and its fields in the order of the table.
#[derive(Clone, Debug, PartialEq, Eq)]
pub struct Row {
    pub number: u64,
    pub fields: Vec<Field>,
}

/// A relation between the numbers of a bar that does not hold.
#[derive(Clone, Copy, Debug, PartialEq, Eq, Structural)]
pub enum Violation {
    /// `low` is above `high`.
    LowAboveHigh,
    /// `open` is not between `low` and `high`.
    OpenOutsideRange,
    /// `close` is not between `low` and `high`.
    CloseOutsideRange,
    /// The volume in the base currency is negative.
    NegativeBaseVolume,
    /// The volume in the quote currency is negative.
    NegativeQuoteVolume,
}

/// Why a row is no bar, with the row's number and what was found in it.
#[derive(Clone, Debug, PartialEq, Eq)]
pub enum AssembleError {
    /// The row has no field of a required column.
    SchemaError { row: u64, column: Column },
    /// The text of the date column is no timestamp of the layout.
    TimestampFormatError { row: u64, raw: String, reason: TimestampFormatError },
    /// The text of a numeric column is no decimal number that fits.
    FieldParseError { row: u64, column: Column, raw: String },
    /// The numbers are read, and are not those of a bar.
    InvariantViolationError { row: u64, violation: Violation },
}

/// An [`AssembleError`] with its texts as sequences of characters.
pub enum AssembleErrorView {
    SchemaError { row: u64, column: Column },
    TimestampFormatError { row: u64, raw: Seq<char>, reason: TimestampFormatError },
    FieldParseError { row: u64, column: Column, raw: Seq<char> },
    InvariantViolationError { row: u64, violation: Violation },
}

impl View for AssembleError {
    type V = AssembleErrorView;

    open spec fn view(&self) -> AssembleErrorView {
        match *self {
            AssembleError::SchemaError { row, column } => AssembleErrorView::SchemaError {
                row,
                column,
            },
            AssembleError::TimestampFormatError {
                row,
                raw,
                reason,
            } => AssembleErrorView::TimestampFormatError { row, raw: raw@, reason },
            AssembleError::FieldParseError {
                row,
                column,
                raw,
            } => AssembleErrorView::FieldParseError { row, column, raw: raw@ },
            AssembleError::InvariantViolationError {
                row,
                violation,
            } => AssembleErrorView::InvariantViolationError { row, violation },
        }
    }
}

/// One price bar. The averages are absent until the moving-average engine
/// has seen the bar.
#[derive(Clone, Debug, PartialEq, Eq)]
pub struct Record {
    pub timestamp: Timestamp,
    pub symbol: String,
    pub open: Decimal,
    pub high: Decimal,
    pub low: Decimal,
    pub close: Decimal,
    pub volume_base: Decimal,
    pub volume_quote: Decimal,
    pub avg_50: Option<Decimal>,
    pub avg_100: Option<Decimal>,
}

/// A [`Record`] with its symbol as a sequence of characters.
pub struct RecordView {
    pub timestamp: Timestamp,
    pub symbol: Seq<char>,
    pub open: Decimal,
    pub high: Decimal,
    pub low: Decimal,
    pub close: Decimal,
    pub volume_base: Decimal,
    pub volume_quote: Decimal,
    pub avg_50: Option<Decimal>,
    pub avg_100: Option<Decimal>,
}

impl View for Record {
    type V = RecordView;

    open spec fn view(&self) -> RecordView {
        RecordView {
            timestamp: self.timestamp,
            symbol: self.symbol@,
            open: self.open,
            high: self.high,
            low: self.low,
            close: self.close,
            volume_base: self.volume_base,
            volume_quote: self.volume_quote,
            avg_50: self.avg_50,
            avg_100: self.avg_100,
        }
    }
}

/// The text of the first field of a column, if the row has one.
pub open spec fn field_text(fields: Seq<Field>, column: Seq<char>) -> Option<Seq<char>>
    decreases fields.len(),
{
    if fields.len() == 0 {
        None
    } else if fields[0].column@ == column {
        Some(fields[0].text@)
    } else {
        field_text(fields.drop_first(), column)
    }
}

/// The first relation between the numbers of a bar that does not hold.
pub open spec fn violation_of(
    open: int,
    high: int,
    low: int,
    close: int,
    volume_base: int,
    volume_quote: int,
) -> Option<Violation> {
    if low > high {
        Some(Violation::LowAboveHigh)
    } else if !(low <= open <= high) {
        Some(Violation::OpenOutsideRange)
    } else if !(low <= close <= high) {
        Some(Violation::CloseOutsideRange)
    } else if volume_base < 0 {
        Some(Violation::NegativeBaseVolume)
    } else if volume_quote < 0 {
        Some(Violation::NegativeQuoteVolume)
    } else {
        None
    }
}

/// What is wrong with one column of a row, if anything: the field is
/// missing, or its text is no timestamp (date column) or no decimal number
/// (numeric columns).
pub open spec fn column_error(row: Row, column: Column) -> Option<AssembleErrorView> {
    match field_text(row.fields@, column.name()) {
        None => Some(AssembleErrorView::SchemaError { row: row.number, column }),
        Some(raw) => match column {
            Column::Symbol => None,
            Column::Date => match normalized(raw) {
                Err(reason) => Some(
                    AssembleErrorView::TimestampFormatError { row: row.number, raw, reason },
                ),
                Ok(_) => None,
            },
            _ => if decimal_units(raw) is None {
                Some(AssembleErrorView::FieldParseError { row: row.number, column, raw })
            } else {
                None
            },
        },
    }
}

/// The number in a numeric column of a row, in units.
pub open spec fn column_units(row: Row, column: Column) -> int {
    decimal_units(field_text(row.fields@, column.name())->0)->0
}

/// The relation between the numbers of a row that does not hold, if any.
pub open spec fn row_violation(row: Row) -> Option<Violation> {
    violation_of(
        column_units(row, Column::Open),
        column_units(row, Column::High),
        column_units(row, Column::Low),
        column_units(row, Column::Close),
        column_units(row, Column::VolumeBase),
        column_units(row, Column::VolumeQuote),
    )
}

/// The error of a row: that of its first column in the order date, symbol,
/// open, high, low, close, base volume, quote volume that has one, else the
/// first relation between its numbers that does not hold.
pub open spec fn row_error(row: Row) -> Option<AssembleErrorView> {
    if column_error(row, Column::Date) is Some {
        column_error(row, Column::Date)
    } else if column_error(row, Column::Symbol) is Some {
        column_error(row, Column::Symbol)
    } else if column_error(row, Column::Open) is Some {
        column_error(row, Column::Open)
    } else if column_error(row, Column::High) is Some {
        column_error(row, Column::High)
    } else if column_error(row, Column::Low) is Some {
        column_error(row, Column::Low)
    } else if column_error(row, Column::Close) is Some {
        column_error(row, Column::Close)
    } else if column_error(row, Column::VolumeBase) is Some {
        column_error(row, Column::VolumeBase)
    } else if column_error(row, Column::VolumeQuote) is Some {
        column_error(row, Column::VolumeQuote)
    } else {
        match row_violation(row) {
            Some(violation) => Some(
                AssembleErrorView::InvariantViolationError { row: row.number, violation },
            ),
            None => None,
        }
    }
}

/// The bar that a row without error writes, its averages absent.
pub open spec fn row_record(row: Row) -> RecordView {
    RecordView {
        timestamp: normalized(field_text(row.fields@, Column::Date.name())->0)->Ok_0,
        symbol: field_text(row.fields@, Column::Symbol.name())->0,
        open: Decimal { units: column_units(row, Column::Open) as i64 },
        high: Decimal { units: column_units(row, Column::High) as i64 },
        low: Decimal { units: column_units(row, Column::Low) as i64 },
        close: Decimal { units: column_units(row, Column::Close) as i64 },
        volume_base: Decimal { units: column_units(row, Column::VolumeBase) as i64 },
        volume_quote: Decimal { units: column_units(row, Column::VolumeQuote) as i64 },
        avg_50: None,
        avg_100: None,
    }
}

/// What a row assembles to: its bar, or its error.
#[verifier::opaque]
pub open spec fn assembled(row: Row) -> Result<RecordView, AssembleErrorView> {
    match row_error(row) {
        Some(e) => Err(e),
        None => Ok(row_record(row)),
    }
}

/// The text of the first field of a column, or the error of a row without one.
fn find_text(row: &Row, column: Column) -> (r: Result<&String, AssembleError>)
    ensures
        match r {
            Ok(text) => field_text(row.fields@, column.name()) == Some(text@),
            Err(e) => field_text(row.fields@, column.name()) is None && e@
                == (AssembleErrorView::SchemaError { row: row.number, column }),
        },
{
    let name = String::from_str(column.header());
    let mut i: usize = 0;
    assert(row.fields@.skip(0) =~= row.fields@);
    while i < row.fields.len()
        invariant
            i <= row.fields.len(),
            name@ == column.name(),
            field_text(row.fields@, name@) == field_text(row.fields@.skip(i as int), name@),
        decreases row.fields.len() - i,
    {
        if row.fields[i].column == name {
            return Ok(&row.fields[i].text);
        }
        assert(row.fields@.skip(i as int).drop_first() =~= row.fields@.skip(i + 1));
        i += 1;
    }
    Err(AssembleError::SchemaError { row: row.number, column })
}

/// The number in a numeric column, or the column's error.
fn read_number(row: &Row, column: Column) -> (r: Result<Decimal, AssembleError>)
    requires
        column != Column::Date,
        column != Column::Symbol,
    ensures
        match r {
            Ok(d) => column_error(*row, column) is None && d.units == column_units(*row, column),
            Err(e) => column_error(*row, column) == Some(e@),
        },
{
    let text = match find_text(row, column) {
        Ok(text) => text,
        Err(e) => {
            return Err(e);
        },
    };
    match Decimal::parse(text.as_str()) {
        Some(d) => Ok(d),
        None => Err(AssembleError::FieldParseError { row: row.number, column, raw: text.clone() }),
    }
}

/// The first relation between the numbers of a bar that does not hold.
fn check_bar(
    open: Decimal,
    high: Decimal,
    low: Decimal,
    close: Decimal,
    volume_base: Decimal,
    volume_quote: Decimal,
) -> (r: Option<Violation>)
    ensures
        r == violation_of(
            open.units as int,
            high.units as int,
            low.units as int,
            close.units as int,
            volume_base.units as int,
            volume_quote.units as int,
        ),
{
    if low.units > high.units {
        Some(Violation::LowAboveHigh)
    } else if open.units < low.units || open.units > high.units {
        Some(Violation::OpenOutsideRange)
    } else if close.units < low.units || close.units > high.units {
        Some(Violation::CloseOutsideRange)
    } else if volume_base.units < 0 {
        Some(Violation::NegativeBaseVolume)
    } else if volume_quote.units < 0 {
        Some(Violation::NegativeQuoteVolume)
    } else {
        None
    }
}

/// Assembles a row into a bar.
///
/// Each required column is looked up by name and read in the order date,
/// symbol, open, high, low, close, base volume, quote volume; the first that
/// is missing or does not read gives the error. A bar whose numbers are read
/// must have `low <= open, close <= high` and volumes that are not negative.
/// The averages of the bar are left absent.
pub fn assemble(row: &Row) -> (r: Result<Record, AssembleError>)
    ensures
        match r {
            Ok(record) => assembled(*row) == Ok::<RecordView, AssembleErrorView>(record@),
            Err(e) => assembled(*row) == Err::<RecordView, AssembleErrorView>(e@),
        },
{
    reveal(assembled);
    let date = match find_text(row, Column::Date) {
        Ok(text) => text,
        Err(e) => {
            return Err(e);
        },
    };
    let timestamp = match deserialize(date.as_str()) {
        Ok(t) => t,
        Err(reason) => {
            return Err(
                AssembleError::TimestampFormatError { row: row.number, raw: date.clone(), reason },
            );
        },
    };
    let symbol = match find_text(row, Column::Symbol) {
        Ok(text) => text,
        Err(e) => {
            return Err(e);
        },
    };
    let open = match read_number(row, Column::Open) {
        Ok(d) => d,
        Err(e) => {
            return Err(e);
        },
    };
    let high = match read_number(row, Column::High) {
        Ok(d) => d,
        Err(e) => {
            return Err(e);
        },
    };
    let low = match read_number(row, Column::Low) {
        Ok(d) => d,
        Err(e) => {
            return Err(e);
        },
    };
    let close = match read_number(row, Column::Close) {
        Ok(d) => d,
        Err(e) => {
            return Err(e);
        },
    };
    let volume_base = match read_number(row, Column::VolumeBase) {
        Ok(d) => d,
        Err(e) => {
            return Err(e);
        },
    };
    let volume_quote = match read_number(row, Column::VolumeQuote) {
        Ok(d) => d,
        Err(e) => {
            return Err(e);
        },
    };
    match check_bar(open, high, low, close, volume_base, volume_quote) {
        Some(violation) => Err(
            AssembleError::InvariantViolationError { row: row.number, violation },
        ),
        None => Ok(
            Record {
                timestamp,
                symbol: symbol.clone(),
                open,
                high,
                low,
                close,
                volume_base,
                volume_quote,
                avg_50: None,
                avg_100: None,
            },
        ),
    }
}

} // verus!
