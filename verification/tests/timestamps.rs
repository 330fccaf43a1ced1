use price_parser::parse_csv_date::{deserialize, serialize, Timestamp, TimestampFormatError};

fn hour(year: u16, month: u8, day: u8, hour: u8) -> Timestamp {
    Timestamp { year, month, day, hour }
}

#[test]
fn twelve_am_is_midnight() {
    assert_eq!(deserialize("2021-03-04 12-AM"), Ok(hour(2021, 3, 4, 0)));
}

#[test]
fn twelve_pm_is_noon() {
    assert_eq!(deserialize("2021-03-04 12-PM"), Ok(hour(2021, 3, 4, 12)));
}

#[test]
fn hours_of_the_morning_and_the_afternoon() {
    assert_eq!(deserialize("2021-03-04 10-AM"), Ok(hour(2021, 3, 4, 10)));
    assert_eq!(deserialize("2021-03-04 01-AM"), Ok(hour(2021, 3, 4, 1)));
    assert_eq!(deserialize("2021-03-04 11-AM"), Ok(hour(2021, 3, 4, 11)));
    assert_eq!(deserialize("2021-03-04 01-PM"), Ok(hour(2021, 3, 4, 13)));
    assert_eq!(deserialize("2021-03-04 11-PM"), Ok(hour(2021, 3, 4, 23)));
    assert_eq!(deserialize("2017-07-01 11-AM"), Ok(hour(2017, 7, 1, 11)));
}

#[test]
fn years_of_four_digits() {
    assert_eq!(deserialize("0000-01-01 12-AM"), Ok(hour(0, 1, 1, 0)));
    assert_eq!(deserialize("0007-12-31 11-PM"), Ok(hour(7, 12, 31, 23)));
    assert_eq!(deserialize("9999-12-31 11-PM"), Ok(hour(9999, 12, 31, 23)));
}

#[test]
fn unexpected_length_is_refused() {
    assert_eq!(deserialize(""), Err(TimestampFormatError::UnexpectedLength));
    assert_eq!(deserialize("2021-03-04"), Err(TimestampFormatError::UnexpectedLength));
    assert_eq!(deserialize("2021-03-04 10-A"), Err(TimestampFormatError::UnexpectedLength));
    assert_eq!(deserialize("2021-03-04 1-AM"), Err(TimestampFormatError::UnexpectedLength));
    assert_eq!(deserialize("2021-03-04 10-AM "), Err(TimestampFormatError::UnexpectedLength));
    assert_eq!(
        deserialize("2021-03-04 10:00:00-AM"),
        Err(TimestampFormatError::UnexpectedLength)
    );
    assert_eq!(deserialize("21-03-04 10-AM"), Err(TimestampFormatError::UnexpectedLength));
}

#[test]
fn length_counts_characters_not_bytes() {
    assert_eq!(deserialize("2021-03-04 10-\u{c4}M"), Err(TimestampFormatError::UnexpectedShape));
    assert_eq!(deserialize("2021-03-04 1-\u{c4}M"), Err(TimestampFormatError::UnexpectedLength));
}

#[test]
fn missing_hour_suffix_separator_is_refused() {
    assert_eq!(deserialize("2021-03-04 10 AM"), Err(TimestampFormatError::UnexpectedShape));
    assert_eq!(deserialize("2021-03-04 10:AM"), Err(TimestampFormatError::UnexpectedShape));
    assert_eq!(deserialize("2021-03-04 100AM"), Err(TimestampFormatError::UnexpectedShape));
}

#[test]
fn other_shapes_are_refused() {
    assert_eq!(deserialize("2021-03-04 10-am"), Err(TimestampFormatError::UnexpectedShape));
    assert_eq!(deserialize("2021-03-04 10-Am"), Err(TimestampFormatError::UnexpectedShape));
    assert_eq!(deserialize("2021-03-04 10-XM"), Err(TimestampFormatError::UnexpectedShape));
    assert_eq!(deserialize("2021/03/04 10-AM"), Err(TimestampFormatError::UnexpectedShape));
    assert_eq!(deserialize("2021-03-04T10-AM"), Err(TimestampFormatError::UnexpectedShape));
    assert_eq!(deserialize("2021-03-04  1-AM"), Err(TimestampFormatError::UnexpectedShape));
    assert_eq!(deserialize(" 021-03-04 10-AM"), Err(TimestampFormatError::UnexpectedShape));
    assert_eq!(deserialize("+021-03-04 10-AM"), Err(TimestampFormatError::UnexpectedShape));
    assert_eq!(deserialize("2021-3--04 10-AM"), Err(TimestampFormatError::UnexpectedShape));
    assert_eq!(deserialize("20x1-03-04 10-AM"), Err(TimestampFormatError::UnexpectedShape));
}

#[test]
fn months_days_and_hours_that_do_not_exist_are_refused() {
    assert_eq!(deserialize("2021-13-04 10-AM"), Err(TimestampFormatError::OutOfRange));
    assert_eq!(deserialize("2021-00-04 10-AM"), Err(TimestampFormatError::OutOfRange));
    assert_eq!(deserialize("2021-03-00 10-AM"), Err(TimestampFormatError::OutOfRange));
    assert_eq!(deserialize("2021-03-32 10-AM"), Err(TimestampFormatError::OutOfRange));
    assert_eq!(deserialize("2021-04-31 10-AM"), Err(TimestampFormatError::OutOfRange));
    assert_eq!(deserialize("2021-03-04 00-AM"), Err(TimestampFormatError::OutOfRange));
    assert_eq!(deserialize("2021-03-04 13-PM"), Err(TimestampFormatError::OutOfRange));
    assert_eq!(deserialize("2021-03-04 99-AM"), Err(TimestampFormatError::OutOfRange));
}

#[test]
fn the_twenty_ninth_of_february() {
    assert_eq!(deserialize("2020-02-29 10-AM"), Ok(hour(2020, 2, 29, 10)));
    assert_eq!(deserialize("2000-02-29 10-AM"), Ok(hour(2000, 2, 29, 10)));
    assert_eq!(deserialize("0000-02-29 10-AM"), Ok(hour(0, 2, 29, 10)));
    assert_eq!(deserialize("2021-02-29 10-AM"), Err(TimestampFormatError::OutOfRange));
    assert_eq!(deserialize("1900-02-29 10-AM"), Err(TimestampFormatError::OutOfRange));
    assert_eq!(deserialize("2020-02-30 10-AM"), Err(TimestampFormatError::OutOfRange));
}

#[test]
fn hours_are_written_in_the_layout() {
    assert_eq!(serialize(&hour(2021, 3, 4, 0)), "2021-03-04 12-AM");
    assert_eq!(serialize(&hour(2021, 3, 4, 12)), "2021-03-04 12-PM");
    assert_eq!(serialize(&hour(2021, 3, 4, 10)), "2021-03-04 10-AM");
    assert_eq!(serialize(&hour(2021, 3, 4, 13)), "2021-03-04 01-PM");
    assert_eq!(serialize(&hour(2021, 11, 30, 23)), "2021-11-30 11-PM");
    assert_eq!(serialize(&hour(7, 1, 2, 3)), "0007-01-02 03-AM");
    assert_eq!(serialize(&hour(0, 2, 29, 9)), "0000-02-29 09-AM");
    assert_eq!(serialize(&hour(9999, 12, 31, 23)), "9999-12-31 11-PM");
}

#[test]
fn validity_of_the_fields() {
    assert!(hour(2021, 3, 4, 0).is_valid());
    assert!(hour(2020, 2, 29, 23).is_valid());
    assert!(hour(0, 1, 1, 0).is_valid());
    assert!(hour(9999, 12, 31, 23).is_valid());
    assert!(!hour(10000, 1, 1, 0).is_valid());
    assert!(!hour(2021, 0, 1, 0).is_valid());
    assert!(!hour(2021, 13, 1, 0).is_valid());
    assert!(!hour(2021, 2, 29, 0).is_valid());
    assert!(!hour(1900, 2, 29, 0).is_valid());
    assert!(!hour(2021, 6, 31, 0).is_valid());
    assert!(!hour(2021, 6, 0, 0).is_valid());
    assert!(!hour(2021, 6, 1, 24).is_valid());
}

#[test]
fn reading_undoes_writing_on_every_hour_of_some_years() {
    let mut seen = 0u32;
    for year in [0u16, 1900, 2000, 2020, 2021, 9999] {
        for month in 1u8..=12 {
            for day in 1u8..=31 {
                for h in 0u8..24 {
                    let t = hour(year, month, day, h);
                    if t.is_valid() {
                        let text = serialize(&t);
                        assert_eq!(text.chars().count(), 16);
                        assert_eq!(deserialize(&text), Ok(t));
                        seen += 1;
                    }
                }
            }
        }
    }
    assert_eq!(seen, (366 * 3 + 365 * 3) * 24);
}

#[test]
fn writing_undoes_reading() {
    for text in [
        "2021-03-04 12-AM",
        "2021-03-04 12-PM",
        "2021-03-04 01-AM",
        "2021-03-04 11-PM",
        "2017-07-01 11-AM",
        "0001-01-01 09-PM",
        "9999-12-31 10-AM",
    ] {
        let t = deserialize(text).unwrap();
        assert!(t.is_valid());
        assert_eq!(serialize(&t), text);
    }
}

#[test]
fn hours_are_ordered_in_time() {
    assert!(hour(2021, 3, 4, 0) < hour(2021, 3, 4, 1));
    assert!(hour(2021, 3, 4, 23) < hour(2021, 3, 5, 0));
    assert!(hour(2021, 3, 31, 23) < hour(2021, 4, 1, 0));
    assert!(hour(2021, 12, 31, 23) < hour(2022, 1, 1, 0));
    assert!(deserialize("2021-03-04 11-AM").unwrap() < deserialize("2021-03-04 12-PM").unwrap());
    assert!(deserialize("2021-03-04 12-AM").unwrap() < deserialize("2021-03-04 01-AM").unwrap());
}
