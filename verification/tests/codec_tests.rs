use timebank::codec::{hhmm_to_time_index, hhmmhhmm_to_time_index_range, CodecError};

#[test]
fn half_hour_selects_odd_index() {
    assert_eq!(hhmm_to_time_index("10:30"), Ok(21));
    assert_eq!(hhmm_to_time_index("00:30"), Ok(1));
    assert_eq!(hhmm_to_time_index("23:30"), Ok(47));
}

#[test]
fn full_hour_selects_even_index() {
    assert_eq!(hhmm_to_time_index("00:00"), Ok(0));
    assert_eq!(hhmm_to_time_index("09:00"), Ok(18));
    assert_eq!(hhmm_to_time_index("23:00"), Ok(46));
}

#[test]
fn any_minute_but_thirty_counts_as_full_hour() {
    // The minute field is not validated: only the literal "30" selects
    // the second half of the hour.
    assert_eq!(hhmm_to_time_index("7:45"), Ok(14));
    assert_eq!(hhmm_to_time_index("7:7"), Ok(14));
    assert_eq!(hhmm_to_time_index("7:"), Ok(14));
    assert_eq!(hhmm_to_time_index("7:seven"), Ok(14));
    assert_eq!(hhmm_to_time_index("7:300"), Ok(14));
}

#[test]
fn hour_without_leading_zero_parses() {
    assert_eq!(hhmm_to_time_index("7:30"), Ok(15));
    assert_eq!(hhmm_to_time_index("007:30"), Ok(15));
}

#[test]
fn hour_with_plus_sign_parses_as_integer() {
    assert_eq!(hhmm_to_time_index("+7:30"), Ok(15));
}

#[test]
fn time_of_day_needs_exactly_one_colon() {
    assert_eq!(hhmm_to_time_index("1030"), Err(CodecError::InvalidTimeOfDay));
    assert_eq!(hhmm_to_time_index("10:30:00"), Err(CodecError::InvalidTimeOfDay));
    assert_eq!(hhmm_to_time_index(""), Err(CodecError::InvalidTimeOfDay));
}

#[test]
fn time_of_day_needs_numeric_hour() {
    assert_eq!(hhmm_to_time_index("ab:30"), Err(CodecError::InvalidTimeOfDay));
    assert_eq!(hhmm_to_time_index(":30"), Err(CodecError::InvalidTimeOfDay));
    assert_eq!(hhmm_to_time_index("-1:30"), Err(CodecError::InvalidTimeOfDay));
    assert_eq!(hhmm_to_time_index("1.5:30"), Err(CodecError::InvalidTimeOfDay));
    assert_eq!(hhmm_to_time_index("+:30"), Err(CodecError::InvalidTimeOfDay));
}

#[test]
fn oversized_hour_is_rejected() {
    // An hour whose slot index cannot fit a u32 does not parse.
    assert_eq!(hhmm_to_time_index("4294967296:00"), Err(CodecError::InvalidTimeOfDay));
    assert_eq!(hhmm_to_time_index("99999999999:00"), Err(CodecError::InvalidTimeOfDay));
    // The largest hour that still fits: 2 * 2147483647 + 1 == u32::MAX.
    assert_eq!(hhmm_to_time_index("2147483647:30"), Ok(u32::MAX));
    assert_eq!(hhmm_to_time_index("2147483648:00"), Err(CodecError::InvalidTimeOfDay));
}

#[test]
fn range_parses_both_sides() {
    assert_eq!(hhmmhhmm_to_time_index_range("09:00-10:30"), Ok((18, 21)));
    assert_eq!(hhmmhhmm_to_time_index_range("00:00-23:30"), Ok((0, 47)));
}

#[test]
fn reversed_or_empty_range_is_accepted() {
    assert_eq!(hhmmhhmm_to_time_index_range("10:00-09:00"), Ok((20, 18)));
    assert_eq!(hhmmhhmm_to_time_index_range("09:00-09:00"), Ok((18, 18)));
}

#[test]
fn range_needs_exactly_one_dash() {
    assert_eq!(hhmmhhmm_to_time_index_range("09:00"), Err(CodecError::InvalidTimeRange));
    assert_eq!(
        hhmmhhmm_to_time_index_range("09:00-10:30-11:00"),
        Err(CodecError::InvalidTimeRange)
    );
    assert_eq!(hhmmhhmm_to_time_index_range(""), Err(CodecError::InvalidTimeRange));
}

#[test]
fn range_with_malformed_side_is_rejected() {
    assert_eq!(hhmmhhmm_to_time_index_range("0900-1030"), Err(CodecError::InvalidTimeRange));
    assert_eq!(hhmmhhmm_to_time_index_range("a-b"), Err(CodecError::InvalidTimeRange));
    assert_eq!(hhmmhhmm_to_time_index_range("09:00-"), Err(CodecError::InvalidTimeRange));
    assert_eq!(hhmmhhmm_to_time_index_range("-10:30"), Err(CodecError::InvalidTimeRange));
}
