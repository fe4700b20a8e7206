use zmap_rs::config::{derive_rate, parse_bandwidth, parse_duration, ParseNumberError};

#[test]
fn bandwidth_units() {
    assert_eq!(parse_bandwidth("0K"), Ok(0));
    assert_eq!(parse_bandwidth("10K"), Ok(10_000));
    assert_eq!(parse_bandwidth("10k"), Ok(10_000));
    assert_eq!(parse_bandwidth("7M"), Ok(7_000_000));
    assert_eq!(parse_bandwidth("7m"), Ok(7_000_000));
    assert_eq!(parse_bandwidth("1G"), Ok(1_000_000_000));
    assert_eq!(parse_bandwidth("25g"), Ok(25_000_000_000));
    assert_eq!(parse_bandwidth("18446744073709551K"), Ok(18446744073709551000));
}

#[test]
fn bandwidth_errors() {
    assert_eq!(parse_bandwidth(""), Err(ParseNumberError::NotANumber));
    assert_eq!(parse_bandwidth("K"), Err(ParseNumberError::NotANumber));
    assert_eq!(parse_bandwidth("1.5M"), Err(ParseNumberError::NotANumber));
    assert_eq!(parse_bandwidth("-1M"), Err(ParseNumberError::NotANumber));
    assert_eq!(parse_bandwidth("10"), Err(ParseNumberError::UnknownSuffix));
    assert_eq!(parse_bandwidth("10X"), Err(ParseNumberError::UnknownSuffix));
    assert_eq!(parse_bandwidth("10B"), Err(ParseNumberError::UnknownSuffix));
    assert_eq!(parse_bandwidth("18446744073709552K"), Err(ParseNumberError::TooLarge));
    assert_eq!(parse_bandwidth("99999999999999999999K"), Err(ParseNumberError::TooLarge));
    assert_eq!(parse_bandwidth("99999999999999999999X"), Err(ParseNumberError::TooLarge));
}

#[test]
fn duration_in_seconds() {
    assert_eq!(parse_duration("8"), Ok(8));
    assert_eq!(parse_duration("0"), Ok(0));
    assert_eq!(parse_duration("18446744073709551615"), Ok(u64::MAX));
    assert_eq!(parse_duration("18446744073709551616"), Err(ParseNumberError::TooLarge));
    assert_eq!(parse_duration(""), Err(ParseNumberError::NotANumber));
    assert_eq!(parse_duration("8s"), Err(ParseNumberError::NotANumber));
}

#[test]
fn rate_from_bandwidth() {
    // A probe takes 54 * 8 + 192 = 624 bits, raised to the 672 of the shortest frame.
    assert_eq!(derive_rate(0, 1234), 1234);
    assert_eq!(derive_rate(0, 0), 0);
    assert_eq!(derive_rate(1, 1234), 1);
    assert_eq!(derive_rate(671, 0), 1);
    assert_eq!(derive_rate(672, 0), 1);
    assert_eq!(derive_rate(1343, 0), 1);
    assert_eq!(derive_rate(1344, 0), 2);
    assert_eq!(derive_rate(1_000_000_000, 5), 1_488_095);
    assert_eq!(derive_rate(672 * 0x7FFF_FFFF, 5), i32::MAX);
    assert_eq!(derive_rate(672 * 0x8000_0000, 5), 0);
    assert_eq!(derive_rate(u64::MAX, 5), 0);
}
