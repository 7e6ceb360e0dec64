use layoffs::stats::parse_year_from_date;

#[test]
fn test_parse_valid_dates() {
    assert_eq!(parse_year_from_date("2021-12-31"), 2021);
    assert_eq!(parse_year_from_date("1999-01-01"), 1999);
    assert_eq!(parse_year_from_date("2000-06-15"), 2000);
}

#[test]
fn test_parse_invalid_dates() {
    assert_eq!(parse_year_from_date("2021/12/31"), 0); // Incorrect separator
    assert_eq!(parse_year_from_date("December 31, 2021"), 0); // Non-ISO format
    assert_eq!(parse_year_from_date("2021"), 2021); // Year only (valid edge case)
}

#[test]
fn test_parse_edge_cases() {
    assert_eq!(parse_year_from_date(""), 0); // Empty string
    assert_eq!(parse_year_from_date("Some random string"), 0); // Non-date string
    assert_eq!(parse_year_from_date("2021-"), 2021); // Incomplete date but valid year
    assert_eq!(parse_year_from_date("-2021"), 0); // Leading separator
}

#[test]
fn parse_follows_unsigned_integer_grammar() {
    // a leading plus sign is part of the unsigned grammar
    assert_eq!(parse_year_from_date("+2021-01-01"), 2021);
    // a bare sign is not a number
    assert_eq!(parse_year_from_date("+-2021"), 0);
    // values past u32::MAX do not parse
    assert_eq!(parse_year_from_date("99999999999-01-01"), 0);
    assert_eq!(parse_year_from_date("4294967295-01-01"), 4294967295);
    assert_eq!(parse_year_from_date("4294967296-01-01"), 0);
    // leading zeroes are digits like any other
    assert_eq!(parse_year_from_date("0007-03-02"), 7);
}
