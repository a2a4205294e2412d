use romm_fuse::timestamp::parse_timestamp;

#[test]
fn epoch_and_plain_dates() {
    assert_eq!(parse_timestamp("1970-01-01T00:00:00Z"), Some(0));
    assert_eq!(parse_timestamp("1970-01-01 00:00:01"), Some(1));
    assert_eq!(parse_timestamp("2000-02-29T23:59:59"), Some(951868799));
}

#[test]
fn fractions_and_zones() {
    assert_eq!(parse_timestamp("2024-05-01T12:34:56.123456+00:00"), Some(1714566896));
    assert_eq!(parse_timestamp("2024-12-31T23:00:00-05:00"), Some(1735704000));
    assert_eq!(parse_timestamp("1970-01-01T01:00:00+01:00"), Some(0));
}

#[test]
fn rejected_timestamps() {
    assert_eq!(parse_timestamp("1970-01-01T00:59:59+01:00"), None);
    assert_eq!(parse_timestamp("1969-12-31T23:59:59Z"), None);
    assert_eq!(parse_timestamp("2023-02-29T00:00:00Z"), None);
    assert_eq!(parse_timestamp("2024-13-01T00:00:00Z"), None);
    assert_eq!(parse_timestamp("2024-05-01T12:34:56."), None);
    assert_eq!(parse_timestamp("2024-05-01T12:34:56+0000"), None);
    assert_eq!(parse_timestamp("yesterday"), None);
}
