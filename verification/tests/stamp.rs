use presemble::stamp::{iso8601_at, to_whole_seconds};

#[test]
fn moments_are_written_to_the_second() {
    assert_eq!(iso8601_at(0), "1970-01-01T00:00:00Z");
    assert_eq!(iso8601_at(1_546_300_800_000_000_000), "2019-01-01T00:00:00Z");
    assert_eq!(iso8601_at(1_546_300_800_999_999_999), "2019-01-01T00:00:00Z");
    assert_eq!(iso8601_at(1_700_000_000_123_456_789), "2023-11-14T22:13:20Z");
    assert_eq!(iso8601_at(-1), "1969-12-31T23:59:59Z");
}

#[test]
fn a_moment_that_cannot_be_written_is_the_epoch() {
    assert_eq!(iso8601_at(i128::MAX), "1970-01-01T00:00:00Z");
    assert_eq!(iso8601_at(i128::MIN), "1970-01-01T00:00:00Z");
}

#[test]
fn fractions_of_seconds_are_dropped() {
    assert_eq!(to_whole_seconds("1997-11-12T09:55:06.000000000Z"), "1997-11-12T09:55:06Z");
    assert_eq!(to_whole_seconds("1997-11-12T09:55:06Z"), "1997-11-12T09:55:06Z");
    assert_eq!(to_whole_seconds(""), "");
}
