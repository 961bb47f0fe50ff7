use gamestore::time::{add_secs, more_than_secs_since, Timestamp};

#[test]
fn adding_seconds_saturates_instead_of_wrapping() {
    assert_eq!(add_secs(Timestamp::from_secs(5), 7), Timestamp::from_secs(12));
    assert_eq!(add_secs(Timestamp::from_secs(u64::MAX), 1).secs, u64::MAX);
}

#[test]
fn an_age_is_only_exceeded_strictly() {
    let start = Timestamp::from_secs(100);

    assert!(!more_than_secs_since(start, Timestamp::from_secs(110), 10));
    assert!(more_than_secs_since(start, Timestamp { secs: 110, nanos: 1 }, 10));
    assert!(!more_than_secs_since(start, Timestamp::from_secs(50), 10));
    assert_eq!(Timestamp::epoch().nanos_since_epoch(), 0);
    assert_eq!(Timestamp { secs: 2, nanos: 5 }.nanos_since_epoch(), 2_000_000_005);
}
