use palica::fsdbtime::{dbtime_from_parts, dbtime_from_sys, systime_from_db};
use std::time::{Duration, UNIX_EPOCH};

#[test]
fn test_time() {
    assert_eq!(systime_from_db(0).unwrap(), UNIX_EPOCH);
    let sec: u64 = 1_000_000_000;
    let minute = sec * 60;
    let hour = minute * 60;
    let day = 24 * hour;
    assert_eq!(
        systime_from_db((day * 31 + sec).try_into().unwrap())
            .unwrap()
            .duration_since(UNIX_EPOCH)
            .unwrap()
            .as_nanos(),
        u128::from(day * 31 + sec)
    );
}

#[test]
fn parts_to_nanoseconds() {
    assert_eq!(dbtime_from_parts(0, 0), Some(0));
    assert_eq!(dbtime_from_parts(2, 5), Some(2_000_000_005));
    assert_eq!(dbtime_from_parts(9_223_372_036, 854_775_807), Some(i64::MAX));
    assert_eq!(dbtime_from_parts(9_223_372_036, 854_775_808), None);
    assert_eq!(dbtime_from_parts(u64::MAX, 0), None);
}

#[test]
fn system_time_round_trip() {
    let t = UNIX_EPOCH + Duration::new(1_234, 567);
    assert_eq!(dbtime_from_sys(t), Some(1_234_000_000_567));
    assert_eq!(systime_from_db(1_234_000_000_567), Some(t));
    let before_epoch = UNIX_EPOCH - Duration::from_secs(1);
    assert_eq!(dbtime_from_sys(before_epoch), None);
}
