//! Checking and drawing sleep parameters.

use hammer::{SleepParams, SleepParamsError};

#[test]
fn missing_fields_take_defaults() {
    let p = SleepParams::try_from_raw(None, None).unwrap();
    assert_eq!(p.min, 500);
    assert_eq!(p.max, 1000);
}

#[test]
fn given_min_doubles_into_max() {
    let p = SleepParams::try_from_raw(Some(30), None).unwrap();
    assert_eq!(p.min, 30);
    assert_eq!(p.max, 60);
}

#[test]
fn doubling_saturates_at_the_top() {
    let p = SleepParams::try_from_raw(Some(u64::MAX - 1), None).unwrap();
    assert_eq!(p.min, u64::MAX - 1);
    assert_eq!(p.max, u64::MAX);
}

#[test]
fn explicit_range_is_kept() {
    let p = SleepParams::try_from_raw(Some(100), Some(250)).unwrap();
    assert_eq!(p.min, 100);
    assert_eq!(p.max, 250);
}

#[test]
fn max_not_above_min_is_rejected() {
    assert_eq!(
        SleepParams::try_from_raw(Some(100), Some(100)),
        Err(SleepParamsError)
    );
    assert_eq!(
        SleepParams::try_from_raw(Some(100), Some(99)),
        Err(SleepParamsError)
    );
    // The default min of 500 applies before the check.
    assert_eq!(
        SleepParams::try_from_raw(None, Some(500)),
        Err(SleepParamsError)
    );
    assert!(SleepParams::try_from_raw(None, Some(501)).is_ok());
}

#[test]
fn drawn_duration_stays_in_range() {
    let mut rng = rand::thread_rng();
    let p = SleepParams::try_from_raw(Some(10), Some(20)).unwrap();
    for _ in 0..100 {
        let d = p.get_duration(&mut rng);
        assert!((10..=20).contains(&d));
    }
    // A degenerate range pins the draw exactly.
    let q = SleepParams { min: 42, max: 42 };
    assert_eq!(q.get_duration(&mut rng), 42);
}
