use subscriber::instant::Instant;

#[test]
fn instants_are_ordered_by_seconds_then_nanoseconds() {
    let a = Instant::new(10, 0);
    let b = Instant::new(10, 1);
    let c = Instant::new(11, 0);
    let d = Instant::new(-1, 999_999_999);
    assert!(a.is_before(&b));
    assert!(b.is_before(&c));
    assert!(d.is_before(&a));
    assert!(!a.is_before(&a));
    assert!(!c.is_before(&b));
    assert!(a.is_at_or_before(&a));
    assert!(a.is_at_or_before(&b));
    assert!(!b.is_at_or_before(&a));
    assert!(a < b && b < c && d < a);
}

#[test]
fn within_is_closed_on_both_ends() {
    let from = Instant::from_unix_seconds(10);
    let to = Instant::from_unix_seconds(20);
    assert!(from.is_within(&from, &to));
    assert!(to.is_within(&from, &to));
    assert!(Instant::new(15, 5).is_within(&from, &to));
    assert!(!Instant::new(9, 999_999_999).is_within(&from, &to));
    assert!(!Instant::new(20, 1).is_within(&from, &to));
    assert!(!Instant::new(15, 0).is_within(&to, &from));
}

#[test]
fn unix_seconds_are_the_whole_seconds() {
    assert_eq!(Instant::from_unix_seconds(1_520_000_000).unix_seconds(), 1_520_000_000);
    assert_eq!(Instant::from_unix_seconds(1_520_000_000), Instant::new(1_520_000_000, 0));
    assert_eq!(Instant::new(7, 999_999_999).unix_seconds(), 7);
    assert_eq!(Instant::new(-3, 5).unix_seconds(), -3);
    assert_eq!(Instant::from_unix_seconds(i64::MIN).unix_seconds(), i64::MIN);
    assert_eq!(Instant::from_unix_seconds(i64::MAX).unix_seconds(), i64::MAX);
}

#[test]
fn the_clock_gives_an_instant_of_this_century() {
    let first = Instant::now();
    let second = Instant::now();
    assert!(first.unix_seconds() > 1_500_000_000);
    assert!(first.nanos < 1_000_000_000);
    assert!(first.is_at_or_before(&second));
}
