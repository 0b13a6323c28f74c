use fangs::timers::{padded_decimal, split_nanos, stamp_line, Deadline, EchoTimer, PeriodicTimer, TicToc};

#[test]
fn echo_timer_stamps_only_when_echoing() {
    let mut quiet = EchoTimer::new(false);
    assert!(!quiet.echo());
    assert!(quiet.stamp("x").is_none());
    let mut loud = EchoTimer::new(true);
    assert!(loud.echo());
    let line = loud.stamp("Made data structures.\n").unwrap();
    assert!(line.starts_with("Total: "));
    assert!(line.contains("s, Lapse: "));
    assert!(line.ends_with("s --- Made data structures.\n"));
    let total: Vec<char> = line.chars().skip(7).take(12).collect();
    assert_eq!(total[5], '.');
    assert!(total[..5].iter().all(|c| *c == ' ' || c.is_ascii_digit()));
    assert!(total[4].is_ascii_digit());
    assert!(total[6..].iter().all(|c| c.is_ascii_digit()));
}

#[test]
fn tic_toc_accumulates() {
    let mut t = TicToc::new();
    assert_eq!(t.lapse_nanos(), 0);
    t.tic();
    t.toc();
    let first = t.lapse_nanos();
    t.tic();
    t.toc();
    assert!(t.lapse_nanos() >= first);
}

#[test]
fn periodic_timer_fires_on_request_and_first_time() {
    let mut p = PeriodicTimer::new(3_600_000_000_000);
    assert!(p.maybe(false));
    assert!(!p.maybe(false));
    assert!(p.maybe(true));
}

#[test]
fn split_nanos_parts() {
    assert_eq!(split_nanos(1_234_567_891), (1, 234_567));
    assert_eq!(split_nanos(999), (0, 0));
}

#[test]
fn deadline_zero_has_passed() {
    assert!(Deadline::new(0).passed());
    assert!(!Deadline::new(3_600_000_000_000).passed());
}

#[test]
fn stamp_line_layout() {
    assert_eq!(stamp_line(1, 234_567, 0, 5, "msg"), "Total:     1.234567s, Lapse:     0.000005s --- msg");
    assert_eq!(stamp_line(123_456, 0, 12, 999_999, ""), "Total: 123456.000000s, Lapse:    12.999999s --- ");
    assert_eq!(padded_decimal(7, 3, true), "007");
    assert_eq!(padded_decimal(12345, 2, false), "12345");
}

#[test]
fn clock_decisions() {
    let d = Deadline::new(100);
    assert!(d.spent(100));
    assert!(!d.spent(99));
    let p = PeriodicTimer::new(10);
    assert!(p.due(false, 11));
    assert!(!p.due(false, 10));
    assert!(p.due(true, 0));
    let mut t = TicToc::new();
    t.tic();
    t.stop_after(5);
    assert_eq!(t.lapse_nanos(), 5);
    t.tic();
    t.stop_after(u128::MAX);
    assert_eq!(t.lapse_nanos(), u128::MAX);
}
