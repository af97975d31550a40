use mamrot::traffic::{must_pause, write_timeout_ms, LagStep, LagWatch};

#[test]
fn write_timeout_has_a_floor() {
    assert_eq!(write_timeout_ms(10), 5000);
    assert_eq!(write_timeout_ms(5000), 5000);
    assert_eq!(write_timeout_ms(120_000), 120_000);
}

#[test]
fn pause_only_above_the_limit() {
    assert!(!must_pause(2, 2));
    assert!(must_pause(3, 2));
    assert!(!must_pause(0, 0));
}

#[test]
fn waiting_resumes_times_out_or_waits() {
    let mut w = LagWatch::start(2, 100, 5);
    assert_eq!(w.step(5, 10, 5), LagStep::Wait { progress: false });
    assert_eq!(w.last_lag, 5);
    assert_eq!(w.step(5, 20, 4), LagStep::Wait { progress: true });
    assert_eq!(w.last_lag, 4);
    assert_eq!(w.step(4, 101, 4), LagStep::TimedOut);
    assert_eq!(w.step(2, 500, 2), LagStep::Resume);
    assert_eq!(w.last_lag, 4);
}
