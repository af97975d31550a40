use mamrot::stats::{Event, Stats};

#[test]
fn totals_and_deltas() {
    let mut s = Stats::new();
    s.record(Event::Attempted(4));
    s.record(Event::Sent(4));
    s.record(Event::BytesSent(100));
    s.record(Event::Status(b"200".to_vec()));
    let r = s.tick();
    assert_eq!(r.attempt_delta, 4);
    assert_eq!(r.sent_delta, 4);
    assert_eq!(r.bytes_delta, 100);
    assert_eq!(r.resp_delta, 1);
    assert!(r.show);
    s.record(Event::Attempted(2));
    let r = s.tick();
    assert_eq!(r.attempt_delta, 2);
    assert_eq!(r.sent_delta, 0);
    assert_eq!(r.resp_delta, 0);
}

#[test]
fn tallies_are_listed_most_frequent_first() {
    let mut s = Stats::new();
    s.record(Event::Status(b"404".to_vec()));
    s.record(Event::Error(b"Read Error".to_vec()));
    s.record(Event::Status(b"200".to_vec()));
    s.record(Event::Status(b"200".to_vec()));
    s.record(Event::Status(b"200".to_vec()));
    s.record(Event::Error(b"Read Error".to_vec()));
    assert_eq!(s.tally(b"200"), 3);
    assert_eq!(s.tally(b"500"), 0);
    let r = s.tick();
    assert_eq!(
        r.tallies,
        vec![(b"200".to_vec(), 3), (b"Read Error".to_vec(), 2), (b"404".to_vec(), 1)]
    );
    assert_eq!(r.resp_delta, 4);
}

#[test]
fn quiet_report_is_not_shown() {
    let mut s = Stats::new();
    let r = s.tick();
    assert!(!r.show);
    s.record(Event::LagPaused);
    s.record(Event::LagTimeout);
    s.record(Event::ConnectionClosed(7));
    s.record(Event::ConnectionClosed(3));
    let r = s.tick();
    assert!(!r.show);
    assert_eq!(r.paused, 1);
    assert_eq!(r.timeouts, 1);
    assert_eq!(r.closed, 2);
    assert_eq!(r.requests_on_closed, 10);
}

#[test]
fn overflow_does_not_fit() {
    let mut s = Stats::new();
    assert!(s.fits(&Event::Attempted(usize::MAX)));
    s.record(Event::ConnectionClosed(u64::MAX));
    assert!(!s.fits(&Event::ConnectionClosed(1)));
    assert!(s.fits(&Event::LagPaused));
}
