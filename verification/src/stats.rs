//! The statistics of a fuzzing run: what the workers report, added up, and
//! what changed since the last report.
use vstd::prelude::*;
use crate::bytes::{copy_bytes, same_bytes};

verus! {

/// What a worker reports.
pub enum Event {
    /// Requests about to be written.
    Attempted(usize),
    /// Requests written.
    Sent(usize),
    /// Bytes written.
    BytesSent(usize),
    /// A status code that came back.
    Status(Vec<u8>),
    /// Something that went wrong.
    Error(Vec<u8>),
    /// The worker stopped writing to wait for responses.
    LagPaused,
    /// The worker gave up waiting.
    LagTimeout,
    /// A connection ended after this many requests.
    ConnectionClosed(u64),
}

/// The totals of a run, and the totals at the last report.
pub struct StatsView {
    /// How often each status code or error came.
    pub tallies: Map<Seq<u8>, u64>,
    pub attempted: u64,
    pub sent: u64,
    pub bytes: u64,
    pub responses: u64,
    pub paused: u64,
    pub timeouts: u64,
    pub closed: u64,
    pub requests_on_closed: u64,
    pub last_attempted: u64,
    pub last_sent: u64,
    pub last_bytes: u64,
    pub last_responses: u64,
}

/// The statistics of a run.
pub struct Stats {
    keys: Vec<Vec<u8>>,
    counts: Vec<u64>,
    tallies: Ghost<Map<Seq<u8>, u64>>,
    attempted: u64,
    sent: u64,
    bytes: u64,
    responses: u64,
    paused: u64,
    timeouts: u64,
    closed: u64,
    requests_on_closed: u64,
    last_attempted: u64,
    last_sent: u64,
    last_bytes: u64,
    last_responses: u64,
}

/// What changed since the last report.
pub struct Report {
    pub attempt_delta: u64,
    pub sent_delta: u64,
    pub bytes_delta: u64,
    pub resp_delta: u64,
    pub paused: u64,
    pub timeouts: u64,
    pub closed: u64,
    pub requests_on_closed: u64,
    /// Each status code and error with its count, most frequent first.
    pub tallies: Vec<(Vec<u8>, u64)>,
    /// Whether there is anything to print.
    pub show: bool,
}

/// `t` with one more of `key`.
pub open spec fn bumped(t: Map<Seq<u8>, u64>, key: Seq<u8>) -> Map<Seq<u8>, u64> {
    t.insert(key, if t.contains_key(key) { (t[key] + 1) as u64 } else { 1 })
}

/// Whether one more of `key` still fits the counter.
pub open spec fn bump_fits(t: Map<Seq<u8>, u64>, key: Seq<u8>) -> bool {
    t.contains_key(key) ==> t[key] < u64::MAX
}

/// Whether `e` can be added to `v` without a counter overflowing.
pub open spec fn can_record(v: StatsView, e: Event) -> bool {
    match e {
        Event::Attempted(n) => v.attempted + n <= u64::MAX,
        Event::Sent(n) => v.sent + n <= u64::MAX,
        Event::BytesSent(n) => v.bytes + n <= u64::MAX,
        Event::Status(code) => v.responses < u64::MAX && bump_fits(v.tallies, code@),
        Event::Error(err) => bump_fits(v.tallies, err@),
        Event::LagPaused => v.paused < u64::MAX,
        Event::LagTimeout => v.timeouts < u64::MAX,
        Event::ConnectionClosed(n) => v.closed < u64::MAX && v.requests_on_closed + n <= u64::MAX,
    }
}

/// `v` with `e` added.
pub open spec fn recorded(v: StatsView, e: Event) -> StatsView {
    match e {
        Event::Attempted(n) => StatsView { attempted: (v.attempted + n) as u64, ..v },
        Event::Sent(n) => StatsView { sent: (v.sent + n) as u64, ..v },
        Event::BytesSent(n) => StatsView { bytes: (v.bytes + n) as u64, ..v },
        Event::Status(code) => StatsView {
            tallies: bumped(v.tallies, code@),
            responses: (v.responses + 1) as u64,
            ..v
        },
        Event::Error(err) => StatsView { tallies: bumped(v.tallies, err@), ..v },
        Event::LagPaused => StatsView { paused: (v.paused + 1) as u64, ..v },
        Event::LagTimeout => StatsView { timeouts: (v.timeouts + 1) as u64, ..v },
        Event::ConnectionClosed(n) => StatsView {
            closed: (v.closed + 1) as u64,
            requests_on_closed: (v.requests_on_closed + n) as u64,
            ..v
        },
    }
}

/// `v` after a report: the totals become the totals at the last report.
pub open spec fn reported(v: StatsView) -> StatsView {
    StatsView {
        last_attempted: v.attempted,
        last_sent: v.sent,
        last_bytes: v.bytes,
        last_responses: v.responses,
        ..v
    }
}

/// `out` lists every entry of `t` once, most frequent first.
pub open spec fn lists_tallies(out: Seq<(Vec<u8>, u64)>, t: Map<Seq<u8>, u64>) -> bool {
    &&& forall|i: int| 0 <= i < out.len() ==> #[trigger] t.contains_key(out[i].0@) && t[out[i].0@] == out[i].1
    &&& forall|k: Seq<u8>| #[trigger] t.contains_key(k) ==> exists|i: int| 0 <= i < out.len() && out[i].0@ == k
    &&& forall|i: int, j: int| 0 <= i < j < out.len() ==> out[i].0@ != out[j].0@
    &&& forall|i: int, j: int| 0 <= i < j < out.len() ==> out[i].1 >= out[j].1
}


/// `keys` and `counts` hold each entry of `t` once.
pub open spec fn tallies_held(keys: Seq<Vec<u8>>, counts: Seq<u64>, t: Map<Seq<u8>, u64>) -> bool {
    &&& keys.len() == counts.len()
    &&& forall|i: int, j: int| 0 <= i < j < keys.len() ==> keys[i]@ != keys[j]@
    &&& forall|i: int| 0 <= i < keys.len() ==> #[trigger] t.contains_key(keys[i]@) && t[keys[i]@]
        == counts[i]
    &&& forall|k: Seq<u8>| #[trigger] t.contains_key(k) ==> exists|i: int|
        0 <= i < keys.len() && keys[i]@ == k
}


/// Each entry of `out` is the key and count of a slot below `i`.
#[verifier::opaque]
pub open spec fn drawn_from(out: Seq<(Vec<u8>, u64)>, keys: Seq<Vec<u8>>, counts: Seq<u64>, i: int) -> bool {
    forall|a: int|
        #![trigger out[a]]
        0 <= a < out.len() ==> exists|b: int|
            #![trigger keys[b]]
            0 <= b < i && out[a].0@ == keys[b]@ && out[a].1 == counts[b]
}

/// The key of every slot below `i` is the key of an entry of `out`.
#[verifier::opaque]
pub open spec fn covers(out: Seq<(Vec<u8>, u64)>, keys: Seq<Vec<u8>>, i: int) -> bool {
    forall|b: int|
        #![trigger keys[b]]
        0 <= b < i ==> exists|a: int| #![trigger out[a]] 0 <= a < out.len() && out[a].0@ == keys[b]@
}

#[verifier::opaque]
pub open spec fn distinct_entries(out: Seq<(Vec<u8>, u64)>) -> bool {
    forall|a: int, c: int| 0 <= a < c < out.len() ==> out[a].0@ != out[c].0@
}

#[verifier::opaque]
pub open spec fn descending(out: Seq<(Vec<u8>, u64)>) -> bool {
    forall|a: int, c: int| 0 <= a < c < out.len() ==> out[a].1 >= out[c].1
}

/// Inserting the entry of slot `i` at the first position whose count is
/// smaller keeps the list sorted and extends it to slot `i`.
proof fn lemma_insert_entry(
    before: Seq<(Vec<u8>, u64)>,
    keys: Seq<Vec<u8>>,
    counts: Seq<u64>,
    i: int,
    j: int,
    e: (Vec<u8>, u64),
)
    requires
        keys.len() == counts.len(),
        forall|x: int, y: int| 0 <= x < y < keys.len() ==> keys[x]@ != keys[y]@,
        0 <= i < keys.len(),
        0 <= j <= before.len(),
        e.0@ == keys[i]@,
        e.1 == counts[i],
        forall|a: int| 0 <= a < j ==> before[a].1 >= e.1,
        j < before.len() ==> before[j].1 < e.1,
        drawn_from(before, keys, counts, i),
        covers(before, keys, i),
        distinct_entries(before),
        descending(before),
    ensures
        drawn_from(before.insert(j, e), keys, counts, i + 1),
        covers(before.insert(j, e), keys, i + 1),
        distinct_entries(before.insert(j, e)),
        descending(before.insert(j, e)),
{
    lemma_insert_drawn(before, keys, counts, i, j, e);
    lemma_insert_covers(before, keys, counts, i, j, e);
    lemma_insert_distinct(before, keys, counts, i, j, e);
    lemma_insert_descending(before, keys, counts, i, j, e);
}

proof fn lemma_insert_drawn(
    before: Seq<(Vec<u8>, u64)>,
    keys: Seq<Vec<u8>>,
    counts: Seq<u64>,
    i: int,
    j: int,
    e: (Vec<u8>, u64),
)
    requires
        keys.len() == counts.len(),
        forall|x: int, y: int| 0 <= x < y < keys.len() ==> keys[x]@ != keys[y]@,
        0 <= i < keys.len(),
        0 <= j <= before.len(),
        e.0@ == keys[i]@,
        e.1 == counts[i],
        forall|a: int| 0 <= a < j ==> before[a].1 >= e.1,
        j < before.len() ==> before[j].1 < e.1,
        drawn_from(before, keys, counts, i),
        covers(before, keys, i),
        distinct_entries(before),
        descending(before),
    ensures
        drawn_from(before.insert(j, e), keys, counts, i + 1),
{
    reveal(drawn_from);
    let out = before.insert(j, e);
    assert(out[j] == e);
    assert forall|a: int| #![trigger out[a]] 0 <= a < out.len() implies exists|b: int|
        #![trigger keys[b]]
        0 <= b < i + 1 && out[a].0@ == keys[b]@ && out[a].1 == counts[b] by {
        if a < j {
            assert(out[a] == before[a]);
        } else if a > j {
            assert(out[a] == before[a - 1]);
        } else {
            assert(keys[i]@ == e.0@);
        }
    }
}

proof fn lemma_insert_covers(
    before: Seq<(Vec<u8>, u64)>,
    keys: Seq<Vec<u8>>,
    counts: Seq<u64>,
    i: int,
    j: int,
    e: (Vec<u8>, u64),
)
    requires
        keys.len() == counts.len(),
        forall|x: int, y: int| 0 <= x < y < keys.len() ==> keys[x]@ != keys[y]@,
        0 <= i < keys.len(),
        0 <= j <= before.len(),
        e.0@ == keys[i]@,
        e.1 == counts[i],
        forall|a: int| 0 <= a < j ==> before[a].1 >= e.1,
        j < before.len() ==> before[j].1 < e.1,
        drawn_from(before, keys, counts, i),
        covers(before, keys, i),
        distinct_entries(before),
        descending(before),
    ensures
        covers(before.insert(j, e), keys, i + 1),
{
    reveal(covers);
    let out = before.insert(j, e);
    assert(out[j] == e);
    assert forall|b: int| #![trigger keys[b]] 0 <= b < i + 1 implies exists|a: int|
        #![trigger out[a]]
        0 <= a < out.len() && out[a].0@ == keys[b]@ by {
        if b < i {
            let a = choose|a: int| #![trigger before[a]] 0 <= a < before.len() && before[a].0@ == keys[b]@;
            if a < j {
                assert(out[a] == before[a]);
            } else {
                assert(out[a + 1] == before[a]);
            }
        } else {
            assert(out[j].0@ == keys[b]@);
        }
    }
}

proof fn lemma_insert_distinct(
    before: Seq<(Vec<u8>, u64)>,
    keys: Seq<Vec<u8>>,
    counts: Seq<u64>,
    i: int,
    j: int,
    e: (Vec<u8>, u64),
)
    requires
        keys.len() == counts.len(),
        forall|x: int, y: int| 0 <= x < y < keys.len() ==> keys[x]@ != keys[y]@,
        0 <= i < keys.len(),
        0 <= j <= before.len(),
        e.0@ == keys[i]@,
        e.1 == counts[i],
        forall|a: int| 0 <= a < j ==> before[a].1 >= e.1,
        j < before.len() ==> before[j].1 < e.1,
        drawn_from(before, keys, counts, i),
        covers(before, keys, i),
        distinct_entries(before),
        descending(before),
    ensures
        distinct_entries(before.insert(j, e)),
{
    reveal(drawn_from);
    reveal(distinct_entries);
    let out = before.insert(j, e);
    assert(out[j] == e);
    assert forall|a: int, c: int| 0 <= a < c < out.len() implies out[a].0@ != out[c].0@ by {
        if a == j {
            assert(out[c] == before[c - 1]);
            let b = choose|b: int| #![trigger keys[b]] 0 <= b < i && before[c - 1].0@ == keys[b]@ && before[c - 1].1 == counts[b];
        } else if c == j {
            assert(out[a] == before[a]);
            let b = choose|b: int| #![trigger keys[b]] 0 <= b < i && before[a].0@ == keys[b]@ && before[a].1 == counts[b];
        } else if a < j && c > j {
            assert(out[a] == before[a]);
            assert(out[c] == before[c - 1]);
        } else if c < j {
            assert(out[a] == before[a]);
            assert(out[c] == before[c]);
        } else {
            assert(out[a] == before[a - 1]);
            assert(out[c] == before[c - 1]);
        }
    }
}

proof fn lemma_insert_descending(
    before: Seq<(Vec<u8>, u64)>,
    keys: Seq<Vec<u8>>,
    counts: Seq<u64>,
    i: int,
    j: int,
    e: (Vec<u8>, u64),
)
    requires
        keys.len() == counts.len(),
        forall|x: int, y: int| 0 <= x < y < keys.len() ==> keys[x]@ != keys[y]@,
        0 <= i < keys.len(),
        0 <= j <= before.len(),
        e.0@ == keys[i]@,
        e.1 == counts[i],
        forall|a: int| 0 <= a < j ==> before[a].1 >= e.1,
        j < before.len() ==> before[j].1 < e.1,
        drawn_from(before, keys, counts, i),
        covers(before, keys, i),
        distinct_entries(before),
        descending(before),
    ensures
        descending(before.insert(j, e)),
{
    reveal(descending);
    let out = before.insert(j, e);
    assert(out[j] == e);
    assert forall|a: int, c: int| 0 <= a < c < out.len() implies out[a].1 >= out[c].1 by {
        if a == j {
            assert(out[c] == before[c - 1]);
            assert(before[j].1 < e.1);
        } else if c == j {
            assert(out[a] == before[a]);
        } else if a < j && c > j {
            assert(out[a] == before[a]);
            assert(out[c] == before[c - 1]);
        } else if c < j {
            assert(out[a] == before[a]);
            assert(out[c] == before[c]);
        } else {
            assert(out[a] == before[a - 1]);
            assert(out[c] == before[c - 1]);
        }
    }
}

/// A sorted list drawn from and covering all slots lists the tallies.
proof fn lemma_listed(out: Seq<(Vec<u8>, u64)>, keys: Seq<Vec<u8>>, counts: Seq<u64>, t: Map<Seq<u8>, u64>)
    requires
        tallies_held(keys, counts, t),
        drawn_from(out, keys, counts, keys.len() as int),
        covers(out, keys, keys.len() as int),
        distinct_entries(out),
        descending(out),
    ensures
        lists_tallies(out, t),
{
    reveal(drawn_from);
    reveal(covers);
    reveal(distinct_entries);
    reveal(descending);
    assert forall|k: Seq<u8>| #[trigger] t.contains_key(k) implies exists|a: int| 0 <= a < out.len() && out[a].0@ == k by {
        let b = choose|b: int| 0 <= b < keys.len() && keys[b]@ == k;
        let a = choose|a: int| #![trigger out[a]] 0 <= a < out.len() && out[a].0@ == keys[b]@;
    }
    assert forall|a: int| 0 <= a < out.len() implies #[trigger] t.contains_key(out[a].0@) && t[out[a].0@] == out[a].1 by {
        let b = choose|b: int| #![trigger keys[b]] 0 <= b < keys.len() && out[a].0@ == keys[b]@ && out[a].1 == counts[b];
    }
}

/// `v` with `events` added, first to last.
pub open spec fn recorded_all(v: StatsView, events: Seq<Event>) -> StatsView
    decreases events.len(),
{
    if events.len() == 0 {
        v
    } else {
        recorded(recorded_all(v, events.drop_last()), events.last())
    }
}

/// Whether `events` can be added to `v`, first to last, without a counter
/// overflowing.
pub open spec fn can_record_all(v: StatsView, events: Seq<Event>) -> bool
    decreases events.len(),
{
    if events.len() == 0 {
        true
    } else {
        can_record_all(v, events.drop_last()) && can_record(
            recorded_all(v, events.drop_last()),
            events.last(),
        )
    }
}

/// The requests that `events` report as attempted, sent, the bytes they
/// report as sent, and the responses they report.
pub open spec fn event_sums(events: Seq<Event>) -> (int, int, int, int)
    decreases events.len(),
{
    if events.len() == 0 {
        (0, 0, 0, 0)
    } else {
        let (a, s, b, r) = event_sums(events.drop_last());
        match events.last() {
            Event::Attempted(n) => (a + n, s, b, r),
            Event::Sent(n) => (a, s + n, b, r),
            Event::BytesSent(n) => (a, s, b + n, r),
            Event::Status(_) => (a, s, b, r + 1),
            _ => (a, s, b, r),
        }
    }
}

/// A report shows what the events since the last report add up to: after
/// a report, the deltas of the next one are the attempts, sent requests,
/// sent bytes and responses of the events recorded in between.
pub proof fn lemma_deltas_count_events(v: StatsView, events: Seq<Event>)
    requires
        can_record_all(reported(v), events),
    ensures
        ({
            let w = recorded_all(reported(v), events);
            let (a, s, b, r) = event_sums(events);
            &&& w.attempted - w.last_attempted == a
            &&& w.sent - w.last_sent == s
            &&& w.bytes - w.last_bytes == b
            &&& w.responses - w.last_responses == r
        }),
    decreases events.len(),
{
    if events.len() > 0 {
        lemma_deltas_count_events(v, events.drop_last());
    }
}

/// How many of `events` are pauses, how many time-outs, how many closed
/// connections, and the requests that the closed connections report.
pub open spec fn lag_sums(events: Seq<Event>) -> (int, int, int, int)
    decreases events.len(),
{
    if events.len() == 0 {
        (0, 0, 0, 0)
    } else {
        let (p, t, c, q) = lag_sums(events.drop_last());
        match events.last() {
            Event::LagPaused => (p + 1, t, c, q),
            Event::LagTimeout => (p, t + 1, c, q),
            Event::ConnectionClosed(n) => (p, t, c + 1, q + n),
            _ => (p, t, c, q),
        }
    }
}

/// Every pause, time-out and closed connection is counted once: after
/// `events`, the pause total has grown by the number of pauses among them,
/// the time-out total by the number of time-outs, the closed total by the
/// number of closed connections, and the requests on closed connections by
/// the requests those connections report.
pub proof fn lemma_lag_totals_count_events(v: StatsView, events: Seq<Event>)
    requires
        can_record_all(v, events),
    ensures
        ({
            let w = recorded_all(v, events);
            let (p, t, c, q) = lag_sums(events);
            &&& w.paused == v.paused + p
            &&& w.timeouts == v.timeouts + t
            &&& w.closed == v.closed + c
            &&& w.requests_on_closed == v.requests_on_closed + q
        }),
    decreases events.len(),
{
    if events.len() > 0 {
        lemma_lag_totals_count_events(v, events.drop_last());
    }
}

/// How often `key` came so far, zero when it never came.
pub open spec fn tally_of(t: Map<Seq<u8>, u64>, key: Seq<u8>) -> int {
    if t.contains_key(key) {
        t[key] as int
    } else {
        0
    }
}

/// How many of `events` report `key` as a status code or an error.
pub open spec fn key_count(events: Seq<Event>, key: Seq<u8>) -> int
    decreases events.len(),
{
    if events.len() == 0 {
        0
    } else {
        let before = key_count(events.drop_last(), key);
        match events.last() {
            Event::Status(code) => if code@ == key { before + 1 } else { before },
            Event::Error(err) => if err@ == key { before + 1 } else { before },
            _ => before,
        }
    }
}

/// Each status code and error is counted once for every event that reports
/// it.
pub proof fn lemma_tally_counts_events(v: StatsView, events: Seq<Event>, key: Seq<u8>)
    requires
        can_record_all(v, events),
    ensures
        tally_of(recorded_all(v, events).tallies, key) == tally_of(v.tallies, key) + key_count(events, key),
    decreases events.len(),
{
    if events.len() > 0 {
        lemma_tally_counts_events(v, events.drop_last(), key);
    }
}

impl View for Stats {
    type V = StatsView;

    closed spec fn view(&self) -> StatsView {
        StatsView {
            tallies: self.tallies@,
            attempted: self.attempted,
            sent: self.sent,
            bytes: self.bytes,
            responses: self.responses,
            paused: self.paused,
            timeouts: self.timeouts,
            closed: self.closed,
            requests_on_closed: self.requests_on_closed,
            last_attempted: self.last_attempted,
            last_sent: self.last_sent,
            last_bytes: self.last_bytes,
            last_responses: self.last_responses,
        }
    }
}

impl Stats {
    /// The tallies are listed once each, and no total is behind its value at
    /// the last report.
    pub closed spec fn wf(&self) -> bool {
        &&& tallies_held(self.keys@, self.counts@, self.tallies@)
        &&& self.last_attempted <= self.attempted
        &&& self.last_sent <= self.sent
        &&& self.last_bytes <= self.bytes
        &&& self.last_responses <= self.responses
    }

    /// Nothing recorded yet.
    pub fn new() -> (s: Stats)
        ensures
            s.wf(),
            s@.tallies == Map::<Seq<u8>, u64>::empty(),
            s@.attempted == 0 && s@.sent == 0 && s@.bytes == 0 && s@.responses == 0,
            s@.paused == 0 && s@.timeouts == 0 && s@.closed == 0 && s@.requests_on_closed == 0,
            s@.last_attempted == 0 && s@.last_sent == 0 && s@.last_bytes == 0 && s@.last_responses == 0,
    {
        Stats {
            keys: Vec::new(),
            counts: Vec::new(),
            tallies: Ghost(Map::empty()),
            attempted: 0,
            sent: 0,
            bytes: 0,
            responses: 0,
            paused: 0,
            timeouts: 0,
            closed: 0,
            requests_on_closed: 0,
            last_attempted: 0,
            last_sent: 0,
            last_bytes: 0,
            last_responses: 0,
        }
    }

    /// The position of `key` among the tallies, if it is there.
    fn find(&self, key: &[u8]) -> (r: Option<usize>)
        requires
            self.wf(),
        ensures
            match r {
                Some(i) => i < self.keys@.len() && self.keys@[i as int]@ == key@,
                None => !self@.tallies.contains_key(key@),
            },
    {
        let mut i: usize = 0;
        while i < self.keys.len()
            invariant
                i <= self.keys@.len(),
                forall|k: int| 0 <= k < i ==> self.keys@[k]@ != key@,
            decreases self.keys@.len() - i,
        {
            if same_bytes(self.keys[i].as_slice(), key) {
                return Some(i);
            }
            i = i + 1;
        }
        None
    }

    /// How often `key` came so far.
    pub fn tally(&self, key: &[u8]) -> (r: u64)
        requires
            self.wf(),
        ensures
            r == if self@.tallies.contains_key(key@) { self@.tallies[key@] } else { 0 },
    {
        match self.find(key) {
            Some(i) => self.counts[i],
            None => 0,
        }
    }

    /// One more of `key`.
    fn bump(&mut self, key: Vec<u8>)
        requires
            old(self).wf(),
            bump_fits(old(self)@.tallies, key@),
        ensures
            final(self).wf(),
            final(self)@ == (StatsView { tallies: bumped(old(self)@.tallies, key@), ..old(self)@ }),
    {
        match self.find(key.as_slice()) {
            Some(i) => {
                let c = self.counts[i];
                let ghost t = self.tallies@;
                let ghost k0 = self.keys@;
                self.counts.set(i, c + 1);
                self.tallies = Ghost(t.insert(key@, (c + 1) as u64));
                proof {
                    assert forall|k: Seq<u8>| #[trigger] self.tallies@.contains_key(k) implies exists|j: int|
                        0 <= j < self.keys@.len() && self.keys@[j]@ == k by {
                        if k != key@ {
                            assert(t.contains_key(k));
                            let j = choose|j: int| 0 <= j < k0.len() && k0[j]@ == k;
                            assert(self.keys@[j] == k0[j]);
                        } else {
                            assert(self.keys@[i as int]@ == k);
                        }
                    }
                }
            },
            None => {
                let ghost t = self.tallies@;
                let ghost k_old = self.keys@;
                let ghost kv = key@;
                self.keys.push(key);
                self.counts.push(1);
                self.tallies = Ghost(t.insert(kv, 1));
                proof {
                    assert forall|i: int| 0 <= i < self.keys@.len() implies #[trigger] self.tallies@.contains_key(
                        self.keys@[i]@,
                    ) && self.tallies@[self.keys@[i]@] == self.counts@[i] by {
                        if i < k_old.len() {
                            assert(self.keys@[i] == k_old[i]);
                            assert(t.contains_key(k_old[i]@));
                        }
                    }
                    assert forall|k: Seq<u8>| #[trigger] self.tallies@.contains_key(k) implies exists|j: int|
                        0 <= j < self.keys@.len() && self.keys@[j]@ == k by {
                        if k != kv {
                            assert(t.contains_key(k));
                            let j = choose|j: int| 0 <= j < k_old.len() && k_old[j]@ == k;
                            assert(self.keys@[j] == k_old[j]);
                        } else {
                            assert(self.keys@[k_old.len() as int]@ == kv);
                        }
                    }
                }
            },
        }
    }

    /// Whether `e` can be added without a counter overflowing.
    pub fn fits(&self, e: &Event) -> (r: bool)
        requires
            self.wf(),
        ensures
            r == can_record(self@, *e),
    {
        match e {
            Event::Attempted(n) => *n as u64 <= u64::MAX - self.attempted,
            Event::Sent(n) => *n as u64 <= u64::MAX - self.sent,
            Event::BytesSent(n) => *n as u64 <= u64::MAX - self.bytes,
            Event::Status(code) => self.responses < u64::MAX && self.tally(code.as_slice()) < u64::MAX,
            Event::Error(err) => self.tally(err.as_slice()) < u64::MAX,
            Event::LagPaused => self.paused < u64::MAX,
            Event::LagTimeout => self.timeouts < u64::MAX,
            Event::ConnectionClosed(n) => self.closed < u64::MAX && *n <= u64::MAX
                - self.requests_on_closed,
        }
    }

    /// Adds `e` to the totals.
    pub fn record(&mut self, e: Event)
        requires
            old(self).wf(),
            can_record(old(self)@, e),
        ensures
            final(self).wf(),
            final(self)@ == recorded(old(self)@, e),
    {
        match e {
            Event::Attempted(n) => self.attempted = self.attempted + n as u64,
            Event::Sent(n) => self.sent = self.sent + n as u64,
            Event::BytesSent(n) => self.bytes = self.bytes + n as u64,
            Event::Status(code) => {
                self.bump(code);
                self.responses = self.responses + 1;
            },
            Event::Error(err) => self.bump(err),
            Event::LagPaused => self.paused = self.paused + 1,
            Event::LagTimeout => self.timeouts = self.timeouts + 1,
            Event::ConnectionClosed(n) => {
                self.closed = self.closed + 1;
                self.requests_on_closed = self.requests_on_closed + n;
            },
        }
    }

    /// Every status code and error with its count, most frequent first.
    fn sorted_tallies(&self) -> (out: Vec<(Vec<u8>, u64)>)
        requires
            self.wf(),
        ensures
            lists_tallies(out@, self@.tallies),
    {
        let ghost keys = self.keys@;
        let ghost counts = self.counts@;
        let mut out: Vec<(Vec<u8>, u64)> = Vec::new();
        proof {
            reveal(drawn_from);
            reveal(covers);
            reveal(distinct_entries);
            reveal(descending);
        }
        let mut i: usize = 0;
        while i < self.keys.len()
            invariant
                keys == self.keys@,
                counts == self.counts@,
                tallies_held(keys, counts, self.tallies@),
                i <= keys.len(),
                drawn_from(out@, keys, counts, i as int),
                covers(out@, keys, i as int),
                distinct_entries(out@),
                descending(out@),
            decreases keys.len() - i,
        {
            let count = self.counts[i];
            let mut j: usize = 0;
            while j < out.len() && out[j].1 >= count
                invariant
                    j <= out@.len(),
                    forall|a: int| 0 <= a < j ==> out@[a].1 >= count,
                decreases out@.len() - j,
            {
                j = j + 1;
            }
            let ghost before = out@;
            let key = copy_bytes(self.keys[i].as_slice());
            out.insert(j, (key, count));
            proof {
                lemma_insert_entry(before, keys, counts, i as int, j as int, out@[j as int]);
            }
            i = i + 1;
        }
        proof {
            lemma_listed(out@, keys, counts, self.tallies@);
        }
        out
    }

    /// What changed since the last report; the totals become the totals at
    /// the last report.
    pub fn tick(&mut self) -> (r: Report)
        requires
            old(self).wf(),
        ensures
            final(self).wf(),
            final(self)@ == reported(old(self)@),
            r.attempt_delta == old(self)@.attempted - old(self)@.last_attempted,
            r.sent_delta == old(self)@.sent - old(self)@.last_sent,
            r.bytes_delta == old(self)@.bytes - old(self)@.last_bytes,
            r.resp_delta == old(self)@.responses - old(self)@.last_responses,
            r.paused == old(self)@.paused,
            r.timeouts == old(self)@.timeouts,
            r.closed == old(self)@.closed,
            r.requests_on_closed == old(self)@.requests_on_closed,
            lists_tallies(r.tallies@, old(self)@.tallies),
            r.show == (r.tallies@.len() > 0 || r.sent_delta > 0 || r.attempt_delta > 0),
    {
        let tallies = self.sorted_tallies();
        let attempt_delta = self.attempted - self.last_attempted;
        let sent_delta = self.sent - self.last_sent;
        let bytes_delta = self.bytes - self.last_bytes;
        let resp_delta = self.responses - self.last_responses;
        self.last_attempted = self.attempted;
        self.last_sent = self.sent;
        self.last_bytes = self.bytes;
        self.last_responses = self.responses;
        let show = tallies.len() > 0 || sent_delta > 0 || attempt_delta > 0;
        Report {
            attempt_delta,
            sent_delta,
            bytes_delta,
            resp_delta,
            paused: self.paused,
            timeouts: self.timeouts,
            closed: self.closed,
            requests_on_closed: self.requests_on_closed,
            tallies,
            show,
        }
    }
}

} // verus!
