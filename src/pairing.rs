use vstd::prelude::*;
use vstd::seq_lib::{to_multiset_build, to_multiset_insert};
use vstd::string::*;

verus! {

/// One parsed `enter` / `leave` line of the log.
#[derive(Debug, Clone)]
pub struct RawEvent {
    /// The event's kind as written in the log; only `enter` and `leave` are valid.
    pub kind: String,
    /// Milliseconds since the epoch.
    pub timestamp: i64,
    pub file: String,
}

pub struct RawEventView {
    pub kind: Seq<char>,
    pub timestamp: int,
    pub file: Seq<char>,
}

impl View for RawEvent {
    type V = RawEventView;

    open spec fn view(&self) -> RawEventView {
        RawEventView { kind: self.kind@, timestamp: self.timestamp as int, file: self.file@ }
    }
}

/// Time spent on one file: `duration` milliseconds from `begin`.
#[derive(Debug, Clone)]
pub struct Interval {
    /// Milliseconds since the epoch.
    pub begin: i64,
    /// Milliseconds.
    pub duration: i64,
    pub file: String,
}

pub struct IntervalView {
    pub begin: int,
    pub duration: int,
    pub file: Seq<char>,
}

impl View for Interval {
    type V = IntervalView;

    open spec fn view(&self) -> IntervalView {
        IntervalView { begin: self.begin as int, duration: self.duration as int, file: self.file@ }
    }
}

/// The one enter that waits for its leave: the last `enter` seen, over all files.
#[derive(Debug, Clone)]
pub struct PendingEnter {
    pub timestamp: i64,
    pub file: String,
}

pub struct PendingView {
    pub timestamp: int,
    pub file: Seq<char>,
}

impl View for PendingEnter {
    type V = PendingView;

    open spec fn view(&self) -> PendingView {
        PendingView { timestamp: self.timestamp as int, file: self.file@ }
    }
}

/// Why a log could not be turned into intervals.
#[derive(Debug, Clone, Copy, PartialEq, Eq, Structural)]
pub enum ParseError {
    /// A timestamp is not a decimal number that fits in an `i64`.
    Timestamp,
    /// An event's kind is neither `enter` nor `leave`.
    EventKind,
}

pub open spec fn enter_word() -> Seq<char> {
    seq!['e', 'n', 't', 'e', 'r']
}

pub open spec fn leave_word() -> Seq<char> {
    seq!['l', 'e', 'a', 'v', 'e']
}

/// The slot before any event: timestamp 0 and the empty file name.
pub open spec fn initial_pending() -> PendingView {
    PendingView { timestamp: 0, file: Seq::empty() }
}

/// One step of the pairing: an `enter` replaces the pending slot, whatever
/// it held; a `leave` for the pending file closes an interval and keeps the
/// slot; a `leave` for another file changes nothing; any other kind fails.
pub open spec fn step(p: PendingView, e: RawEventView) -> Option<(PendingView, Option<IntervalView>)> {
    if e.kind == enter_word() {
        Some((PendingView { timestamp: e.timestamp, file: e.file }, None))
    } else if e.kind == leave_word() {
        if e.file == p.file {
            Some(
                (
                    p,
                    Some(
                        IntervalView {
                            begin: p.timestamp,
                            duration: e.timestamp - p.timestamp,
                            file: e.file,
                        },
                    ),
                ),
            )
        } else {
            Some((p, None))
        }
    } else {
        None
    }
}

pub open spec fn opt_seq(o: Option<IntervalView>) -> Seq<IntervalView> {
    match o {
        Some(i) => seq![i],
        None => Seq::empty(),
    }
}

/// The pending slot and the intervals after the events `es`, in order,
/// starting from the initial slot; `None` when an event has an unknown kind.
pub open spec fn run(es: Seq<RawEventView>) -> Option<(PendingView, Seq<IntervalView>)>
    decreases es.len(),
{
    if es.len() == 0 {
        Some((initial_pending(), Seq::empty()))
    } else {
        match run(es.drop_last()) {
            None => None,
            Some((p, out)) => match step(p, es.last()) {
                None => None,
                Some((next, o)) => Some((next, out + opt_seq(o))),
            },
        }
    }
}

pub open spec fn events_view(es: Seq<RawEvent>) -> Seq<RawEventView> {
    es.map_values(|e: RawEvent| e@)
}

pub open spec fn intervals_view(is: Seq<Interval>) -> Seq<IntervalView> {
    is.map_values(|i: Interval| i@)
}

/// Timestamps in the log are non-negative.
pub open spec fn timestamps_valid(es: Seq<RawEventView>) -> bool {
    forall|k: int| 0 <= k < es.len() ==> es[k].timestamp >= 0
}

impl PendingEnter {
    /// The slot before any event.
    pub fn new() -> (r: PendingEnter)
        ensures
            r@ == initial_pending(),
    {
        PendingEnter { timestamp: 0, file: String::new() }
    }
}

/// Whether `s` is the word `enter` (when `enter` holds) or `leave` (when it does not).
fn is_word(s: &String, enter: bool) -> (r: bool)
    ensures
        r == (s@ == (if enter { enter_word() } else { leave_word() })),
{
    let w = if enter { String::from_str("enter") } else { String::from_str("leave") };
    proof {
        reveal_strlit("enter");
        reveal_strlit("leave");
        assert("enter"@ =~= enter_word());
        assert("leave"@ =~= leave_word());
    }
    *s == w
}

/// Feeds one event to the pending slot: updates the slot and returns the
/// interval that the event closes, if any; fails on an unknown kind and then
/// leaves the slot as it was.
pub fn reduce_step(pending: &mut PendingEnter, event: &RawEvent) -> (r: Result<Option<Interval>, ParseError>)
    requires
        old(pending).timestamp >= 0,
        event.timestamp >= 0,
    ensures
        step(old(pending)@, event@) is None <==> r is Err,
        r is Err ==> final(pending)@ == old(pending)@ && r == Err::<Option<Interval>, ParseError>(
            ParseError::EventKind,
        ),
        r is Ok ==> ({
            let (p, o) = step(old(pending)@, event@).unwrap();
            &&& final(pending)@ == p
            &&& match r->Ok_0 {
                Some(i) => o == Some(i@),
                None => o is None,
            }
        }),
        final(pending).timestamp >= 0,
{
    if is_word(&event.kind, true) {
        pending.timestamp = event.timestamp;
        pending.file = event.file.clone();
        Ok(None)
    } else if is_word(&event.kind, false) {
        if event.file == pending.file {
            let i = Interval {
                begin: pending.timestamp,
                duration: event.timestamp - pending.timestamp,
                file: event.file.clone(),
            };
            Ok(Some(i))
        } else {
            Ok(None)
        }
    } else {
        Err(ParseError::EventKind)
    }
}

/// Pairs the events, taken in the order given (ascending timestamps), into
/// intervals: exactly the intervals that `run` gives, or `EventKind` when
/// an event has an unknown kind.
pub fn pair_events(events: &Vec<RawEvent>) -> (r: Result<Vec<Interval>, ParseError>)
    requires
        timestamps_valid(events_view(events@)),
    ensures
        run(events_view(events@)) is None <==> r is Err,
        r is Err ==> r == Err::<Vec<Interval>, ParseError>(ParseError::EventKind),
        r is Ok ==> intervals_view(r->Ok_0@) == run(events_view(events@)).unwrap().1,
{
    let mut pending = PendingEnter::new();
    let mut out: Vec<Interval> = Vec::new();
    let mut i: usize = 0;
    while i < events.len()
        invariant
            0 <= i <= events.len(),
            timestamps_valid(events_view(events@)),
            pending.timestamp >= 0,
            run(events_view(events@).take(i as int)) == Some((pending@, intervals_view(out@))),
        decreases events.len() - i,
    {
        let ghost es = events_view(events@);
        assert(es.take(i + 1).drop_last() =~= es.take(i as int));
        assert(es[i as int] == events[i as int]@);
        let ghost before = out@;
        match reduce_step(&mut pending, &events[i]) {
            Err(e) => {
                proof {
                    lemma_run_stays_none(es, i as int + 1);
                }
                return Err(e);
            },
            Ok(o) => {
                match o {
                    Some(iv) => {
                        out.push(iv);
                        assert(intervals_view(out@) =~= intervals_view(before) + opt_seq(Some(iv@)));
                    },
                    None => {
                        assert(intervals_view(out@) =~= intervals_view(before) + opt_seq(None));
                    },
                }
            },
        }
        i = i + 1;
    }
    assert(events_view(events@).take(i as int) =~= events_view(events@));
    Ok(out)
}

/// Once the pairing has failed on a prefix, it fails on every longer one.
proof fn lemma_run_stays_none(es: Seq<RawEventView>, k: int)
    requires
        0 <= k <= es.len(),
        run(es.take(k)) is None,
    ensures
        run(es) is None,
    decreases es.len() - k,
{
    if k < es.len() {
        assert(es.take(k + 1).drop_last() =~= es.take(k));
        lemma_run_stays_none(es, k + 1);
    } else {
        assert(es.take(k) =~= es);
    }
}

} // verus!

verus! {

/// Timestamps never decrease along the sequence.
pub open spec fn sorted_by_timestamp(es: Seq<RawEventView>) -> bool {
    forall|a: int, b: int| 0 <= a < b < es.len() ==> es[a].timestamp <= es[b].timestamp
}

/// The events ordered by ascending timestamp: the same events, each as often
/// as before, with timestamps that never decrease.
pub fn sort_events(events: &Vec<RawEvent>) -> (r: Vec<RawEvent>)
    ensures
        events_view(r@).to_multiset() == events_view(events@).to_multiset(),
        sorted_by_timestamp(events_view(r@)),
        timestamps_valid(events_view(events@)) ==> timestamps_valid(events_view(r@)),
{
    let ghost es = events_view(events@);
    let mut out: Vec<RawEvent> = Vec::new();
    assert(events_view(out@) =~= es.take(0));
    let mut i: usize = 0;
    while i < events.len()
        invariant
            0 <= i <= events.len(),
            es == events_view(events@),
            events_view(out@).to_multiset() == es.take(i as int).to_multiset(),
            sorted_by_timestamp(events_view(out@)),
            timestamps_valid(es) ==> timestamps_valid(events_view(out@)),
        decreases events.len() - i,
    {
        let e = &events[i];
        let ts = e.timestamp;
        let mut j: usize = out.len();
        while j > 0 && out[j - 1].timestamp > ts
            invariant
                0 <= j <= out.len(),
                forall|k: int| j <= k < out.len() ==> #[trigger] out@[k].timestamp > ts,
            decreases j,
        {
            j = j - 1;
        }
        let ghost before = events_view(out@);
        let item = RawEvent { kind: e.kind.clone(), timestamp: ts, file: e.file.clone() };
        assert(item@ == es[i as int]);
        out.insert(j, item);
        proof {
            assert(events_view(out@) =~= before.insert(j as int, item@));
            to_multiset_insert(before, j as int, item@);
            assert(es.take(i + 1) =~= es.take(i as int).push(item@));
            to_multiset_build(es.take(i as int), item@);
            let n = events_view(out@);
            assert forall|a: int, b: int| 0 <= a < b < n.len() implies n[a].timestamp <= n[b].timestamp by {
                if j > 0 {
                    assert(before[j - 1].timestamp <= ts);
                }
                if b > j {
                    assert(before[b - 1].timestamp > ts);
                }
            }
        }
        i = i + 1;
    }
    assert(es.take(i as int) =~= es);
    out
}

} // verus!
