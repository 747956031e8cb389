use crate::pairing::{
    Interval, ParseError, RawEventView, events_view, intervals_view, pair_events, run,
    sort_events, sorted_by_timestamp, timestamps_valid,
};
use crate::parse::{events_of, lemma_timestamp_nonneg, log_line_matches, parse_log, timestamp_of};
use vstd::prelude::*;

verus! {

/// The intervals of a whole log: its events are parsed, put in ascending
/// order of timestamp (events with equal timestamps in some order) and
/// paired. Fails with `Timestamp` when a timestamp cannot be read, and with
/// `EventKind` when an event's kind is neither `enter` nor `leave`.
pub fn ingest(content: &str) -> (r: Result<Vec<Interval>, ParseError>)
    ensures
        events_of(log_line_matches(content@)) is None ==> r == Err::<Vec<Interval>, ParseError>(
            ParseError::Timestamp,
        ),
        events_of(log_line_matches(content@)) is Some ==> exists|es: Seq<RawEventView>|
            {
                &&& es.to_multiset() == events_of(log_line_matches(content@)).unwrap().to_multiset()
                &&& sorted_by_timestamp(es)
                &&& match run(es) {
                    None => r == Err::<Vec<Interval>, ParseError>(ParseError::EventKind),
                    Some((_, out)) => r is Ok && intervals_view(r->Ok_0@) == out,
                }
            },
{
    let events = match parse_log(content) {
        Err(e) => {
            return Err(e);
        },
        Ok(v) => v,
    };
    let ghost parsed = events_view(events@);
    proof {
        let cs = log_line_matches(content@);
        assert forall|k: int| 0 <= k < parsed.len() implies parsed[k].timestamp >= 0 by {
            assert(timestamp_of(cs[k].1) is Some);
            lemma_timestamp_nonneg(cs[k].1);
        }
    }
    let sorted = sort_events(&events);
    let r = pair_events(&sorted);
    let ghost es = events_view(sorted@);
    assert(es.to_multiset() == parsed.to_multiset());
    assert(match run(es) {
        None => r == Err::<Vec<Interval>, ParseError>(ParseError::EventKind),
        Some((_, out)) => r is Ok && intervals_view(r->Ok_0@) == out,
    });
    r
}

} // verus!
