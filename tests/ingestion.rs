use code_time_monitor::ingest::ingest;
use code_time_monitor::pairing::{
    pair_events, reduce_step, sort_events, Interval, ParseError, PendingEnter, RawEvent,
};
use code_time_monitor::parse::{
    events_from_captures, log_captures, parse_log, parse_timestamp, Capture,
};

fn event(kind: &str, timestamp: i64, file: &str) -> RawEvent {
    RawEvent { kind: kind.to_string(), timestamp, file: file.to_string() }
}

fn same_interval(i: &Interval, begin: i64, duration: i64, file: &str) -> bool {
    i.begin == begin && i.duration == duration && i.file == file
}

#[test]
fn enter_then_leave_gives_one_interval() {
    let r = ingest("enter 1000 \"a.txt\"\nleave 5000 \"a.txt\"\n").unwrap();
    assert_eq!(r.len(), 1);
    assert!(same_interval(&r[0], 1000, 4000, "a.txt"));
}

#[test]
fn later_enter_replaces_pending_one() {
    let r = ingest("enter 1000 \"a.txt\"\nenter 2000 \"b.txt\"\nleave 5000 \"a.txt\"\n").unwrap();
    assert_eq!(r.len(), 0);
}

#[test]
fn leave_without_enter_gives_nothing() {
    let r = ingest("leave 1000 \"a.txt\"\n").unwrap();
    assert_eq!(r.len(), 0);
}

#[test]
fn events_are_sorted_before_pairing() {
    let r = ingest("leave 5000 \"a.txt\"\nenter 1000 \"a.txt\"\n").unwrap();
    assert_eq!(r.len(), 1);
    assert!(same_interval(&r[0], 1000, 4000, "a.txt"));
}

#[test]
fn leave_keeps_the_pending_enter() {
    let r = ingest("enter 1000 \"a\"\nleave 2000 \"a\"\nleave 3500 \"a\"\n").unwrap();
    assert_eq!(r.len(), 2);
    assert!(same_interval(&r[0], 1000, 1000, "a"));
    assert!(same_interval(&r[1], 1000, 2500, "a"));
}

#[test]
fn unknown_kind_fails() {
    assert_eq!(ingest("enter 1000 \"a\"\nstart 2000 \"a\"\n").unwrap_err(), ParseError::EventKind);
}

#[test]
fn unreadable_timestamp_fails() {
    assert_eq!(
        ingest("enter 99999999999999999999 \"a\"\n").unwrap_err(),
        ParseError::Timestamp
    );
}

#[test]
fn empty_log_gives_nothing() {
    assert_eq!(ingest("").unwrap().len(), 0);
}

#[test]
fn lines_that_do_not_match_are_skipped() {
    let r = parse_log("hello world\nenter 1000 \"a.txt\"\nEnter x\n").unwrap();
    assert_eq!(r.len(), 1);
    assert_eq!(r[0].kind, "enter");
    assert_eq!(r[0].timestamp, 1000);
    assert_eq!(r[0].file, "a.txt");
}

#[test]
fn parse_log_reads_each_line() {
    let r = parse_log("enter 1000 \"a.txt\"\nleave 5000 \"b c.txt\"\n").unwrap();
    assert_eq!(r.len(), 2);
    assert_eq!(r[1].kind, "leave");
    assert_eq!(r[1].timestamp, 5000);
    assert_eq!(r[1].file, "b c.txt");
}

#[test]
fn timestamps_in_decimal() {
    assert_eq!(parse_timestamp("1000"), Some(1000));
    assert_eq!(parse_timestamp("0007"), Some(7));
    assert_eq!(parse_timestamp("9223372036854775807"), Some(i64::MAX));
    assert_eq!(parse_timestamp("9223372036854775808"), None);
    assert_eq!(parse_timestamp(""), None);
    assert_eq!(parse_timestamp("12a"), None);
    assert_eq!(parse_timestamp("\u{663}"), None);
}

#[test]
fn captures_become_events() {
    let caps = vec![
        Capture { kind: "enter".to_string(), timestamp: "12".to_string(), file: "x".to_string() },
        Capture { kind: "leave".to_string(), timestamp: "30".to_string(), file: "x".to_string() },
    ];
    let r = events_from_captures(&caps).unwrap();
    assert_eq!(r.len(), 2);
    assert_eq!(r[0].timestamp, 12);
    assert_eq!(r[1].kind, "leave");
    let bad = vec![Capture { kind: "enter".to_string(), timestamp: String::new(), file: "x".to_string() }];
    assert_eq!(events_from_captures(&bad).unwrap_err(), ParseError::Timestamp);
}

#[test]
fn step_by_step_pairing() {
    let mut p = PendingEnter::new();
    assert!(reduce_step(&mut p, &event("enter", 10, "f")).unwrap().is_none());
    assert_eq!(p.timestamp, 10);
    assert_eq!(p.file, "f");
    assert!(reduce_step(&mut p, &event("leave", 15, "g")).unwrap().is_none());
    let i = reduce_step(&mut p, &event("leave", 25, "f")).unwrap().unwrap();
    assert!(same_interval(&i, 10, 15, "f"));
    assert_eq!(reduce_step(&mut p, &event("exit", 30, "f")).unwrap_err(), ParseError::EventKind);
    assert_eq!(p.timestamp, 10);
}

#[test]
fn pairing_uses_the_given_order() {
    let es = vec![event("enter", 1, "a"), event("enter", 2, "b"), event("leave", 5, "b")];
    let r = pair_events(&es).unwrap();
    assert_eq!(r.len(), 1);
    assert!(same_interval(&r[0], 2, 3, "b"));
    let bad = vec![event("enter", 1, "a"), event("bogus", 2, "a")];
    assert_eq!(pair_events(&bad).unwrap_err(), ParseError::EventKind);
}

#[test]
fn leave_for_the_empty_name_pairs_with_the_initial_slot() {
    let r = pair_events(&vec![event("leave", 7, "")]).unwrap();
    assert_eq!(r.len(), 1);
    assert!(same_interval(&r[0], 0, 7, ""));
}

#[test]
fn sorting_orders_by_timestamp() {
    let es = vec![event("leave", 9, "a"), event("enter", 3, "a"), event("enter", 5, "b")];
    let r = sort_events(&es);
    let ts: Vec<i64> = r.iter().map(|e| e.timestamp).collect();
    assert_eq!(ts, vec![3, 5, 9]);
    assert_eq!(r[2].kind, "leave");
}

fn triples(content: &str) -> Vec<(String, String, String)> {
    log_captures(content)
        .into_iter()
        .map(|c| (c.kind, c.timestamp, c.file))
        .collect()
}

fn triple(k: &str, t: &str, f: &str) -> (String, String, String) {
    (k.to_string(), t.to_string(), f.to_string())
}

#[test]
fn file_ends_at_the_next_quote() {
    assert_eq!(triples("enter 1 \"a\" \"b\"\n"), vec![triple("enter", "1", "a")]);
}

#[test]
fn lines_are_found_wherever_they_start() {
    assert_eq!(triples("xx enter 5 \"f\""), vec![triple("enter", "5", "f")]);
    assert_eq!(triples("Xenter 5 \"f\""), vec![triple("enter", "5", "f")]);
    assert_eq!(
        triples("enter 1 \"a\"leave 2 \"a\""),
        vec![triple("enter", "1", "a"), triple("leave", "2", "a")]
    );
}

#[test]
fn empty_kind_and_timestamp_are_captured() {
    assert_eq!(triples(" 12 \"f\""), vec![triple("", "12", "f")]);
    assert_eq!(triples("enter  \"f\""), vec![triple("enter", "", "f")]);
    assert_eq!(ingest("enter  \"f\"\n").unwrap_err(), ParseError::Timestamp);
}

#[test]
fn file_does_not_cross_a_line_break() {
    assert_eq!(triples("enter 1 \"a\nb\"\n"), Vec::new());
    assert_eq!(triples("enter 1 a.txt\nenter 1 \"a"), Vec::new());
}

#[test]
fn file_names_keep_any_character() {
    assert_eq!(triples("leave 9 \"d\u{e9}j\u{e0} vu/\u{1f600}.rs\""), vec![triple("leave", "9", "d\u{e9}j\u{e0} vu/\u{1f600}.rs")]);
}
