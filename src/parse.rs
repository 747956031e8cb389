use crate::pairing::{ParseError, RawEvent, RawEventView, events_view};
use vstd::prelude::*;
use vstd::std_specs::iter::IteratorSpec;
use vstd::string::*;

verus! {

/// The characters that make up each part of a log line.
#[derive(Debug, Clone, Copy, PartialEq, Eq, Structural)]
pub enum CharClass {
    /// `a` to `z`: the event's kind.
    Lower,
    /// `0` to `9`: the timestamp.
    Digit,
    /// Anything but `"` and a line break: the file.
    FileText,
}

pub open spec fn in_class(c: char, k: CharClass) -> bool {
    match k {
        CharClass::Lower => 'a' as u32 <= c as u32 <= 'z' as u32,
        CharClass::Digit => is_digit(c),
        CharClass::FileText => c != '"' && c != '\n',
    }
}

/// Length of the longest run of characters of class `k` that starts at `i`.
pub open spec fn run_len(s: Seq<char>, i: int, k: CharClass) -> nat
    decreases s.len() - i,
{
    if 0 <= i < s.len() && in_class(s[i], k) {
        1 + run_len(s, i + 1, k)
    } else {
        0
    }
}

/// The log line that starts at `p`, if one does: a run of lowercase letters
/// (the kind, possibly empty), a space, a run of digits (the timestamp,
/// possibly empty), a space, and a file name between double quotes. The file
/// name is the text up to the next `"`, on the same line. The result is
/// the positions of the first space, the second space and the closing quote.
pub open spec fn match_at(s: Seq<char>, p: int) -> Option<(int, int, int)> {
    let a = p + run_len(s, p, CharClass::Lower);
    let b = a + 1 + run_len(s, a + 1, CharClass::Digit);
    let c = b + 2 + run_len(s, b + 2, CharClass::FileText);
    if c < s.len() && s[a] == ' ' && s[b] == ' ' && s[b + 1] == '"' && s[c] == '"' {
        Some((a, b, c))
    } else {
        None
    }
}

/// Kind, timestamp and file of the successive non-overlapping log lines in
/// `s` from position `p` on, found left to right: the first match starts at
/// the leftmost position where one starts, and the search resumes after it.
/// Text that is part of no match is skipped.
pub open spec fn matches_from(s: Seq<char>, p: int) -> Seq<(Seq<char>, Seq<char>, Seq<char>)>
    decreases s.len() - p,
{
    if p < 0 || p >= s.len() {
        Seq::empty()
    } else {
        match match_at(s, p) {
            Some((a, b, c)) => seq![(s.subrange(p, a), s.subrange(a + 1, b), s.subrange(b + 2, c))]
                + matches_from(s, c + 1),
            None => matches_from(s, p + 1),
        }
    }
}

/// The log lines of `content`, each as kind, timestamp and file. A line is
/// recognised wherever it starts, also after other text on the same line.
pub open spec fn log_line_matches(content: Seq<char>) -> Seq<(Seq<char>, Seq<char>, Seq<char>)> {
    matches_from(content, 0)
}

/// The groups of one matched log line, as text.
pub struct Capture {
    pub kind: String,
    pub timestamp: String,
    pub file: String,
}

pub open spec fn capture_view(c: Capture) -> (Seq<char>, Seq<char>, Seq<char>) {
    (c.kind@, c.timestamp@, c.file@)
}

pub open spec fn captures_view(cs: Seq<Capture>) -> Seq<(Seq<char>, Seq<char>, Seq<char>)> {
    cs.map_values(|c: Capture| capture_view(c))
}

/// The characters of `s`, in order.
fn chars_of(s: &str) -> (r: Vec<char>)
    ensures
        r@ == s@,
{
    broadcast use vstd::string::axiom_spec_iter, vstd::string::next_postcondition;

    let mut it = s.chars();
    let mut out: Vec<char> = Vec::new();
    loop
        invariant
            out@ + it.remaining() == s@,
        ensures
            out@ == s@,
        decreases s@.len() - out@.len(),
    {
        match it.next() {
            Some(c) => {
                out.push(c);
            },
            None => {
                assert(it.remaining().len() == 0);
                assert(out@ =~= s@);
                break;
            },
        }
    }
    out
}

fn in_class_exec(c: char, k: CharClass) -> (r: bool)
    ensures
        r == in_class(c, k),
{
    match k {
        CharClass::Lower => 'a' as u32 <= c as u32 && c as u32 <= 'z' as u32,
        CharClass::Digit => '0' as u32 <= c as u32 && c as u32 <= '9' as u32,
        CharClass::FileText => c != '"' && c != '\n',
    }
}

/// The end of the run of characters of class `k` that starts at `i`.
fn run_end(cs: &Vec<char>, i: usize, k: CharClass) -> (r: usize)
    requires
        i <= cs.len(),
    ensures
        r == i + run_len(cs@, i as int, k),
        r <= cs.len(),
{
    let mut j: usize = i;
    while j < cs.len() && in_class_exec(cs[j], k)
        invariant
            i <= j <= cs.len(),
            run_len(cs@, i as int, k) == (j - i) + run_len(cs@, j as int, k),
        decreases cs.len() - j,
    {
        j = j + 1;
    }
    j
}

/// The log line that starts at `p`, as `match_at` gives it.
fn match_here(cs: &Vec<char>, p: usize) -> (r: Option<(usize, usize, usize)>)
    requires
        p < cs.len(),
    ensures
        match match_at(cs@, p as int) {
            Some((a, b, c)) => r is Some && r->Some_0.0 as int == a && r->Some_0.1 as int == b
                && r->Some_0.2 as int == c,
            None => r is None,
        },
{
    let a = run_end(cs, p, CharClass::Lower);
    if a >= cs.len() || cs[a] != ' ' {
        return None;
    }
    let b = run_end(cs, a + 1, CharClass::Digit);
    if b >= cs.len() - 1 || cs[b] != ' ' || cs[b + 1] != '"' {
        return None;
    }
    let c = run_end(cs, b + 2, CharClass::FileText);
    if c >= cs.len() || cs[c] != '"' {
        return None;
    }
    Some((a, b, c))
}

/// The log lines of `content`: kind, timestamp and file of each, in order.
pub fn log_captures(content: &str) -> (r: Vec<Capture>)
    ensures
        captures_view(r@) == log_line_matches(content@),
{
    let cs = chars_of(content);
    let mut out: Vec<Capture> = Vec::new();
    let mut p: usize = 0;
    assert(captures_view(out@) =~= Seq::empty());
    while p < cs.len()
        invariant
            p <= cs.len(),
            cs@ == content@,
            captures_view(out@) + matches_from(cs@, p as int) == log_line_matches(content@),
        decreases cs.len() - p,
    {
        let ghost before = captures_view(out@);
        match match_here(&cs, p) {
            Some((a, b, c)) => {
                let cap = Capture {
                    kind: String::from_str(content.substring_char(p, a)),
                    timestamp: String::from_str(content.substring_char(a + 1, b)),
                    file: String::from_str(content.substring_char(b + 2, c)),
                };
                out.push(cap);
                assert(captures_view(out@) =~= before.push(capture_view(cap)));
                assert(before + matches_from(cs@, p as int) =~= captures_view(out@) + matches_from(
                    cs@,
                    c + 1,
                ));
                p = c + 1;
            },
            None => {
                p = p + 1;
            },
        }
    }
    assert(captures_view(out@) =~= captures_view(out@) + matches_from(cs@, p as int));
    out
}

pub open spec fn is_digit(c: char) -> bool {
    '0' as u32 <= c as u32 <= '9' as u32
}

pub open spec fn digits_value(s: Seq<char>) -> int
    decreases s.len(),
{
    if s.len() == 0 {
        0
    } else {
        digits_value(s.drop_last()) * 10 + (s.last() as u32 - '0' as u32)
    }
}

/// The timestamp that a decimal text denotes: one or more ASCII digits whose
/// value fits in an `i64`.
pub open spec fn timestamp_of(s: Seq<char>) -> Option<int> {
    if s.len() > 0 && (forall|k: int| 0 <= k < s.len() ==> is_digit(#[trigger] s[k]))
        && digits_value(s) <= i64::MAX {
        Some(digits_value(s))
    } else {
        None
    }
}

proof fn lemma_digits_nonneg(s: Seq<char>)
    requires
        forall|k: int| 0 <= k < s.len() ==> is_digit(#[trigger] s[k]),
    ensures
        digits_value(s) >= 0,
    decreases s.len(),
{
    if s.len() > 0 {
        lemma_digits_nonneg(s.drop_last());
    }
}

/// A longer run of digits never has a smaller value.
proof fn lemma_digits_monotone(s: Seq<char>, j: int)
    requires
        0 <= j <= s.len(),
        forall|k: int| 0 <= k < s.len() ==> is_digit(#[trigger] s[k]),
    ensures
        digits_value(s.take(j)) <= digits_value(s),
    decreases s.len() - j,
{
    if j < s.len() {
        assert(s.take(j + 1).drop_last() =~= s.take(j));
        lemma_digits_nonneg(s.take(j));
        lemma_digits_monotone(s, j + 1);
    } else {
        assert(s.take(j) =~= s);
    }
}

/// Reads a timestamp written in decimal digits.
pub fn parse_timestamp(s: &str) -> (r: Option<i64>)
    ensures
        match timestamp_of(s@) {
            Some(v) => r is Some && r->Some_0 as int == v,
            None => r is None,
        },
{
    let n = s.unicode_len();
    if n == 0 {
        return None;
    }
    let mut acc: i64 = 0;
    let mut i: usize = 0;
    while i < n
        invariant
            n == s@.len(),
            0 <= i <= n,
            forall|k: int| 0 <= k < i ==> is_digit(#[trigger] s@[k]),
            acc == digits_value(s@.take(i as int)),
            acc >= 0,
        decreases n - i,
    {
        let c = s.get_char(i);
        assert(s@.take(i + 1).drop_last() =~= s@.take(i as int));
        if !('0' as u32 <= c as u32 && c as u32 <= '9' as u32) {
            return None;
        }
        let d: i64 = (c as u32 - '0' as u32) as i64;
        if acc > (i64::MAX - d) / 10 {
            proof {
                assert(acc * 10 + d > i64::MAX) by (nonlinear_arith)
                    requires
                        acc > (i64::MAX - d) / 10,
                        0 <= d <= 9,
                ;
                if forall|k: int| 0 <= k < s@.len() ==> is_digit(#[trigger] s@[k]) {
                    lemma_digits_monotone(s@, i as int + 1);
                }
            }
            return None;
        }
        proof {
            assert(acc * 10 + d <= i64::MAX) by (nonlinear_arith)
                requires
                    acc <= (i64::MAX - d) / 10,
                    0 <= d <= 9,
            ;
        }
        acc = acc * 10 + d;
        i = i + 1;
    }
    assert(s@.take(n as int) =~= s@);
    Some(acc)
}

/// The events of the captured lines, in order; `None` when a timestamp
/// cannot be read.
pub open spec fn events_of(cs: Seq<(Seq<char>, Seq<char>, Seq<char>)>) -> Option<Seq<RawEventView>> {
    if forall|k: int| 0 <= k < cs.len() ==> (#[trigger] timestamp_of(cs[k].1)) is Some {
        Some(
            cs.map_values(
                |c: (Seq<char>, Seq<char>, Seq<char>)|
                    RawEventView { kind: c.0, timestamp: timestamp_of(c.1).unwrap(), file: c.2 },
            ),
        )
    } else {
        None
    }
}

/// Turns the captured lines into events, in order; fails with `Timestamp`
/// when a timestamp is not a decimal number that fits in an `i64`.
pub fn events_from_captures(caps: &Vec<Capture>) -> (r: Result<Vec<RawEvent>, ParseError>)
    ensures
        events_of(captures_view(caps@)) is None <==> r is Err,
        r is Err ==> r == Err::<Vec<RawEvent>, ParseError>(ParseError::Timestamp),
        r is Ok ==> Some(events_view(r->Ok_0@)) == events_of(captures_view(caps@)),
{
    let ghost cs = captures_view(caps@);
    let mut out: Vec<RawEvent> = Vec::new();
    let mut i: usize = 0;
    while i < caps.len()
        invariant
            0 <= i <= caps.len(),
            cs == captures_view(caps@),
            out.len() == i,
            forall|k: int| 0 <= k < i ==> (#[trigger] timestamp_of(cs[k].1)) is Some,
            forall|k: int|
                0 <= k < i ==> #[trigger] out@[k]@ == (RawEventView {
                    kind: cs[k].0,
                    timestamp: timestamp_of(cs[k].1).unwrap(),
                    file: cs[k].2,
                }),
        decreases caps.len() - i,
    {
        let c = &caps[i];
        assert(cs[i as int] == capture_view(caps@[i as int]));
        match parse_timestamp(c.timestamp.as_str()) {
            None => {
                assert(timestamp_of(cs[i as int].1) is None);
                return Err(ParseError::Timestamp);
            },
            Some(t) => {
                let ev = RawEvent { kind: c.kind.clone(), timestamp: t, file: c.file.clone() };
                assert(ev@ == (RawEventView {
                    kind: cs[i as int].0,
                    timestamp: timestamp_of(cs[i as int].1).unwrap(),
                    file: cs[i as int].2,
                }));
                out.push(ev);
            },
        }
        i = i + 1;
    }
    proof {
        let e = events_of(cs);
        assert(e is Some);
        assert(events_view(out@) =~= e.unwrap());
    }
    Ok(out)
}

/// Parses the whole log: each log line that `log_line_matches` finds becomes
/// one event, and text that is part of no log line is skipped.
pub fn parse_log(content: &str) -> (r: Result<Vec<RawEvent>, ParseError>)
    ensures
        events_of(log_line_matches(content@)) is None <==> r is Err,
        r is Err ==> r == Err::<Vec<RawEvent>, ParseError>(ParseError::Timestamp),
        r is Ok ==> Some(events_view(r->Ok_0@)) == events_of(log_line_matches(content@)),
{
    let caps = log_captures(content);
    events_from_captures(&caps)
}

} // verus!

verus! {

/// A timestamp that can be read is never negative.
pub proof fn lemma_timestamp_nonneg(s: Seq<char>)
    requires
        timestamp_of(s) is Some,
    ensures
        timestamp_of(s).unwrap() >= 0,
{
    lemma_digits_nonneg(s);
}

} // verus!
