use crate::pairing::{Interval, IntervalView, intervals_view};
use vstd::arithmetic::div_mod::lemma_fundamental_div_mod;
use vstd::prelude::*;

verus! {

/// Milliseconds in one day.
pub const DAY_MS: u64 = 86400000;

/// Sum of the durations.
pub open spec fn total_duration(s: Seq<IntervalView>) -> int
    decreases s.len(),
{
    if s.len() == 0 {
        0
    } else {
        total_duration(s.drop_last()) + s.last().duration
    }
}

/// Sum of the durations of the intervals that begin at `from` or later.
pub open spec fn total_since(s: Seq<IntervalView>, from: int) -> int
    decreases s.len(),
{
    if s.len() == 0 {
        0
    } else {
        total_since(s.drop_last(), from) + if s.last().begin >= from {
            s.last().duration
        } else {
            0
        }
    }
}

/// Start, in milliseconds, of the window of `window_secs` seconds that ends
/// at `now_secs` seconds since the epoch.
pub open spec fn window_start(now_secs: int, window_secs: int) -> int {
    (now_secs - window_secs) * 1000
}

/// The UTC calendar day, counted from 1970-01-01, of a time in milliseconds.
pub open spec fn day_of(ms: int) -> int {
    ms / (DAY_MS as int)
}

/// The days on which at least one interval begins.
pub open spec fn day_set(s: Seq<IntervalView>) -> Set<int> {
    Set::new(|d: int| exists|j: int| 0 <= j < s.len() && day_of(s[j].begin) == d)
}

/// What the per-day average is made of: the sum of the per-day totals, which
/// is the sum of all durations, and the number of days with an interval.
/// The average is `total_ms / days`, and 0 when `days` is 0.
#[derive(Debug, Clone, Copy, PartialEq, Eq, Structural)]
pub struct DailyAverage {
    pub total_ms: i128,
    pub days: usize,
}

/// Upper bound on the magnitude of a sum of `n` values of type `i64`.
pub open spec fn sum_bound(n: int) -> int {
    n * 0x8000_0000_0000_0000
}

proof fn lemma_sum_step_fits(acc: int, i: int, d: int)
    requires
        -sum_bound(i) <= acc <= sum_bound(i),
        0 <= i < 0x1_0000_0000_0000_0000,
        i64::MIN <= d <= i64::MAX,
    ensures
        -sum_bound(i + 1) <= acc + d <= sum_bound(i + 1),
        i128::MIN <= acc + d <= i128::MAX,
{
    assert(sum_bound(i + 1) == sum_bound(i) + 0x8000_0000_0000_0000) by (nonlinear_arith);
    assert(sum_bound(i + 1) <= 0x1_0000_0000_0000_0000 * 0x8000_0000_0000_0000) by (nonlinear_arith)
        requires
            i + 1 <= 0x1_0000_0000_0000_0000,
    ;
}

/// Total time: the sum of the durations of all intervals (0 when there are none).
pub fn sum_time(intervals: &Vec<Interval>) -> (r: i128)
    ensures
        r == total_duration(intervals_view(intervals@)),
{
    let ghost s = intervals_view(intervals@);
    let mut acc: i128 = 0;
    let mut i: usize = 0;
    while i < intervals.len()
        invariant
            0 <= i <= intervals.len(),
            s == intervals_view(intervals@),
            acc == total_duration(s.take(i as int)),
            -sum_bound(i as int) <= acc <= sum_bound(i as int),
        decreases intervals.len() - i,
    {
        assert(s.take(i + 1).drop_last() =~= s.take(i as int));
        let d = intervals[i].duration;
        proof {
            lemma_sum_step_fits(acc as int, i as int, d as int);
        }
        acc = acc + d as i128;
        i = i + 1;
    }
    assert(s.take(i as int) =~= s);
    acc
}

/// Total time in the trailing window: the sum of the durations of the
/// intervals that begin at `(now_secs - window_secs) * 1000` or later.
pub fn latest(intervals: &Vec<Interval>, now_secs: i64, window_secs: i64) -> (r: i128)
    ensures
        r == total_since(intervals_view(intervals@), window_start(now_secs as int, window_secs as int)),
{
    let ghost s = intervals_view(intervals@);
    let from: i128 = (now_secs as i128 - window_secs as i128) * 1000;
    let mut acc: i128 = 0;
    let mut i: usize = 0;
    while i < intervals.len()
        invariant
            0 <= i <= intervals.len(),
            s == intervals_view(intervals@),
            from == window_start(now_secs as int, window_secs as int),
            acc == total_since(s.take(i as int), from as int),
            -sum_bound(i as int) <= acc <= sum_bound(i as int),
        decreases intervals.len() - i,
    {
        assert(s.take(i + 1).drop_last() =~= s.take(i as int));
        let iv = &intervals[i];
        let d: i64 = if iv.begin as i128 >= from { iv.duration } else { 0 };
        proof {
            lemma_sum_step_fits(acc as int, i as int, d as int);
        }
        acc = acc + d as i128;
        i = i + 1;
    }
    assert(s.take(i as int) =~= s);
    acc
}

/// The UTC day of a time in milliseconds (rounded down, also before 1970).
pub fn day_index(ms: i64) -> (r: i64)
    ensures
        r as int == day_of(ms as int),
{
    let ghost d = DAY_MS as int;
    if ms >= 0 {
        let q: u64 = (ms as u64) / DAY_MS;
        proof {
            lemma_fundamental_div_mod(ms as int, d);
        }
        q as i64
    } else {
        let m: u64 = (-(ms + 1)) as u64;
        let q: u64 = m / DAY_MS;
        proof {
            lemma_fundamental_div_mod(m as int, d);
            let rr = m as int % d;
            assert(ms as int == (-(q as int) - 1) * d + (d - 1 - rr)) by (nonlinear_arith)
                requires
                    m as int == d * (q as int) + rr,
                    ms as int == -(m as int) - 1,
            ;
            vstd::arithmetic::div_mod::lemma_fundamental_div_mod_converse(
                ms as int,
                d,
                -(q as int) - 1,
                d - 1 - rr,
            );
        }
        -(q as i64) - 1
    }
}

/// Sum of the durations of the intervals that begin on day `day`.
pub open spec fn day_total(s: Seq<IntervalView>, day: int) -> int
    decreases s.len(),
{
    if s.len() == 0 {
        0
    } else {
        day_total(s.drop_last(), day) + if day_of(s.last().begin) == day {
            s.last().duration
        } else {
            0
        }
    }
}

/// The time spent on one day.
#[derive(Debug, Clone, Copy, PartialEq, Eq, Structural)]
pub struct DayTotal {
    /// The UTC day, counted from 1970-01-01.
    pub day: i64,
    pub total_ms: i128,
}

/// Sum of the per-day totals.
pub open spec fn totals_sum(ts: Seq<DayTotal>) -> int
    decreases ts.len(),
{
    if ts.len() == 0 {
        0
    } else {
        totals_sum(ts.drop_last()) + ts.last().total_ms
    }
}

proof fn lemma_totals_sum_update(ts: Seq<DayTotal>, k: int, x: DayTotal)
    requires
        0 <= k < ts.len(),
    ensures
        totals_sum(ts.update(k, x)) == totals_sum(ts) - ts[k].total_ms + x.total_ms,
    decreases ts.len(),
{
    if k < ts.len() - 1 {
        assert(ts.update(k, x).drop_last() =~= ts.drop_last().update(k, x));
        lemma_totals_sum_update(ts.drop_last(), k, x);
    } else {
        assert(ts.update(k, x).drop_last() =~= ts.drop_last());
    }
}

proof fn lemma_bound_grows(i: int)
    requires
        i >= 0,
    ensures
        0 <= sum_bound(i) <= sum_bound(i + 1),
{
    assert(0 <= sum_bound(i) <= sum_bound(i + 1)) by (nonlinear_arith)
        requires
            i >= 0,
    ;
}

/// The days of the entries of `ts`, in order, as integers.
pub open spec fn days_of(ts: Seq<DayTotal>) -> Seq<int> {
    ts.map_values(|t: DayTotal| t.day as int)
}

/// The time spent per day: one entry for each UTC day on which an interval
/// begins, each day once, with the sum of the durations of the intervals that
/// begin on it. The per-day totals add up to the total time.
pub fn daily_totals(intervals: &Vec<Interval>) -> (r: Vec<DayTotal>)
    ensures
        days_of(r@).no_duplicates(),
        days_of(r@).to_set() == day_set(intervals_view(intervals@)),
        forall|k: int|
            0 <= k < r.len() ==> #[trigger] r@[k].total_ms == day_total(
                intervals_view(intervals@),
                r@[k].day as int,
            ),
        totals_sum(r@) == total_duration(intervals_view(intervals@)),
{
    let ghost s = intervals_view(intervals@);
    let mut buckets: Vec<DayTotal> = Vec::new();
    assert(days_of(buckets@).to_set() =~= day_set(s.take(0)));
    let mut i: usize = 0;
    while i < intervals.len()
        invariant
            0 <= i <= intervals.len(),
            s == intervals_view(intervals@),
            days_of(buckets@).no_duplicates(),
            days_of(buckets@).to_set() == day_set(s.take(i as int)),
            forall|k: int|
                0 <= k < buckets.len() ==> #[trigger] buckets@[k].total_ms == day_total(
                    s.take(i as int),
                    buckets@[k].day as int,
                ),
            forall|k: int|
                0 <= k < buckets.len() ==> -sum_bound(i as int) <= #[trigger] buckets@[k].total_ms
                    <= sum_bound(i as int),
            totals_sum(buckets@) == total_duration(s.take(i as int)),
        decreases intervals.len() - i,
    {
        let ghost prev = s.take(i as int);
        let ghost next = s.take(i + 1);
        let ghost old_buckets = buckets@;
        assert(next.drop_last() =~= prev);
        assert(s[i as int] == intervals@[i as int]@);
        let day = day_index(intervals[i].begin);
        let dur = intervals[i].duration;
        proof {
            lemma_bound_grows(i as int);
            assert forall|d: int| #[trigger] day_set(next).contains(d) <==> day_set(prev).insert(
                day as int,
            ).contains(d) by {
                if day_set(next).contains(d) {
                    let w = choose|w: int| 0 <= w < next.len() && day_of(next[w].begin) == d;
                    if w < i {
                        assert(prev[w] == next[w]);
                    }
                }
                if day_set(prev).contains(d) {
                    let w = choose|w: int| 0 <= w < i && day_of(prev[w].begin) == d;
                    assert(next[w] == prev[w]);
                }
                if d == day as int {
                    assert(next[i as int] == s[i as int]);
                }
            }
            assert(day_set(next) =~= day_set(prev).insert(day as int));
        }
        let mut j: usize = 0;
        while j < buckets.len() && buckets[j].day != day
            invariant
                0 <= j <= buckets.len(),
                forall|k: int| 0 <= k < j ==> #[trigger] buckets@[k].day != day,
            decreases buckets.len() - j,
        {
            j = j + 1;
        }
        if j < buckets.len() {
            let b = buckets[j];
            proof {
                lemma_sum_step_fits(b.total_ms as int, i as int, dur as int);
            }
            let nb = DayTotal { day, total_ms: b.total_ms + dur as i128 };
            buckets.set(j, nb);
            proof {
                lemma_totals_sum_update(old_buckets, j as int, nb);
                assert(days_of(buckets@) =~= days_of(old_buckets));
                assert forall|k: int| 0 <= k < buckets.len() implies #[trigger] buckets@[k].total_ms
                    == day_total(next, buckets@[k].day as int) by {
                    assert(next.last() == s[i as int]);
                    if k != j {
                        assert(buckets@[k] == old_buckets[k]);
                        assert(days_of(old_buckets)[k] != days_of(old_buckets)[j as int]);
                    }
                }
                assert(days_of(old_buckets)[j as int] == day as int);
                assert(days_of(old_buckets).to_set().insert(day as int) =~= days_of(
                    old_buckets,
                ).to_set());
            }
        } else {
            let nb = DayTotal { day, total_ms: dur as i128 };
            proof {
                assert(!days_of(old_buckets).contains(day as int)) by {
                    if days_of(old_buckets).contains(day as int) {
                        let k = choose|k: int|
                            0 <= k < old_buckets.len() && days_of(old_buckets)[k] == day as int;
                        assert(old_buckets[k].day != day);
                    }
                }
                assert(day_total(prev, day as int) == 0) by {
                    lemma_day_total_absent(prev, day as int);
                }
                lemma_sum_step_fits(0, i as int, dur as int);
            }
            buckets.push(nb);
            proof {
                assert(days_of(buckets@) =~= days_of(old_buckets).push(day as int));
                days_of(old_buckets).lemma_push_to_set_commute(day as int);
                assert(buckets@.drop_last() =~= old_buckets);
                assert forall|k: int| 0 <= k < buckets.len() implies #[trigger] buckets@[k].total_ms
                    == day_total(next, buckets@[k].day as int) by {
                    assert(next.last() == s[i as int]);
                    if k < old_buckets.len() {
                        assert(buckets@[k] == old_buckets[k]);
                        assert(old_buckets[k].day != day);
                    }
                }
            }
        }
        i = i + 1;
    }
    assert(s.take(i as int) =~= s);
    buckets
}

/// A day on which no interval begins has a total of 0.
proof fn lemma_day_total_absent(s: Seq<IntervalView>, day: int)
    requires
        !day_set(s).contains(day),
    ensures
        day_total(s, day) == 0,
    decreases s.len(),
{
    if s.len() > 0 {
        let p = s.drop_last();
        assert(!day_set(p).contains(day)) by {
            if day_set(p).contains(day) {
                let w = choose|w: int| 0 <= w < p.len() && day_of(p[w].begin) == day;
                assert(s[w] == p[w]);
            }
        }
        assert(day_of(s[s.len() - 1].begin) != day);
        lemma_day_total_absent(p, day);
    }
}

/// The average over days of the time spent per day: each interval counts on
/// the UTC day on which it begins, and days without an interval do not count.
/// `total_ms` is the sum of the per-day totals, `days` the number of days.
pub fn daily_average(intervals: &Vec<Interval>) -> (r: DailyAverage)
    ensures
        r.total_ms == total_duration(intervals_view(intervals@)),
        r.days == day_set(intervals_view(intervals@)).len(),
{
    let totals = daily_totals(intervals);
    proof {
        days_of(totals@).unique_seq_to_set();
    }
    DailyAverage { total_ms: sum_time(intervals), days: totals.len() }
}

/// An interval that begins before the current second never counts in a
/// window of zero seconds: adding it leaves the windowed total unchanged.
pub proof fn lemma_zero_window_excludes_past(s: Seq<IntervalView>, x: IntervalView, now_secs: int)
    requires
        x.begin < now_secs * 1000,
    ensures
        total_since(s.push(x), window_start(now_secs, 0)) == total_since(s, window_start(now_secs, 0)),
{
    assert(s.push(x).drop_last() =~= s);
}

/// With no intervals, every total is 0 and no day counts.
pub proof fn lemma_empty_totals(from: int)
    ensures
        total_duration(Seq::<IntervalView>::empty()) == 0,
        total_since(Seq::<IntervalView>::empty(), from) == 0,
        day_set(Seq::<IntervalView>::empty()).len() == 0,
{
    assert(day_set(Seq::<IntervalView>::empty()) =~= Set::empty());
}

} // verus!
