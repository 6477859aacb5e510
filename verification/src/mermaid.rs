//! The aggregator: usage histograms derived from one user's timeline.
//!
//! Each session record's duration is distributed over three fixed-size
//! histograms — seconds per weekday, per trailing week, and per hour of day
//! (all UTC) — splitting records at midnight and hour boundaries. Calendar
//! arithmetic is plain arithmetic on Unix-epoch milliseconds: a day is a
//! fixed 86 400 000 ms stretch and the epoch fell on a Thursday.

use vstd::prelude::*;

use crate::storage::Record;
use crate::storage::Storage;

verus! {

pub const MS_PER_SEC: u64 = 1000;

pub const HOUR_MS: u64 = 3600000;

pub const DAY_MS: u64 = 86400000;

pub const WEEK_MS: u64 = 604800000;

/// Upper bound on the timestamps the aggregator accepts, far beyond any
/// realistic clock; it keeps the day and hour boundary computations inside
/// `u64`.
pub const MAX_TS_MS: u64 = 0x100000000000000;

/// The day index (days since the epoch) the instant `t` falls in.
pub open spec fn day_of(t: int) -> int {
    t / (DAY_MS as int)
}

/// The first instant of the day after the one `t` falls in.
pub open spec fn next_day_start(t: int) -> int {
    (day_of(t) + 1) * (DAY_MS as int)
}

/// The weekday of the instant `t`, with Monday 0 through Sunday 6: the
/// epoch day was a Thursday, weekday 3.
pub open spec fn weekday_of(t: int) -> int {
    (day_of(t) + 3) % 7
}

/// How many whole weeks lie between `t` and `now`; an instant after `now`
/// counts as the current week.
pub open spec fn weeks_ago(now: int, t: int) -> int {
    if t <= now {
        (now - t) / (WEEK_MS as int)
    } else {
        0
    }
}

/// The trailing-week bucket the instant `t` falls in, seen from `now`:
/// bucket 0 is the current week, and everything seven or more weeks back
/// collapses into bucket 6.
pub open spec fn week_bucket(now: int, t: int) -> int {
    if weeks_ago(now, t) < 6 {
        weeks_ago(now, t)
    } else {
        6
    }
}

/// The length of the overlap of `[s, e)` and `[lo, hi)`, in milliseconds.
pub open spec fn overlap_ms(s: int, e: int, lo: int, hi: int) -> int {
    let a = if s >= lo {
        s
    } else {
        lo
    };
    let b = if e <= hi {
        e
    } else {
        hi
    };
    if a < b {
        b - a
    } else {
        0
    }
}

/// Seconds a piece `[s, e)` lying within one day contributes to the
/// hour-of-day bucket `b`: its overlap with hour `b` of its own day.
pub open spec fn piece_tod(s: int, e: int, b: int) -> int {
    overlap_ms(
        s,
        e,
        (day_of(s) * 24 + b) * (HOUR_MS as int),
        (day_of(s) * 24 + b + 1) * (HOUR_MS as int),
    ) / (MS_PER_SEC as int)
}

/// Seconds the interval `[s, e)`, split at midnight boundaries, contributes
/// to the hour-of-day bucket `b`.
pub open spec fn interval_tod(s: int, e: int, b: int) -> int
    decreases e - s,
{
    if s >= e {
        0
    } else if e <= next_day_start(s) {
        piece_tod(s, e, b)
    } else {
        piece_tod(s, next_day_start(s), b) + interval_tod(next_day_start(s), e, b)
    }
}

/// Seconds the interval `[s, e)`, split at midnight boundaries, contributes
/// to the weekday bucket `b`: each piece counts in full towards the weekday
/// it starts on.
pub open spec fn interval_daily(s: int, e: int, b: int) -> int
    decreases e - s,
{
    if s >= e {
        0
    } else if e <= next_day_start(s) {
        if weekday_of(s) == b {
            (e - s) / (MS_PER_SEC as int)
        } else {
            0
        }
    } else {
        (if weekday_of(s) == b {
            (next_day_start(s) - s) / (MS_PER_SEC as int)
        } else {
            0
        }) + interval_daily(next_day_start(s), e, b)
    }
}

/// Seconds the interval `[s, e)`, split at midnight boundaries, contributes
/// to the trailing-week bucket `b`, seen from `now`: each piece counts in
/// full towards the bucket it starts in.
pub open spec fn interval_weekly(now: int, s: int, e: int, b: int) -> int
    decreases e - s,
{
    if s >= e {
        0
    } else if e <= next_day_start(s) {
        if week_bucket(now, s) == b {
            (e - s) / (MS_PER_SEC as int)
        } else {
            0
        }
    } else {
        (if week_bucket(now, s) == b {
            (next_day_start(s) - s) / (MS_PER_SEC as int)
        } else {
            0
        }) + interval_weekly(now, next_day_start(s), e, b)
    }
}

/// The end a record is aggregated with: its own end, or `now` while it is
/// still open.
pub open spec fn eff_end(r: Record, now: u64) -> int {
    match r.end {
        Some(e) => e as int,
        None => now as int,
    }
}

/// The aggregated span of a record, in milliseconds: zero when it is
/// malformed (effective end before beginning).
pub open spec fn record_span_ms(r: Record, now: u64) -> int {
    if eff_end(r, now) >= r.beginning {
        eff_end(r, now) - r.beginning
    } else {
        0
    }
}

/// The total aggregated span of a timeline, in milliseconds.
pub open spec fn total_ms(records: Seq<Record>, now: u64) -> int
    decreases records.len(),
{
    if records.len() == 0 {
        0
    } else {
        total_ms(records.drop_last(), now) + record_span_ms(records.last(), now)
    }
}

/// Seconds a whole timeline contributes to the hour-of-day bucket `b`.
pub open spec fn agg_tod(records: Seq<Record>, now: u64, b: int) -> int
    decreases records.len(),
{
    if records.len() == 0 {
        0
    } else {
        agg_tod(records.drop_last(), now, b) + interval_tod(
            records.last().beginning as int,
            eff_end(records.last(), now),
            b,
        )
    }
}

/// Seconds a whole timeline contributes to the weekday bucket `b`.
pub open spec fn agg_daily(records: Seq<Record>, now: u64, b: int) -> int
    decreases records.len(),
{
    if records.len() == 0 {
        0
    } else {
        agg_daily(records.drop_last(), now, b) + interval_daily(
            records.last().beginning as int,
            eff_end(records.last(), now),
            b,
        )
    }
}

/// Seconds a whole timeline contributes to the trailing-week bucket `b`.
pub open spec fn agg_weekly(records: Seq<Record>, now: u64, b: int) -> int
    decreases records.len(),
{
    if records.len() == 0 {
        0
    } else {
        agg_weekly(records.drop_last(), now, b) + interval_weekly(
            now as int,
            records.last().beginning as int,
            eff_end(records.last(), now),
            b,
        )
    }
}

/// Every timestamp of every record lies below [`MAX_TS_MS`].
pub open spec fn timeline_bounded(records: Seq<Record>) -> bool {
    forall|i: int|
        0 <= i < records.len() ==> {
            &&& (#[trigger] records[i]).beginning <= MAX_TS_MS
            &&& (records[i].end matches Some(e) ==> e <= MAX_TS_MS)
        }
}

/// Seconds online per weekday, Monday first.
pub struct Daily(pub [u64; 7]);

/// Seconds online per trailing week; bucket 0 is the current week and
/// everything seven or more weeks back collapses into bucket 6.
pub struct Weekly(pub [u64; 10]);

/// Seconds online per hour of day, UTC.
pub struct TimeOfDay(pub [u64; 24]);

/// The three histograms derived from one user's timeline.
pub struct Mermaid {
    pub weekly: Weekly,
    pub daily: Daily,
    pub timeofday: TimeOfDay,
}

/// The first instant of the day after the one `t` falls in.
fn next_day_boundary(t: u64) -> (nd: u64)
    requires
        t <= MAX_TS_MS,
    ensures
        nd == next_day_start(t as int),
        t < nd <= t + DAY_MS,
{
    let d = t / DAY_MS;
    proof {
        vstd::arithmetic::div_mod::lemma_fundamental_div_mod(t as int, DAY_MS as int);
        vstd::arithmetic::div_mod::lemma_mod_division_less_than_divisor(t as int, DAY_MS as int);
    }
    (d + 1) * DAY_MS
}

/// The weekday index of the instant `t`, Monday 0 through Sunday 6.
fn weekday_idx(t: u64) -> (w: usize)
    requires
        t <= MAX_TS_MS,
    ensures
        w == weekday_of(t as int),
        w < 7,
{
    ((t / DAY_MS + 3) % 7) as usize
}

/// The trailing-week bucket of the instant `t`, seen from `now`.
fn week_idx(now: u64, t: u64) -> (w: usize)
    ensures
        w == week_bucket(now as int, t as int),
        w < 7,
{
    if t <= now {
        let wk = (now - t) / WEEK_MS;
        if wk < 6 {
            wk as usize
        } else {
            6
        }
    } else {
        0
    }
}

/// Dividing two non-negative parts can only lose against dividing their
/// sum: `a/d + b/d <= (a+b)/d`.
proof fn lemma_div_superadd(a: int, b: int, d: int)
    requires
        a >= 0,
        b >= 0,
        d > 0,
    ensures
        a / d + b / d <= (a + b) / d,
{
    vstd::arithmetic::div_mod::lemma_fundamental_div_mod(a, d);
    vstd::arithmetic::div_mod::lemma_fundamental_div_mod(b, d);
    vstd::arithmetic::div_mod::lemma_mod_division_less_than_divisor(a, d);
    vstd::arithmetic::div_mod::lemma_mod_division_less_than_divisor(b, d);
    let q = a / d + b / d;
    let r = a % d + b % d;
    assert(a + b == q * d + r) by (nonlinear_arith)
        requires
            a == d * (a / d) + a % d,
            b == d * (b / d) + b % d,
            q == a / d + b / d,
            r == a % d + b % d,
    ;
    vstd::arithmetic::div_mod::lemma_hoist_over_denominator(r, q, d as nat);
    vstd::arithmetic::div_mod::lemma_div_pos_is_pos(r, d);
}

/// When the first part is a whole multiple of `d`, the division of the sum
/// is exact: `(a+b)/d == a/d + b/d`.
proof fn lemma_div_exact_add(a: int, b: int, d: int)
    requires
        a >= 0,
        b >= 0,
        d > 0,
        a % d == 0,
    ensures
        (a + b) / d == a / d + b / d,
{
    vstd::arithmetic::div_mod::lemma_fundamental_div_mod(a, d);
    vstd::arithmetic::mul::lemma_mul_is_commutative(a / d, d);
    assert((a / d) * d == a);
    vstd::arithmetic::div_mod::lemma_hoist_over_denominator(b, a / d, d as nat);
    assert(b / d + a / d == (b + (a / d) * d) / d);
}

/// A piece's contribution to one hour bucket is non-negative and no more
/// than the piece's whole duration in seconds.
proof fn lemma_piece_tod_bounds(s: int, e: int, b: int)
    requires
        s <= e,
    ensures
        0 <= piece_tod(s, e, b),
        piece_tod(s, e, b) <= (e - s) / (MS_PER_SEC as int),
{
    let lo = (day_of(s) * 24 + b) * (HOUR_MS as int);
    let hi = (day_of(s) * 24 + b + 1) * (HOUR_MS as int);
    let ov = overlap_ms(s, e, lo, hi);
    assert(0 <= ov <= e - s);
    vstd::arithmetic::div_mod::lemma_div_pos_is_pos(ov, MS_PER_SEC as int);
    vstd::arithmetic::div_mod::lemma_div_is_ordered(ov, e - s, MS_PER_SEC as int);
}

/// An interval's contribution to one hour bucket is non-negative and no
/// more than the interval's whole duration in seconds.
proof fn lemma_interval_tod_bounds(s: int, e: int, b: int)
    ensures
        0 <= interval_tod(s, e, b),
        s <= e ==> interval_tod(s, e, b) <= (e - s) / (MS_PER_SEC as int),
    decreases e - s,
{
    if s >= e {
    } else if e <= next_day_start(s) {
        lemma_piece_tod_bounds(s, e, b);
    } else {
        let m = next_day_start(s);
        lemma_piece_tod_bounds(s, m, b);
        lemma_interval_tod_bounds(m, e, b);
        lemma_div_superadd(m - s, e - m, MS_PER_SEC as int);
    }
}

/// An interval's contribution to one weekday bucket is non-negative and no
/// more than the interval's whole duration in seconds.
proof fn lemma_interval_daily_bounds(s: int, e: int, b: int)
    ensures
        0 <= interval_daily(s, e, b),
        s <= e ==> interval_daily(s, e, b) <= (e - s) / (MS_PER_SEC as int),
    decreases e - s,
{
    if s >= e {
    } else if e <= next_day_start(s) {
        vstd::arithmetic::div_mod::lemma_div_pos_is_pos(e - s, MS_PER_SEC as int);
    } else {
        let m = next_day_start(s);
        lemma_interval_daily_bounds(m, e, b);
        vstd::arithmetic::div_mod::lemma_div_pos_is_pos(m - s, MS_PER_SEC as int);
        lemma_div_superadd(m - s, e - m, MS_PER_SEC as int);
    }
}

/// An interval's contribution to one trailing-week bucket is non-negative
/// and no more than the interval's whole duration in seconds.
proof fn lemma_interval_weekly_bounds(now: int, s: int, e: int, b: int)
    ensures
        0 <= interval_weekly(now, s, e, b),
        s <= e ==> interval_weekly(now, s, e, b) <= (e - s) / (MS_PER_SEC as int),
    decreases e - s,
{
    if s >= e {
    } else if e <= next_day_start(s) {
        vstd::arithmetic::div_mod::lemma_div_pos_is_pos(e - s, MS_PER_SEC as int);
    } else {
        let m = next_day_start(s);
        lemma_interval_weekly_bounds(now, m, e, b);
        vstd::arithmetic::div_mod::lemma_div_pos_is_pos(m - s, MS_PER_SEC as int);
        lemma_div_superadd(m - s, e - m, MS_PER_SEC as int);
    }
}

/// Every histogram value of a timeline is non-negative and bounded by the
/// timeline's total span in seconds.
proof fn lemma_agg_bounds(records: Seq<Record>, now: u64, b: int)
    ensures
        total_ms(records, now) >= 0,
        0 <= agg_tod(records, now, b) <= total_ms(records, now) / (MS_PER_SEC as int),
        0 <= agg_daily(records, now, b) <= total_ms(records, now) / (MS_PER_SEC as int),
        0 <= agg_weekly(records, now, b) <= total_ms(records, now) / (MS_PER_SEC as int),
    decreases records.len(),
{
    if records.len() > 0 {
        let rest = records.drop_last();
        let r = records.last();
        let s = r.beginning as int;
        let e = eff_end(r, now);
        lemma_agg_bounds(rest, now, b);
        lemma_interval_tod_bounds(s, e, b);
        lemma_interval_daily_bounds(s, e, b);
        lemma_interval_weekly_bounds(now as int, s, e, b);
        lemma_div_superadd(total_ms(rest, now), record_span_ms(r, now), MS_PER_SEC as int);
        if s <= e {
            vstd::arithmetic::div_mod::lemma_div_is_ordered(
                e - s,
                record_span_ms(r, now),
                MS_PER_SEC as int,
            );
        }
    }
}

/// A prefix of a timeline never contributes more than the whole timeline.
proof fn lemma_agg_take_le(records: Seq<Record>, now: u64, b: int, j: int)
    requires
        0 <= j <= records.len(),
    ensures
        agg_tod(records.take(j), now, b) <= agg_tod(records, now, b),
        agg_daily(records.take(j), now, b) <= agg_daily(records, now, b),
        agg_weekly(records.take(j), now, b) <= agg_weekly(records, now, b),
    decreases records.len(),
{
    if j == records.len() {
        assert(records.take(j) =~= records);
    } else {
        let rest = records.drop_last();
        let r = records.last();
        let s = r.beginning as int;
        let e = eff_end(r, now);
        assert(records.take(j) =~= rest.take(j));
        lemma_agg_take_le(rest, now, b, j);
        lemma_interval_tod_bounds(s, e, b);
        lemma_interval_daily_bounds(s, e, b);
        lemma_interval_weekly_bounds(now as int, s, e, b);
    }
}

/// Whether an instant lies on a whole second.
pub open spec fn second_aligned(t: int) -> bool {
    t % (MS_PER_SEC as int) == 0
}

/// The sum of a span's hour-of-day contributions over the buckets `0..h`.
pub open spec fn tod_sum(s: int, e: int, h: int) -> int
    decreases h,
{
    if h <= 0 {
        0
    } else {
        tod_sum(s, e, h - 1) + interval_tod(s, e, h - 1)
    }
}

/// The sum of a span's weekday contributions over the buckets `0..h`.
pub open spec fn daily_sum(s: int, e: int, h: int) -> int
    decreases h,
{
    if h <= 0 {
        0
    } else {
        daily_sum(s, e, h - 1) + interval_daily(s, e, h - 1)
    }
}

/// The sum of a one-day piece's hour contributions over the buckets `0..h`.
spec fn piece_sum(s: int, e: int, h: int) -> int
    decreases h,
{
    if h <= 0 {
        0
    } else {
        piece_sum(s, e, h - 1) + piece_tod(s, e, h - 1)
    }
}

/// A multiple of a thousand milliseconds is second-aligned.
proof fn lemma_thousand_multiple_aligned(k: int)
    ensures
        second_aligned(k * 1000),
{
    vstd::arithmetic::div_mod::lemma_mod_multiples_basic(k, 1000);
}

/// The hour partial sums of a one-day piece equal its overlap with the
/// first `h` hours of its day, and that overlap stays second-aligned.
proof fn lemma_piece_sum_overlap(s: int, e: int, h: int)
    requires
        0 <= s <= e,
        e <= next_day_start(s),
        second_aligned(s),
        second_aligned(e),
        0 <= h <= 24,
    ensures
        piece_sum(s, e, h) == overlap_ms(
            s,
            e,
            day_of(s) * (DAY_MS as int),
            day_of(s) * (DAY_MS as int) + h * (HOUR_MS as int),
        ) / (MS_PER_SEC as int),
        second_aligned(
            overlap_ms(
                s,
                e,
                day_of(s) * (DAY_MS as int),
                day_of(s) * (DAY_MS as int) + h * (HOUR_MS as int),
            ),
        ),
    decreases h,
{
    let ds = day_of(s) * (DAY_MS as int);
    vstd::arithmetic::div_mod::lemma_fundamental_div_mod(s, DAY_MS as int);
    vstd::arithmetic::div_mod::lemma_mod_division_less_than_divisor(s, DAY_MS as int);
    if h == 0 {
        vstd::arithmetic::div_mod::lemma_div_of0(MS_PER_SEC as int);
        assert(second_aligned(0)) by {
            lemma_thousand_multiple_aligned(0);
        }
    } else {
        lemma_piece_sum_overlap(s, e, h - 1);
        let lo = ds + (h - 1) * (HOUR_MS as int);
        let hi = ds + h * (HOUR_MS as int);
        let ov1 = overlap_ms(s, e, ds, lo);
        let ov2 = overlap_ms(s, e, lo, hi);
        let ov = overlap_ms(s, e, ds, hi);
        assert((day_of(s) * 24 + (h - 1)) * (HOUR_MS as int) == lo);
        assert((day_of(s) * 24 + (h - 1) + 1) * (HOUR_MS as int) == hi);
        assert(piece_tod(s, e, h - 1) == ov2 / (MS_PER_SEC as int));
        assert(ov == ov1 + ov2);
        assert(second_aligned(lo)) by {
            lemma_thousand_multiple_aligned(day_of(s) * 86400 + (h - 1) * 3600);
        }
        assert(second_aligned(hi)) by {
            lemma_thousand_multiple_aligned(day_of(s) * 86400 + h * 3600);
        }
        assert(second_aligned(ov2)) by {
            let a = if s >= lo {
                s
            } else {
                lo
            };
            let b = if e <= hi {
                e
            } else {
                hi
            };
            vstd::arithmetic::div_mod::lemma_sub_mod_noop(b, a, MS_PER_SEC as int);
            lemma_thousand_multiple_aligned(0);
        }
        lemma_div_exact_add(ov1, ov2, MS_PER_SEC as int);
        assert(second_aligned(ov)) by {
            vstd::arithmetic::div_mod::lemma_add_mod_noop(ov1, ov2, MS_PER_SEC as int);
        }
    }
}

/// Within one day, the general split-by-day contribution is the plain
/// piece contribution, bucket sum included.
proof fn lemma_sums_agree(s: int, e: int, h: int)
    requires
        0 <= s <= e,
        e <= next_day_start(s),
        0 <= h <= 24,
    ensures
        tod_sum(s, e, h) == piece_sum(s, e, h),
    decreases h,
{
    if h > 0 {
        lemma_sums_agree(s, e, h - 1);
        if s == e {
            vstd::arithmetic::div_mod::lemma_div_of0(MS_PER_SEC as int);
            assert(piece_tod(s, e, h - 1) == 0);
        }
    }
}

/// Sums over the day-split contributions split at the first midnight.
proof fn lemma_tod_sum_split(s: int, e: int, h: int)
    requires
        0 <= s,
        next_day_start(s) <= e,
        0 <= h <= 24,
    ensures
        tod_sum(s, e, h) == piece_sum(s, next_day_start(s), h) + tod_sum(next_day_start(s), e, h),
    decreases h,
{
    vstd::arithmetic::div_mod::lemma_fundamental_div_mod(s, DAY_MS as int);
    vstd::arithmetic::div_mod::lemma_mod_division_less_than_divisor(s, DAY_MS as int);
    if h > 0 {
        lemma_tod_sum_split(s, e, h - 1);
    }
}

/// LAW: a record lying entirely within one UTC day distributes exactly its
/// whole duration, in seconds, over the hour-of-day buckets — nothing is
/// lost and nothing is double-counted across hour splits. Holds for
/// second-aligned timestamps.
pub proof fn lemma_tod_conservation_single_day(s: int, e: int)
    requires
        0 <= s <= e,
        e <= next_day_start(s),
        second_aligned(s),
        second_aligned(e),
    ensures
        tod_sum(s, e, 24) == (e - s) / (MS_PER_SEC as int),
{
    lemma_piece_sum_overlap(s, e, 24);
    lemma_sums_agree(s, e, 24);
    vstd::arithmetic::div_mod::lemma_fundamental_div_mod(s, DAY_MS as int);
    vstd::arithmetic::div_mod::lemma_mod_division_less_than_divisor(s, DAY_MS as int);
    let ds = day_of(s) * (DAY_MS as int);
    assert(ds + 24 * (HOUR_MS as int) == next_day_start(s));
    assert(overlap_ms(s, e, ds, ds + 24 * (HOUR_MS as int)) == e - s);
}

/// LAW: a record spanning any number of UTC days distributes exactly its
/// whole duration, in seconds, over the hour-of-day buckets. Holds for
/// second-aligned timestamps.
pub proof fn lemma_tod_conservation(s: int, e: int)
    requires
        0 <= s <= e,
        second_aligned(s),
        second_aligned(e),
    ensures
        tod_sum(s, e, 24) == (e - s) / (MS_PER_SEC as int),
    decreases e - s,
{
    vstd::arithmetic::div_mod::lemma_fundamental_div_mod(s, DAY_MS as int);
    vstd::arithmetic::div_mod::lemma_mod_division_less_than_divisor(s, DAY_MS as int);
    if e <= next_day_start(s) {
        lemma_tod_conservation_single_day(s, e);
    } else {
        let m = next_day_start(s);
        assert(second_aligned(m)) by {
            lemma_thousand_multiple_aligned((day_of(s) + 1) * 86400);
        }
        lemma_tod_sum_split(s, e, 24);
        lemma_tod_conservation_single_day(s, m);
        lemma_sums_agree(s, m, 24);
        lemma_tod_conservation(m, e);
        assert(second_aligned(m - s)) by {
            vstd::arithmetic::div_mod::lemma_sub_mod_noop(m, s, MS_PER_SEC as int);
            lemma_thousand_multiple_aligned(0);
        }
        lemma_div_exact_add(m - s, e - m, MS_PER_SEC as int);
    }
}

/// The weekday bucket sums of a one-day piece collapse to its duration
/// once the piece's weekday is below the sum bound.
proof fn lemma_daily_sum_single(s: int, e: int, h: int)
    requires
        0 <= s <= e,
        e <= next_day_start(s),
        0 <= h <= 7,
    ensures
        daily_sum(s, e, h) == (if weekday_of(s) < h {
            (e - s) / (MS_PER_SEC as int)
        } else {
            0
        }),
    decreases h,
{
    vstd::arithmetic::div_mod::lemma_mod_division_less_than_divisor(day_of(s) + 3, 7);
    if h > 0 {
        lemma_daily_sum_single(s, e, h - 1);
        if s == e {
            vstd::arithmetic::div_mod::lemma_div_of0(MS_PER_SEC as int);
        }
    }
}

/// Weekday bucket sums split at the first midnight.
proof fn lemma_daily_sum_split(s: int, e: int, h: int)
    requires
        0 <= s,
        next_day_start(s) <= e,
        0 <= h <= 7,
    ensures
        daily_sum(s, e, h) == daily_sum(s, next_day_start(s), h) + daily_sum(
            next_day_start(s),
            e,
            h,
        ),
    decreases h,
{
    vstd::arithmetic::div_mod::lemma_fundamental_div_mod(s, DAY_MS as int);
    vstd::arithmetic::div_mod::lemma_mod_division_less_than_divisor(s, DAY_MS as int);
    if h > 0 {
        lemma_daily_sum_split(s, e, h - 1);
    }
}

/// LAW: a record spanning any number of UTC days distributes exactly its
/// whole duration, in seconds, over the weekday buckets. Holds for
/// second-aligned timestamps.
pub proof fn lemma_daily_conservation(s: int, e: int)
    requires
        0 <= s <= e,
        second_aligned(s),
        second_aligned(e),
    ensures
        daily_sum(s, e, 7) == (e - s) / (MS_PER_SEC as int),
    decreases e - s,
{
    vstd::arithmetic::div_mod::lemma_fundamental_div_mod(s, DAY_MS as int);
    vstd::arithmetic::div_mod::lemma_mod_division_less_than_divisor(s, DAY_MS as int);
    vstd::arithmetic::div_mod::lemma_mod_division_less_than_divisor(day_of(s) + 3, 7);
    if e <= next_day_start(s) {
        lemma_daily_sum_single(s, e, 7);
    } else {
        let m = next_day_start(s);
        assert(second_aligned(m)) by {
            lemma_thousand_multiple_aligned((day_of(s) + 1) * 86400);
        }
        lemma_daily_sum_split(s, e, 7);
        lemma_daily_sum_single(s, m, 7);
        lemma_daily_conservation(m, e);
        assert(second_aligned(m - s)) by {
            vstd::arithmetic::div_mod::lemma_sub_mod_noop(m, s, MS_PER_SEC as int);
            lemma_thousand_multiple_aligned(0);
        }
        lemma_div_exact_add(m - s, e - m, MS_PER_SEC as int);
    }
}

impl Mermaid {
    /// Derives the three histograms from one timeline, treating an open
    /// record as ending `now_ms`. Every record's span is split at midnight
    /// boundaries, and each piece's duration lands in the weekday and
    /// trailing-week bucket of the piece's start and is split over the hour
    /// buckets it covers; a malformed record (end before beginning)
    /// contributes nothing.
    pub fn build(records: &Vec<Record>, now_ms: u64) -> (m: Mermaid)
        requires
            now_ms <= MAX_TS_MS,
            timeline_bounded(records@),
            total_ms(records@, now_ms) <= u64::MAX,
        ensures
            forall|b: int| 0 <= b < 7 ==> m.daily.0@[b] == agg_daily(records@, now_ms, b),
            forall|b: int| 0 <= b < 10 ==> m.weekly.0@[b] == agg_weekly(records@, now_ms, b),
            forall|b: int| 0 <= b < 24 ==> m.timeofday.0@[b] == agg_tod(records@, now_ms, b),
    {
        let mut daily: [u64; 7] = [0, 0, 0, 0, 0, 0, 0];
        let mut weekly: [u64; 10] = [0, 0, 0, 0, 0, 0, 0, 0, 0, 0];
        let mut timeofday: [u64; 24] = [
            0,
            0,
            0,
            0,
            0,
            0,
            0,
            0,
            0,
            0,
            0,
            0,
            0,
            0,
            0,
            0,
            0,
            0,
            0,
            0,
            0,
            0,
            0,
            0,
        ];
        let n = records.len();
        let mut i: usize = 0;
        while i < n
            invariant
                i <= n,
                n == records@.len(),
                now_ms <= MAX_TS_MS,
                timeline_bounded(records@),
                total_ms(records@, now_ms) <= u64::MAX,
                forall|b: int|
                    0 <= b < 7 ==> daily@[b] == agg_daily(records@.take(i as int), now_ms, b),
                forall|b: int|
                    0 <= b < 10 ==> weekly@[b] == agg_weekly(records@.take(i as int), now_ms, b),
                forall|b: int|
                    0 <= b < 24 ==> timeofday@[b] == agg_tod(records@.take(i as int), now_ms, b),
            decreases n - i,
        {
            let r = records[i];
            let e = match r.end {
                Some(end) => end,
                None => now_ms,
            };
            let ghost s_i = r.beginning as int;
            let ghost e_i = e as int;
            proof {
                assert(records@.take(i + 1).drop_last() =~= records@.take(i as int));
                assert(records@.take(i + 1).last() == records@[i as int]);
                assert(e_i == eff_end(records@[i as int], now_ms));
            }
            if r.beginning <= e {
                let mut cur = r.beginning;
                while cur < e
                    invariant
                        i < n,
                        n == records@.len(),
                        now_ms <= MAX_TS_MS,
                        timeline_bounded(records@),
                        total_ms(records@, now_ms) <= u64::MAX,
                        r == records@[i as int],
                        s_i == r.beginning as int,
                        e_i == e as int,
                        e_i == eff_end(records@[i as int], now_ms),
                        r.beginning <= cur <= e,
                        e <= MAX_TS_MS,
                        forall|b: int|
                            0 <= b < 7 ==> daily@[b] == agg_daily(records@.take(i as int), now_ms, b)
                                + interval_daily(s_i, e_i, b) - interval_daily(cur as int, e_i, b),
                        forall|b: int|
                            0 <= b < 10 ==> weekly@[b] == agg_weekly(
                                records@.take(i as int),
                                now_ms,
                                b,
                            ) + interval_weekly(now_ms as int, s_i, e_i, b) - interval_weekly(
                                now_ms as int,
                                cur as int,
                                e_i,
                                b,
                            ),
                        forall|b: int|
                            0 <= b < 24 ==> timeofday@[b] == agg_tod(
                                records@.take(i as int),
                                now_ms,
                                b,
                            ) + interval_tod(s_i, e_i, b) - interval_tod(cur as int, e_i, b),
                    decreases e - cur,
                {
                    let nd = next_day_boundary(cur);
                    let pe = if nd < e {
                        nd
                    } else {
                        e
                    };
                    proof {
                        assert(records@.take(i + 1).drop_last() =~= records@.take(i as int));
                        assert(records@.take(i + 1).last() == records@[i as int]);
                    }
                    let dur_s = (pe - cur) / MS_PER_SEC;
                    let wd = weekday_idx(cur);
                    proof {
                        let b = wd as int;
                        lemma_agg_bounds(records@, now_ms, b);
                        lemma_agg_take_le(records@, now_ms, b, i + 1);
                        lemma_interval_daily_bounds(pe as int, e_i, b);
                        assert(agg_daily(records@.take(i + 1), now_ms, b) == agg_daily(
                            records@.take(i as int),
                            now_ms,
                            b,
                        ) + interval_daily(s_i, e_i, b));
                        assert(interval_daily(cur as int, e_i, b) == dur_s + interval_daily(
                            pe as int,
                            e_i,
                            b,
                        ));
                        vstd::arithmetic::div_mod::lemma_div_is_ordered(
                            total_ms(records@, now_ms),
                            u64::MAX as int,
                            MS_PER_SEC as int,
                        );
                    }
                    daily[wd] = daily[wd] + dur_s;
                    let wk = week_idx(now_ms, cur);
                    proof {
                        let b = wk as int;
                        lemma_agg_bounds(records@, now_ms, b);
                        lemma_agg_take_le(records@, now_ms, b, i + 1);
                        lemma_interval_weekly_bounds(now_ms as int, pe as int, e_i, b);
                        assert(agg_weekly(records@.take(i + 1), now_ms, b) == agg_weekly(
                            records@.take(i as int),
                            now_ms,
                            b,
                        ) + interval_weekly(now_ms as int, s_i, e_i, b));
                        assert(interval_weekly(now_ms as int, cur as int, e_i, b) == dur_s
                            + interval_weekly(now_ms as int, pe as int, e_i, b));
                        vstd::arithmetic::div_mod::lemma_div_is_ordered(
                            total_ms(records@, now_ms),
                            u64::MAX as int,
                            MS_PER_SEC as int,
                        );
                    }
                    weekly[wk] = weekly[wk] + dur_s;
                    let ghost tod_base = timeofday@;
                    let ghost day = day_of(cur as int);
                    let mut h = cur / HOUR_MS;
                    proof {
                        vstd::arithmetic::div_mod::lemma_fundamental_div_mod(
                            cur as int,
                            HOUR_MS as int,
                        );
                        vstd::arithmetic::div_mod::lemma_fundamental_div_mod(
                            cur as int,
                            DAY_MS as int,
                        );
                        vstd::arithmetic::div_mod::lemma_mod_division_less_than_divisor(
                            cur as int,
                            HOUR_MS as int,
                        );
                        vstd::arithmetic::div_mod::lemma_mod_division_less_than_divisor(
                            cur as int,
                            DAY_MS as int,
                        );
                        assert forall|b: int| 0 <= b < 24 && day * 24 + b < h as int implies
                            piece_tod(cur as int, pe as int, b) == 0 by {
                            assert((day * 24 + b + 1) * (HOUR_MS as int) <= (h as int) * (
                            HOUR_MS as int));
                        }
                    }
                    while h * HOUR_MS < pe
                        invariant
                            cur < pe <= e_i,
                            pe as int <= next_day_start(cur as int),
                            (pe as int) == (if e_i <= next_day_start(cur as int) {
                                e_i
                            } else {
                                next_day_start(cur as int)
                            }),
                            cur <= MAX_TS_MS,
                            e_i <= MAX_TS_MS,
                            day == day_of(cur as int),
                            day * 24 <= h as int <= day * 24 + 24,
                            (h as int) * (HOUR_MS as int) <= (MAX_TS_MS as int) + (DAY_MS as int),
                            (cur as int) < ((h as int) + 1) * (HOUR_MS as int),
                            i < n,
                            n == records@.len(),
                            now_ms <= MAX_TS_MS,
                            timeline_bounded(records@),
                            total_ms(records@, now_ms) <= u64::MAX,
                            s_i == records@[i as int].beginning as int,
                            e_i == eff_end(records@[i as int], now_ms),
                            s_i <= cur,
                            forall|b: int|
                                0 <= b < 24 ==> tod_base[b] == agg_tod(
                                    records@.take(i as int),
                                    now_ms,
                                    b,
                                ) + interval_tod(s_i, e_i, b) - interval_tod(cur as int, e_i, b),
                            forall|b: int|
                                0 <= b < 24 ==> timeofday@[b] == tod_base[b] + (if day * 24 + b
                                    < h as int {
                                    piece_tod(cur as int, pe as int, b)
                                } else {
                                    0
                                }),
                        decreases day * 24 + 24 - h,
                    {
                        let lo = h * HOUR_MS;
                        let hi = (h + 1) * HOUR_MS;
                        let from = if cur > lo {
                            cur
                        } else {
                            lo
                        };
                        let to = if pe < hi {
                            pe
                        } else {
                            hi
                        };
                        let hb = (h % 24) as usize;
                        proof {
                            let b = hb as int;
                            assert((h as int) < day * 24 + 24) by {
                                assert((h as int) * (HOUR_MS as int) < pe as int);
                                assert(pe as int <= (day + 1) * (DAY_MS as int));
                            }
                            vstd::arithmetic::div_mod::lemma_fundamental_div_mod_converse_mod(
                                h as int,
                                24,
                                day,
                                h as int - day * 24,
                            );
                            assert(b == h as int - day * 24);
                            assert(piece_tod(cur as int, pe as int, b) == ((to - from) as int)
                                / (MS_PER_SEC as int));
                            // the slot is still unprocessed, so its bucket holds its base value
                            assert(timeofday@[b] == tod_base[b]);
                            assert(records@.take(i + 1).drop_last() =~= records@.take(i as int));
                            assert(records@.take(i + 1).last() == records@[i as int]);
                            lemma_agg_bounds(records@, now_ms, b);
                            lemma_agg_take_le(records@, now_ms, b, i + 1);
                            lemma_interval_tod_bounds(pe as int, e_i, b);
                            lemma_piece_tod_bounds(cur as int, pe as int, b);
                            assert(agg_tod(records@.take(i + 1), now_ms, b) == agg_tod(
                                records@.take(i as int),
                                now_ms,
                                b,
                            ) + interval_tod(s_i, e_i, b));
                            assert(interval_tod(cur as int, e_i, b) == piece_tod(
                                cur as int,
                                pe as int,
                                b,
                            ) + interval_tod(pe as int, e_i, b));
                            vstd::arithmetic::div_mod::lemma_div_is_ordered(
                                total_ms(records@, now_ms),
                                u64::MAX as int,
                                MS_PER_SEC as int,
                            );
                        }
                        timeofday[hb] = timeofday[hb] + (to - from) / MS_PER_SEC;
                        h = h + 1;
                    }
                    proof {
                        assert forall|b: int| 0 <= b < 24 && day * 24 + b >= h as int implies
                            piece_tod(cur as int, pe as int, b) == 0 by {
                            assert((day * 24 + b) * (HOUR_MS as int) >= (h as int) * (
                            HOUR_MS as int));
                        }
                        assert forall|b: int| 0 <= b < 24 implies interval_tod(cur as int, e_i, b)
                            == piece_tod(cur as int, pe as int, b) + interval_tod(
                            pe as int,
                            e_i,
                            b,
                        ) by {}
                    }
                    cur = pe;
                }
                proof {
                    assert forall|b: int| 0 <= b < 7 implies agg_daily(
                        records@.take(i + 1),
                        now_ms,
                        b,
                    ) == agg_daily(records@.take(i as int), now_ms, b) + interval_daily(
                        s_i,
                        e_i,
                        b,
                    ) by {}
                    assert forall|b: int| 0 <= b < 10 implies agg_weekly(
                        records@.take(i + 1),
                        now_ms,
                        b,
                    ) == agg_weekly(records@.take(i as int), now_ms, b) + interval_weekly(
                        now_ms as int,
                        s_i,
                        e_i,
                        b,
                    ) by {}
                    assert forall|b: int| 0 <= b < 24 implies agg_tod(records@.take(i + 1), now_ms, b)
                        == agg_tod(records@.take(i as int), now_ms, b) + interval_tod(
                        s_i,
                        e_i,
                        b,
                    ) by {}
                }
            } else {
                proof {
                    assert(s_i > e_i);
                    assert forall|b: int| 0 <= b < 24 implies interval_tod(s_i, e_i, b) == 0 by {}
                    assert forall|b: int| 0 <= b < 7 implies interval_daily(s_i, e_i, b) == 0 by {}
                    assert forall|b: int| 0 <= b < 10 implies interval_weekly(
                        now_ms as int,
                        s_i,
                        e_i,
                        b,
                    ) == 0 by {}
                }
            }
            i += 1;
        }
        proof {
            assert(records@.take(n as int) =~= records@);
        }
        Mermaid { weekly: Weekly(weekly), daily: Daily(daily), timeofday: TimeOfDay(timeofday) }
    }

    /// Builds the histograms of every user in a store snapshot, in the
    /// store's order.
    pub fn init(storage: &Storage, now_ms: u64) -> (charts: Vec<(String, Mermaid)>)
        requires
            now_ms <= MAX_TS_MS,
            forall|i: int|
                0 <= i < storage@.users.len() ==> {
                    &&& timeline_bounded((#[trigger] storage@.users[i]).records)
                    &&& total_ms(storage@.users[i].records, now_ms) <= u64::MAX
                },
        ensures
            charts@.len() == storage@.users.len(),
            forall|i: int|
                0 <= i < charts@.len() ==> (#[trigger] charts@[i]).0@ == storage@.users[i].name,
            forall|i: int, b: int|
                0 <= i < charts@.len() && 0 <= b < 7 ==> (#[trigger] charts@[i].1.daily.0@[b])
                    == agg_daily(storage@.users[i].records, now_ms, b),
            forall|i: int, b: int|
                0 <= i < charts@.len() && 0 <= b < 10 ==> (#[trigger] charts@[i].1.weekly.0@[b])
                    == agg_weekly(storage@.users[i].records, now_ms, b),
            forall|i: int, b: int|
                0 <= i < charts@.len() && 0 <= b < 24 ==> (#[trigger] charts@[i].1.timeofday.0@[b])
                    == agg_tod(storage@.users[i].records, now_ms, b),
    {
        let mut charts: Vec<(String, Mermaid)> = Vec::new();
        let n = storage.users.len();
        let mut i: usize = 0;
        while i < n
            invariant
                i <= n,
                n == storage@.users.len(),
                now_ms <= MAX_TS_MS,
                forall|j: int|
                    0 <= j < storage@.users.len() ==> {
                        &&& timeline_bounded((#[trigger] storage@.users[j]).records)
                        &&& total_ms(storage@.users[j].records, now_ms) <= u64::MAX
                    },
                charts@.len() == i,
                forall|j: int|
                    0 <= j < i ==> (#[trigger] charts@[j]).0@ == storage@.users[j].name,
                forall|j: int, b: int|
                    0 <= j < i && 0 <= b < 7 ==> (#[trigger] charts@[j].1.daily.0@[b]) == agg_daily(
                        storage@.users[j].records,
                        now_ms,
                        b,
                    ),
                forall|j: int, b: int|
                    0 <= j < i && 0 <= b < 10 ==> (#[trigger] charts@[j].1.weekly.0@[b])
                        == agg_weekly(storage@.users[j].records, now_ms, b),
                forall|j: int, b: int|
                    0 <= j < i && 0 <= b < 24 ==> (#[trigger] charts@[j].1.timeofday.0@[b])
                        == agg_tod(storage@.users[j].records, now_ms, b),
            decreases n - i,
        {
            let name = storage.users[i].name.clone();
            proof {
                assert(storage.users@[i as int].records@ == storage@.users[i as int].records);
            }
            let chart = Mermaid::build(&storage.users[i].records, now_ms);
            charts.push((name, chart));
            i += 1;
        }
        charts
    }
}

} // verus!
