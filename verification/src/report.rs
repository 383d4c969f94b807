//! Period reporting: calendar buckets and per-topic aggregation.
//!
//! A report covers the most recent `n` calendar weeks or months, latest
//! first. Each period holds the closed sessions whose start lies inside it;
//! their lengths are summed per topic and the topics ordered by time spent.

use vstd::prelude::*;
use crate::time::{Date, Timestamp, month_index, month_shift, month_shift_exec, weekday_from_monday,
    weekday_exec, prev_day, lemma_first_of_next_month, lemma_instant_bounds};
use crate::store::{Session, SessionV, Store, views};

verus! {

/// A half-open stretch of time: `start` inclusive, `end` exclusive.
#[derive(Clone, Copy, PartialEq, Eq, Structural, Debug)]
pub struct Period {
    pub start: Timestamp,
    pub end: Timestamp,
}

/// Whether a closed session falls in the period: its start instant does.
pub open spec fn in_period(s: SessionV, p: Period) -> bool {
    s.end is Some && p.start.instant() <= s.start.instant() < p.end.instant()
}

/// The first day of the month `i` months before the current one, at
/// midnight under the current offset.
pub open spec fn month_period_start(now: Timestamp, i: int) -> Timestamp {
    Timestamp {
        date: Date {
            year: month_shift(now.date.year as int, now.date.month as int, i).0 as i64,
            month: month_shift(now.date.year as int, now.date.month as int, i).1 as u8,
            day: 1,
        },
        hour: 0,
        minute: 0,
        second: 0,
        offset_seconds: now.offset_seconds,
    }
}

/// The Monday `i` whole weeks before the current week's Monday, at
/// midnight under the current offset.
pub open spec fn is_week_period_start(now: Timestamp, i: int, t: Timestamp) -> bool {
    &&& t.date.valid()
    &&& t.date.day_number() == now.date.day_number() - weekday_from_monday(now.date) - 7 * i
    &&& t.hour == 0
    &&& t.minute == 0
    &&& t.second == 0
    &&& t.offset_seconds == now.offset_seconds
}

/// The requested number of periods stays within the calendar.
pub open spec fn periods_fit(now: Timestamp, count: int, monthly: bool) -> bool {
    if monthly {
        count <= month_index(now.date.year as int, now.date.month as int) + 1
    } else {
        count < 1 || 7 * (count - 1) + weekday_from_monday(now.date) <= now.date.day_number()
    }
}


/// Machine check of `periods_fit`, for callers outside the proof world.
pub fn periods_fit_exec(now: &Timestamp, count: usize, monthly: bool) -> (r: bool)
    requires
        now.valid(),
    ensures
        r == periods_fit(*now, count as int, monthly),
{
    if monthly {
        let idx: i64 = (now.date.year - 1) * 12 + (now.date.month as i64 - 1);
        (count as u64) <= (idx as u64) + 1
    } else if count < 1 {
        true
    } else if (count as u64) > 4_000_000 {
        proof {
            crate::time::lemma_day_number_bounds(now.date);
        }
        false
    } else {
        let dn = crate::time::day_number_exec(now.date);
        let wd = weekday_exec(now.date) as i64;
        7 * (count as i64 - 1) + wd <= dn
    }
}

/// What the period list of a report satisfies: each period starts at its
/// calendar boundary, the newest ends now, and each older period ends where
/// the one after it begins.
pub open spec fn periods_ok(ps: Seq<Period>, now: Timestamp, count: int, monthly: bool) -> bool {
    &&& ps.len() == count
    &&& forall|i: int|
        0 <= i < count ==> (#[trigger] ps[i]).start.valid() && ps[i].end.valid()
    &&& forall|i: int|
        0 <= i < count ==> (#[trigger] ps[i]).start.instant() <= ps[i].end.instant()
    &&& forall|i: int|
        0 <= i < count ==> (if monthly {
            (#[trigger] ps[i]).start == month_period_start(now, i)
        } else {
            is_week_period_start(now, i, (#[trigger] ps[i]).start)
        })
    &&& count > 0 ==> ps[0].end == now
    &&& forall|i: int| 1 <= i < count ==> (#[trigger] ps[i]).end == ps[i - 1].start
}

/// Dividing the successor by 12: the quotient steps exactly when the
/// remainder wraps.
proof fn lemma_div12_step(n: int)
    requires
        n >= 0,
    ensures
        0 <= n % 12 < 12,
        (n + 1) % 12 == if n % 12 == 11 {
            0int
        } else {
            n % 12 + 1
        },
        (n + 1) / 12 == if n % 12 == 11 {
            n / 12 + 1
        } else {
            n / 12
        },
        n / 12 >= 0,
{
    vstd::arithmetic::div_mod::lemma_fundamental_div_mod(n, 12);
    vstd::arithmetic::div_mod::lemma_mod_bound(n, 12);
    vstd::arithmetic::div_mod::lemma_div_pos_is_pos(n, 12);
    if n % 12 == 11 {
        vstd::arithmetic::div_mod::lemma_fundamental_div_mod_converse(n + 1, 12, n / 12 + 1, 0);
    } else {
        vstd::arithmetic::div_mod::lemma_fundamental_div_mod_converse(
            n + 1,
            12,
            n / 12,
            n % 12 + 1,
        );
    }
}

proof fn lemma_month_index_div(y: int, m: int)
    requires
        1 <= y,
        1 <= m <= 12,
    ensures
        month_index(y, m) / 12 == y - 1,
        month_index(y, m) % 12 == m - 1,
        month_index(y, m) >= 0,
{
    vstd::arithmetic::div_mod::lemma_fundamental_div_mod_converse(
        month_index(y, m),
        12,
        y - 1,
        m - 1,
    );
}

/// The list of reporting periods: `count` of them, newest first.
#[verifier::rlimit(100)]
pub fn compute_periods(now: Timestamp, count: usize, monthly: bool) -> (r: Vec<Period>)
    requires
        now.valid(),
        periods_fit(now, count as int, monthly),
    ensures
        periods_ok(r@, now, count as int, monthly),
{
    let mut out: Vec<Period> = Vec::new();
    if count == 0 {
        return out;
    }
    let ghost tt = month_index(now.date.year as int, now.date.month as int);
    let first_start = if monthly {
        let s = Timestamp {
            date: Date { year: now.date.year, month: now.date.month, day: 1 },
            hour: 0,
            minute: 0,
            second: 0,
            offset_seconds: now.offset_seconds,
        };
        proof {
            lemma_month_index_div(now.date.year as int, now.date.month as int);
            assert(month_shift(now.date.year as int, now.date.month as int, 0).0
                == now.date.year as int);
            assert(month_shift(now.date.year as int, now.date.month as int, 0).1
                == now.date.month as int);
            assert(s == month_period_start(now, 0));
        }
        s
    } else {
        let wd = weekday_exec(now.date);
        let mut d = now.date;
        let mut steps: u8 = 0;
        while steps < wd
            invariant
                steps <= wd,
                wd == weekday_from_monday(now.date),
                wd <= now.date.day_number(),
                d.valid(),
                d.day_number() == now.date.day_number() - steps,
            decreases wd - steps,
        {
            d = prev_day(d);
            steps = steps + 1;
        }
        Timestamp {
            date: d,
            hour: 0,
            minute: 0,
            second: 0,
            offset_seconds: now.offset_seconds,
        }
    };
    proof {
        crate::time::lemma_day_number_bounds(now.date);
        crate::time::lemma_day_number_bounds(first_start.date);
        assert(first_start.instant() <= now.instant());
    }
    out.push(Period { start: first_start, end: now });
    let mut cur_start = first_start;
    let mut i: usize = 1;
    while i < count
        invariant
            1 <= i <= count,
            out@.len() == i,
            now.valid(),
            periods_fit(now, count as int, monthly),
            periods_ok(out@, now, i as int, monthly),
            cur_start == out@[i - 1].start,
            tt == month_index(now.date.year as int, now.date.month as int),
        decreases count - i,
    {
        let ghost pre = out@;
        let new_start = if monthly {
            let (y, m) = month_shift_exec(now.date.year, now.date.month, i as u64);
            let s = Timestamp {
                date: Date { year: y, month: m, day: 1 },
                hour: 0,
                minute: 0,
                second: 0,
                offset_seconds: now.offset_seconds,
            };
            proof {
                lemma_month_index_div(now.date.year as int, now.date.month as int);
                lemma_div12_step(tt - i);
                lemma_first_of_next_month(y as int, m as int);
                crate::time::lemma_day_number_bounds(s.date);
                crate::time::lemma_day_number_bounds(cur_start.date);
                assert(s == month_period_start(now, i as int));
                assert(cur_start == month_period_start(now, i - 1));
                assert(cur_start.date.day_number() == s.date.day_number() + crate::time::days_in_month(
                    y as int,
                    m as int,
                ));
                assert(s.instant() < cur_start.instant());
            }
            s
        } else {
            let mut d = cur_start.date;
            let mut steps: u8 = 0;
            while steps < 7
                invariant
                    steps <= 7,
                    d.valid(),
                    d.day_number() == cur_start.date.day_number() - steps,
                    cur_start.date.day_number() == now.date.day_number() - weekday_from_monday(
                        now.date,
                    ) - 7 * (i - 1),
                    7 * (count as int - 1) + weekday_from_monday(now.date)
                        <= now.date.day_number(),
                    i < count,
                decreases 7 - steps,
            {
                d = prev_day(d);
                steps = steps + 1;
            }
            let s = Timestamp {
                date: d,
                hour: 0,
                minute: 0,
                second: 0,
                offset_seconds: now.offset_seconds,
            };
            proof {
                assert(is_week_period_start(now, i as int, s));
                assert(s.instant() < cur_start.instant());
            }
            s
        };
        out.push(Period { start: new_start, end: cur_start });
        proof {
            assert forall|j: int| 0 <= j < i + 1 implies (if monthly {
                (#[trigger] out@[j]).start == month_period_start(now, j)
            } else {
                is_week_period_start(now, j, (#[trigger] out@[j]).start)
            }) by {
                if j < i {
                    assert(out@[j] == pre[j]);
                }
            }
            assert(periods_ok(out@, now, i + 1, monthly));
        }
        cur_start = new_start;
        i = i + 1;
    }
    out
}

/// Seconds spent on one topic within a period, over a session history.
pub open spec fn topic_total(ssv: Seq<SessionV>, topic: Seq<char>, p: Period) -> int
    decreases ssv.len(),
{
    if ssv.len() == 0 {
        0
    } else {
        topic_total(ssv.drop_last(), topic, p) + if in_period(ssv.last(), p) && ssv.last().topic
            == topic {
            ssv.last().duration_seconds()
        } else {
            0
        }
    }
}

/// Seconds spent within a period over all topics.
pub open spec fn period_total(ssv: Seq<SessionV>, p: Period) -> int
    decreases ssv.len(),
{
    if ssv.len() == 0 {
        0
    } else {
        period_total(ssv.drop_last(), p) + if in_period(ssv.last(), p) {
            ssv.last().duration_seconds()
        } else {
            0
        }
    }
}

/// One aggregated line of a report: a topic and its summed seconds.
#[derive(Debug)]
pub struct TopicHours {
    pub topic: String,
    pub seconds: i128,
}

impl TopicHours {
    pub fn duplicate(&self) -> (r: TopicHours)
        ensures
            r.topic@ == self.topic@,
            r.seconds == self.seconds,
    {
        TopicHours { topic: self.topic.clone(), seconds: self.seconds }
    }
}

/// The mathematical value of a row list: topic and seconds pairs.
pub open spec fn row_views(rs: Seq<TopicHours>) -> Seq<(Seq<char>, int)> {
    rs.map_values(|r: TopicHours| (r.topic@, r.seconds as int))
}

pub open spec fn rows_distinct(rs: Seq<TopicHours>) -> bool {
    forall|a: int, b: int|
        0 <= a < b < rs.len() ==> (#[trigger] rs[a]).topic@ != (#[trigger] rs[b]).topic@
}

pub open spec fn rows_sorted(rs: Seq<TopicHours>) -> bool {
    forall|a: int, b: int|
        0 <= a < b < rs.len() ==> (#[trigger] rs[a]).seconds >= (#[trigger] rs[b]).seconds
}

/// Each row carries exactly its topic's total for the period.
pub open spec fn rows_exact(rs: Seq<TopicHours>, ssv: Seq<SessionV>, p: Period) -> bool {
    forall|a: int|
        0 <= a < rs.len() ==> (#[trigger] rs[a]).seconds as int == topic_total(
            ssv,
            rs[a].topic@,
            p,
        )
}

/// Some session of the period carries this topic.
pub open spec fn topic_in_period(ssv: Seq<SessionV>, p: Period, t: Seq<char>) -> bool {
    exists|k: int| 0 <= k < ssv.len() && in_period(#[trigger] ssv[k], p) && ssv[k].topic == t
}

/// Some row carries this topic.
pub open spec fn topic_has_row(rs: Seq<TopicHours>, t: Seq<char>) -> bool {
    exists|a: int| 0 <= a < rs.len() && (#[trigger] rs[a]).topic@ == t
}

/// Each row's topic has a session in the period.
pub open spec fn rows_from(rs: Seq<TopicHours>, ssv: Seq<SessionV>, p: Period) -> bool {
    forall|a: int| 0 <= a < rs.len() ==> topic_in_period(ssv, p, (#[trigger] rs[a]).topic@)
}

/// Some row carries this topic and seconds pair.
pub open spec fn row_present(rs: Seq<TopicHours>, t: Seq<char>, secs: int) -> bool {
    exists|b: int|
        0 <= b < rs.len() && (#[trigger] rs[b]).topic@ == t && rs[b].seconds as int == secs
}

/// Two row lists hold the same topic/seconds pairs, in some order.
pub open spec fn rows_same_members(x: Seq<TopicHours>, y: Seq<TopicHours>) -> bool {
    &&& forall|a: int|
        0 <= a < x.len() ==> row_present(y, (#[trigger] x[a]).topic@, x[a].seconds as int)
    &&& forall|b: int|
        0 <= b < y.len() ==> row_present(x, (#[trigger] y[b]).topic@, y[b].seconds as int)
}

/// Every topic with a session in the period has a row.
pub open spec fn rows_cover(rs: Seq<TopicHours>, ssv: Seq<SessionV>, p: Period) -> bool {
    forall|k: int|
        0 <= k < ssv.len() && in_period((#[trigger] ssv[k]), p) ==> topic_has_row(rs, ssv[k].topic)
}

/// A session's length stays far inside the bound used for sums.
pub proof fn lemma_duration_bound(s: SessionV)
    requires
        s.valid(),
        s.end is Some,
    ensures
        -700_000_000_000 < s.duration_seconds() < 700_000_000_000,
{
    lemma_instant_bounds(s.start);
    lemma_instant_bounds(s.end->Some_0);
}

pub proof fn lemma_topic_total_bound(ssv: Seq<SessionV>, topic: Seq<char>, p: Period)
    requires
        forall|i: int| 0 <= i < ssv.len() ==> (#[trigger] ssv[i]).valid(),
    ensures
        -(ssv.len() * 700_000_000_000) <= topic_total(ssv, topic, p) <= ssv.len()
            * 700_000_000_000,
    decreases ssv.len(),
{
    if ssv.len() > 0 {
        lemma_topic_total_bound(ssv.drop_last(), topic, p);
        if in_period(ssv.last(), p) {
            lemma_duration_bound(ssv.last());
        }
    }
}

pub proof fn lemma_period_total_bound(ssv: Seq<SessionV>, p: Period)
    requires
        forall|i: int| 0 <= i < ssv.len() ==> (#[trigger] ssv[i]).valid(),
    ensures
        -(ssv.len() * 700_000_000_000) <= period_total(ssv, p) <= ssv.len() * 700_000_000_000,
    decreases ssv.len(),
{
    if ssv.len() > 0 {
        lemma_period_total_bound(ssv.drop_last(), p);
        if in_period(ssv.last(), p) {
            lemma_duration_bound(ssv.last());
        }
    }
}

/// A topic with no session in the period totals zero.
pub proof fn lemma_topic_total_zero(ssv: Seq<SessionV>, topic: Seq<char>, p: Period)
    requires
        forall|k: int|
            0 <= k < ssv.len() ==> !(in_period(#[trigger] ssv[k], p) && ssv[k].topic == topic),
    ensures
        topic_total(ssv, topic, p) == 0,
    decreases ssv.len(),
{
    if ssv.len() > 0 {
        assert(ssv[ssv.len() - 1] == ssv.last());
        lemma_topic_total_zero(ssv.drop_last(), topic, p);
    }
}

proof fn lemma_topic_total_step(ssv: Seq<SessionV>, k: int, topic: Seq<char>, p: Period)
    requires
        0 <= k < ssv.len(),
    ensures
        topic_total(ssv.take(k + 1), topic, p) == topic_total(ssv.take(k), topic, p) + if in_period(
            ssv[k],
            p,
        ) && ssv[k].topic == topic {
            ssv[k].duration_seconds()
        } else {
            0
        },
{
    assert(ssv.take(k + 1).drop_last() =~= ssv.take(k));
    assert(ssv.take(k + 1).last() == ssv[k]);
}

proof fn lemma_period_total_step(ssv: Seq<SessionV>, k: int, p: Period)
    requires
        0 <= k < ssv.len(),
    ensures
        period_total(ssv.take(k + 1), p) == period_total(ssv.take(k), p) + if in_period(
            ssv[k],
            p,
        ) {
            ssv[k].duration_seconds()
        } else {
            0
        },
{
    assert(ssv.take(k + 1).drop_last() =~= ssv.take(k));
    assert(ssv.take(k + 1).last() == ssv[k]);
}

proof fn lemma_row_views_remove(s: Seq<TopicHours>, i: int)
    requires
        0 <= i < s.len(),
    ensures
        row_views(s.remove(i)) =~= row_views(s).remove(i),
{
}

proof fn lemma_row_views_push(s: Seq<TopicHours>, x: TopicHours)
    ensures
        row_views(s.push(x)) =~= row_views(s).push((x.topic@, x.seconds as int)),
{
}

/// Sorts report rows by seconds, largest first. Ties keep no fixed order.
fn sort_rows(v: Vec<TopicHours>) -> (r: Vec<TopicHours>)
    requires
        rows_distinct(v@),
    ensures
        r@.len() == v@.len(),
        rows_distinct(r@),
        rows_sorted(r@),
        row_views(r@).to_multiset() == row_views(v@).to_multiset(),
        rows_same_members(r@, v@),
{
    broadcast use vstd::seq_lib::group_to_multiset_ensures;
    broadcast use vstd::multiset::group_multiset_axioms;

    let mut rem = v;
    let mut out: Vec<TopicHours> = Vec::new();
    while rem.len() > 0
        invariant
            out@.len() + rem@.len() == v@.len(),
            row_views(out@).to_multiset().add(row_views(rem@).to_multiset()) == row_views(
                v@,
            ).to_multiset(),
            rows_sorted(out@),
            rows_distinct(out@),
            rows_distinct(rem@),
            forall|i: int, j: int|
                0 <= i < out@.len() && 0 <= j < rem@.len() ==> (#[trigger] out@[i]).seconds >= (
                #[trigger] rem@[j]).seconds,
            forall|i: int, j: int|
                0 <= i < out@.len() && 0 <= j < rem@.len() ==> (#[trigger] out@[i]).topic@ != (
                #[trigger] rem@[j]).topic@,
        decreases rem@.len(),
    {
        let mut best: usize = 0;
        let mut bi: usize = 1;
        while bi < rem.len()
            invariant
                best < bi <= rem@.len(),
                rem@.len() > 0,
                forall|j: int|
                    0 <= j < bi ==> rem@[best as int].seconds >= (#[trigger] rem@[j]).seconds,
            decreases rem@.len() - bi,
        {
            if rem[bi].seconds > rem[best].seconds {
                best = bi;
            }
            bi = bi + 1;
        }
        let ghost pre_rem = rem@;
        let ghost pre_out = out@;
        let ghost rv = row_views(pre_rem);
        let ghost ov = row_views(pre_out);
        let ghost xv = rv[best as int];
        let x = rem.remove(best);
        out.push(x);
        proof {
            lemma_row_views_remove(pre_rem, best as int);
            lemma_row_views_push(pre_out, x);
            assert(row_views(rem@) =~= rv.remove(best as int));
            assert(row_views(out@) =~= ov.push(xv));
            assert(rv.contains(xv));
            rv.to_multiset_ensures();
            ov.to_multiset_ensures();
            assert(rv.to_multiset().count(xv) > 0);
            assert(row_views(rem@).to_multiset() == rv.to_multiset().remove(xv));
            assert((ov.push(xv)).to_multiset() =~= ov.to_multiset().insert(xv));
            assert(row_views(out@).to_multiset() == ov.to_multiset().insert(xv));
            assert(row_views(out@).to_multiset().add(row_views(rem@).to_multiset())
                =~= ov.to_multiset().add(rv.to_multiset()));
            assert forall|i: int, j: int|
                0 <= i < out@.len() && 0 <= j < rem@.len() implies (#[trigger] out@[i]).seconds
                >= (#[trigger] rem@[j]).seconds && out@[i].topic@ != rem@[j].topic@ by {
                let jj = if j < best as int {
                    j
                } else {
                    j + 1
                };
                assert(rem@[j] == pre_rem[jj]);
                if i < pre_out.len() {
                    assert(out@[i] == pre_out[i]);
                } else {
                    assert(out@[i] == pre_rem[best as int]);
                    assert(pre_rem[best as int].seconds >= pre_rem[jj].seconds);
                }
            }
            assert forall|a: int, b: int| 0 <= a < b < out@.len() implies (
            #[trigger] out@[a]).topic@ != (#[trigger] out@[b]).topic@ && out@[a].seconds
                >= out@[b].seconds by {
                if b < pre_out.len() {
                    assert(out@[a] == pre_out[a] && out@[b] == pre_out[b]);
                } else {
                    assert(out@[b] == pre_rem[best as int]);
                    assert(out@[a] == pre_out[a]);
                }
            }
        }
    }
    proof {
        broadcast use vstd::seq_lib::group_to_multiset_ensures;

        assert forall|a: int| 0 <= a < out@.len() implies row_present(
            v@,
            (#[trigger] out@[a]).topic@,
            out@[a].seconds as int,
        ) by {
            assert(row_views(out@)[a] == (out@[a].topic@, out@[a].seconds as int));
            assert(row_views(out@).contains(row_views(out@)[a]));
            assert(row_views(out@).to_multiset().count(row_views(out@)[a]) > 0);
            assert(row_views(v@).to_multiset().count(row_views(out@)[a]) > 0);
            assert(row_views(v@).contains(row_views(out@)[a]));
            let b = choose|b: int|
                0 <= b < row_views(v@).len() && row_views(v@)[b] == row_views(out@)[a];
            assert((v@[b].topic@, v@[b].seconds as int) == (out@[a].topic@, out@[a].seconds as int));
            assert(0 <= b < v@.len() && v@[b].topic@ == out@[a].topic@ && v@[b].seconds as int
                == out@[a].seconds as int);
        }
        assert forall|b: int| 0 <= b < v@.len() implies row_present(
            out@,
            (#[trigger] v@[b]).topic@,
            v@[b].seconds as int,
        ) by {
            assert(row_views(v@)[b] == (v@[b].topic@, v@[b].seconds as int));
            assert(row_views(v@).contains(row_views(v@)[b]));
            assert(row_views(v@).to_multiset().count(row_views(v@)[b]) > 0);
            assert(row_views(out@).to_multiset().count(row_views(v@)[b]) > 0);
            assert(row_views(out@).contains(row_views(v@)[b]));
            let a = choose|a: int|
                0 <= a < row_views(out@).len() && row_views(out@)[a] == row_views(v@)[b];
            assert((out@[a].topic@, out@[a].seconds as int) == (v@[b].topic@, v@[b].seconds as int));
            assert(0 <= a < out@.len() && out@[a].topic@ == v@[b].topic@ && out@[a].seconds as int
                == v@[b].seconds as int);
        }
        assert(rows_same_members(out@, v@));
    }
    out
}

/// Finds the row carrying the topic, if any.
fn find_topic(acc: &Vec<TopicHours>, t: &String) -> (r: Option<usize>)
    ensures
        r matches Some(f) ==> 0 <= f < acc@.len() && acc@[f as int].topic@ == t@,
        r is None ==> forall|a: int| 0 <= a < acc@.len() ==> (#[trigger] acc@[a]).topic@ != t@,
{
    let mut j: usize = 0;
    while j < acc.len()
        invariant
            j <= acc@.len(),
            forall|a: int| 0 <= a < j ==> (#[trigger] acc@[a]).topic@ != t@,
        decreases acc@.len() - j,
    {
        if acc[j].topic == *t {
            return Some(j);
        }
        j = j + 1;
    }
    None
}

/// One aggregation step where the session does not count: the row list
/// keeps describing the longer prefix.
proof fn lemma_agg_skip(pre: Seq<TopicHours>, ssv: Seq<SessionV>, k: int, p: Period)
    requires
        0 <= k < ssv.len(),
        rows_exact(pre, ssv.take(k), p),
        rows_from(pre, ssv.take(k), p),
        rows_cover(pre, ssv.take(k), p),
        !in_period(ssv[k], p),
    ensures
        rows_exact(pre, ssv.take(k + 1), p),
        rows_from(pre, ssv.take(k + 1), p),
        rows_cover(pre, ssv.take(k + 1), p),
{
    let tk = ssv.take(k);
    let tk1 = ssv.take(k + 1);
    assert forall|a: int| 0 <= a < pre.len() implies (#[trigger] pre[a]).seconds as int
        == topic_total(tk1, pre[a].topic@, p) by {
        lemma_topic_total_step(ssv, k, pre[a].topic@, p);
    }
    assert forall|a: int| 0 <= a < pre.len() implies topic_in_period(
        tk1,
        p,
        (#[trigger] pre[a]).topic@,
    ) by {
        let kk = choose|kk: int|
            0 <= kk < tk.len() && in_period(#[trigger] tk[kk], p) && tk[kk].topic == pre[a].topic@;
        assert(tk1[kk] == tk[kk]);
        assert(in_period(tk1[kk], p) && tk1[kk].topic == pre[a].topic@);
    }
    assert forall|kk: int| 0 <= kk < tk1.len() && in_period((#[trigger] tk1[kk]), p) implies
        topic_has_row(pre, tk1[kk].topic) by {
        assert(kk != k);
        assert(tk1[kk] == tk[kk]);
        assert(topic_has_row(pre, tk[kk].topic));
    }
}

/// One aggregation step that adds the session's length to its topic's row.
proof fn lemma_agg_add(
    pre: Seq<TopicHours>,
    post: Seq<TopicHours>,
    ssv: Seq<SessionV>,
    k: int,
    p: Period,
    f: int,
)
    requires
        0 <= k < ssv.len(),
        in_period(ssv[k], p),
        rows_distinct(pre),
        rows_exact(pre, ssv.take(k), p),
        rows_from(pre, ssv.take(k), p),
        rows_cover(pre, ssv.take(k), p),
        0 <= f < pre.len(),
        post.len() == pre.len(),
        forall|a: int| 0 <= a < pre.len() && a != f ==> post[a] == pre[a],
        post[f].topic@ == pre[f].topic@,
        pre[f].topic@ == ssv[k].topic,
        post[f].seconds as int == pre[f].seconds + ssv[k].duration_seconds(),
    ensures
        rows_distinct(post),
        rows_exact(post, ssv.take(k + 1), p),
        rows_from(post, ssv.take(k + 1), p),
        rows_cover(post, ssv.take(k + 1), p),
{
    let tk = ssv.take(k);
    let tk1 = ssv.take(k + 1);
    assert forall|a: int, b: int| 0 <= a < b < post.len() implies (#[trigger] post[a]).topic@
        != (#[trigger] post[b]).topic@ by {
        assert(post[a].topic@ == pre[a].topic@ && post[b].topic@ == pre[b].topic@);
    }
    assert forall|a: int| 0 <= a < post.len() implies (#[trigger] post[a]).seconds as int
        == topic_total(tk1, post[a].topic@, p) by {
        lemma_topic_total_step(ssv, k, post[a].topic@, p);
        if a != f {
            assert(post[a] == pre[a]);
            assert(pre[a].topic@ != pre[f].topic@);
        }
    }
    assert forall|a: int| 0 <= a < post.len() implies topic_in_period(
        tk1,
        p,
        (#[trigger] post[a]).topic@,
    ) by {
        if a != f {
            let kk = choose|kk: int|
                0 <= kk < tk.len() && in_period(#[trigger] tk[kk], p) && tk[kk].topic
                    == pre[a].topic@;
            assert(tk1[kk] == tk[kk]);
            assert(in_period(tk1[kk], p) && tk1[kk].topic == post[a].topic@);
        } else {
            assert(tk1[k] == ssv[k]);
            assert(in_period(tk1[k], p) && tk1[k].topic == post[f].topic@);
        }
    }
    assert forall|kk: int| 0 <= kk < tk1.len() && in_period((#[trigger] tk1[kk]), p) implies
        topic_has_row(post, tk1[kk].topic) by {
        if kk < k {
            assert(tk1[kk] == tk[kk]);
            assert(topic_has_row(pre, tk[kk].topic));
            let a = choose|a: int| 0 <= a < pre.len() && (#[trigger] pre[a]).topic@ == tk[kk].topic;
            assert(post[a].topic@ == tk1[kk].topic);
        } else {
            assert(tk1[kk] == ssv[k]);
            assert(post[f].topic@ == tk1[kk].topic);
        }
    }
}

/// One aggregation step that opens a new row for a topic first seen here.
proof fn lemma_agg_new(
    pre: Seq<TopicHours>,
    post: Seq<TopicHours>,
    ssv: Seq<SessionV>,
    k: int,
    p: Period,
)
    requires
        0 <= k < ssv.len(),
        in_period(ssv[k], p),
        rows_distinct(pre),
        rows_exact(pre, ssv.take(k), p),
        rows_from(pre, ssv.take(k), p),
        rows_cover(pre, ssv.take(k), p),
        forall|a: int| 0 <= a < pre.len() ==> (#[trigger] pre[a]).topic@ != ssv[k].topic,
        post.len() == pre.len() + 1,
        forall|a: int| 0 <= a < pre.len() ==> post[a] == pre[a],
        post[pre.len() as int].topic@ == ssv[k].topic,
        post[pre.len() as int].seconds as int == ssv[k].duration_seconds(),
    ensures
        rows_distinct(post),
        rows_exact(post, ssv.take(k + 1), p),
        rows_from(post, ssv.take(k + 1), p),
        rows_cover(post, ssv.take(k + 1), p),
{
    let tk = ssv.take(k);
    let tk1 = ssv.take(k + 1);
    let n = pre.len() as int;
    assert forall|kk: int| 0 <= kk < tk.len() implies !(in_period(#[trigger] tk[kk], p)
        && tk[kk].topic == ssv[k].topic) by {
        if in_period(tk[kk], p) && tk[kk].topic == ssv[k].topic {
            assert(topic_has_row(pre, tk[kk].topic));
            let a = choose|a: int| 0 <= a < pre.len() && (#[trigger] pre[a]).topic@ == tk[kk].topic;
            assert(pre[a].topic@ != ssv[k].topic);
        }
    }
    lemma_topic_total_zero(tk, ssv[k].topic, p);
    assert forall|a: int, b: int| 0 <= a < b < post.len() implies (#[trigger] post[a]).topic@
        != (#[trigger] post[b]).topic@ by {
        if b < n {
            assert(post[a] == pre[a] && post[b] == pre[b]);
        } else {
            assert(post[a] == pre[a] && post[b].topic@ == ssv[k].topic);
        }
    }
    assert forall|a: int| 0 <= a < post.len() implies (#[trigger] post[a]).seconds as int
        == topic_total(tk1, post[a].topic@, p) by {
        lemma_topic_total_step(ssv, k, post[a].topic@, p);
        if a < n {
            assert(post[a] == pre[a]);
            assert(pre[a].topic@ != ssv[k].topic);
        }
    }
    assert forall|a: int| 0 <= a < post.len() implies topic_in_period(
        tk1,
        p,
        (#[trigger] post[a]).topic@,
    ) by {
        if a < n {
            let kk = choose|kk: int|
                0 <= kk < tk.len() && in_period(#[trigger] tk[kk], p) && tk[kk].topic
                    == pre[a].topic@;
            assert(tk1[kk] == tk[kk]);
            assert(in_period(tk1[kk], p) && tk1[kk].topic == post[a].topic@);
        } else {
            assert(tk1[k] == ssv[k]);
            assert(in_period(tk1[k], p) && tk1[k].topic == post[a].topic@);
        }
    }
    assert forall|kk: int| 0 <= kk < tk1.len() && in_period((#[trigger] tk1[kk]), p) implies
        topic_has_row(post, tk1[kk].topic) by {
        if kk < k {
            assert(tk1[kk] == tk[kk]);
            assert(topic_has_row(pre, tk[kk].topic));
            let a = choose|a: int| 0 <= a < pre.len() && (#[trigger] pre[a]).topic@ == tk[kk].topic;
            assert(post[a].topic@ == tk1[kk].topic);
        } else {
            assert(tk1[kk] == ssv[k]);
            assert(post[n].topic@ == tk1[kk].topic);
        }
    }
}

/// Sums the closed sessions of the period per topic, largest total first.
/// Also returns the period's overall total, in seconds.
#[verifier::rlimit(100)]
pub fn aggregate_period(ss: &Vec<Session>, p: &Period) -> (res: (Vec<TopicHours>, i128))
    requires
        forall|i: int| 0 <= i < ss@.len() ==> (#[trigger] ss@[i])@.valid(),
        p.start.valid(),
        p.end.valid(),
    ensures
        rows_distinct(res.0@),
        rows_sorted(res.0@),
        rows_exact(res.0@, views(ss@), *p),
        rows_from(res.0@, views(ss@), *p),
        rows_cover(res.0@, views(ss@), *p),
        res.0@.len() <= ss@.len(),
        res.1 == period_total(views(ss@), *p),
{
    let ghost ssv = views(ss@);
    let mut acc: Vec<TopicHours> = Vec::new();
    let mut tot: i128 = 0;
    let mut k: usize = 0;
    while k < ss.len()
        invariant
            k <= ss@.len(),
            ssv == views(ss@),
            ssv.len() == ss@.len(),
            forall|i: int| 0 <= i < ss@.len() ==> (#[trigger] ss@[i])@.valid(),
            forall|i: int| 0 <= i < ssv.len() ==> (#[trigger] ssv[i]) == ss@[i]@,
            forall|i: int| 0 <= i < ssv.len() ==> (#[trigger] ssv[i]).valid(),
            p.start.valid(),
            p.end.valid(),
            rows_distinct(acc@),
            rows_exact(acc@, ssv.take(k as int), *p),
            rows_from(acc@, ssv.take(k as int), *p),
            rows_cover(acc@, ssv.take(k as int), *p),
            acc@.len() <= k,
            tot == period_total(ssv.take(k as int), *p),
        decreases ss@.len() - k,
    {
        let ghost tk = ssv.take(k as int);
        let ghost pre = acc@;
        proof {
            assert(tk.len() == k as int);
        }
        let sk = &ss[k];
        let closed = sk.end.is_some();
        let mut hit = false;
        if closed {
            proof {
                lemma_instant_bounds(sk.start);
                lemma_instant_bounds(p.start);
                lemma_instant_bounds(p.end);
            }
            let si = sk.start.instant_exec();
            hit = p.start.instant_exec() <= si && si < p.end.instant_exec();
        }
        proof {
            assert(hit == in_period(ssv[k as int], *p));
        }
        if hit {
            let d = sk.duration_seconds_exec();
            proof {
                lemma_duration_bound(ssv[k as int]);
                lemma_period_total_bound(tk, *p);
                lemma_period_total_step(ssv, k as int, *p);
            }
            tot = tot + d as i128;
            match find_topic(&acc, &sk.topic) {
                Some(f) => {
                    proof {
                        lemma_topic_total_bound(tk, pre[f as int].topic@, *p);
                        lemma_duration_bound(ssv[k as int]);
                    }
                    let row = acc.remove(f);
                    let upd = TopicHours { topic: row.topic, seconds: row.seconds + d as i128 };
                    acc.insert(f, upd);
                    proof {
                        assert(acc@ =~= pre.update(f as int, upd));
                        lemma_agg_add(pre, acc@, ssv, k as int, *p, f as int);
                    }
                },
                None => {
                    let row = TopicHours { topic: sk.topic.clone(), seconds: d as i128 };
                    acc.push(row);
                    proof {
                        assert(acc@ =~= pre.push(row));
                        lemma_agg_new(pre, acc@, ssv, k as int, *p);
                    }
                },
            }
        } else {
            proof {
                lemma_period_total_step(ssv, k as int, *p);
                lemma_agg_skip(pre, ssv, k as int, *p);
            }
        }
        k = k + 1;
    }
    proof {
        assert(ssv.take(ss@.len() as int) =~= ssv);
    }
    let sorted = sort_rows(acc);
    proof {
        assert forall|a: int| 0 <= a < sorted@.len() implies (#[trigger] sorted@[a]).seconds
            as int == topic_total(ssv, sorted@[a].topic@, *p) && topic_in_period(
            ssv,
            *p,
            sorted@[a].topic@,
        ) by {
            assert(row_present(acc@, sorted@[a].topic@, sorted@[a].seconds as int));
            let b = choose|b: int|
                0 <= b < acc@.len() && (#[trigger] acc@[b]).topic@ == sorted@[a].topic@
                    && acc@[b].seconds as int == sorted@[a].seconds as int;
            assert(acc@[b].seconds as int == topic_total(ssv, acc@[b].topic@, *p));
            assert(topic_in_period(ssv, *p, acc@[b].topic@));
        }
        assert forall|kk: int| 0 <= kk < ssv.len() && in_period((#[trigger] ssv[kk]), *p) implies
            topic_has_row(sorted@, ssv[kk].topic) by {
            assert(topic_has_row(acc@, ssv[kk].topic));
            let b = choose|b: int| 0 <= b < acc@.len() && (#[trigger] acc@[b]).topic@ == ssv[kk].topic;
            assert(row_present(sorted@, acc@[b].topic@, acc@[b].seconds as int));
            let a = choose|a: int|
                0 <= a < sorted@.len() && (#[trigger] sorted@[a]).topic@ == acc@[b].topic@
                    && sorted@[a].seconds as int == acc@[b].seconds as int;
            assert(sorted@[a].topic@ == ssv[kk].topic);
        }
    }
    (sorted, tot)
}


/// A topic's seconds summed over every listed period.
pub open spec fn grand_topic_total(ssv: Seq<SessionV>, topic: Seq<char>, ps: Seq<Period>) -> int
    decreases ps.len(),
{
    if ps.len() == 0 {
        0
    } else {
        grand_topic_total(ssv, topic, ps.drop_last()) + topic_total(ssv, topic, ps.last())
    }
}

/// All topics' seconds summed over every listed period.
pub open spec fn periods_total(ssv: Seq<SessionV>, ps: Seq<Period>) -> int
    decreases ps.len(),
{
    if ps.len() == 0 {
        0
    } else {
        periods_total(ssv, ps.drop_last()) + period_total(ssv, ps.last())
    }
}

/// Some listed period holds a session with this topic.
pub open spec fn topic_in_some_period(ssv: Seq<SessionV>, ps: Seq<Period>, t: Seq<char>) -> bool {
    exists|i: int| 0 <= i < ps.len() && topic_in_period(ssv, #[trigger] ps[i], t)
}

/// Each row carries its topic's total across all listed periods.
pub open spec fn grand_exact(rs: Seq<TopicHours>, ssv: Seq<SessionV>, ps: Seq<Period>) -> bool {
    forall|a: int|
        0 <= a < rs.len() ==> (#[trigger] rs[a]).seconds as int == grand_topic_total(
            ssv,
            rs[a].topic@,
            ps,
        )
}

pub open spec fn grand_from(rs: Seq<TopicHours>, ssv: Seq<SessionV>, ps: Seq<Period>) -> bool {
    forall|a: int| 0 <= a < rs.len() ==> topic_in_some_period(ssv, ps, (#[trigger] rs[a]).topic@)
}

pub open spec fn grand_cover(rs: Seq<TopicHours>, ssv: Seq<SessionV>, ps: Seq<Period>) -> bool {
    forall|i: int, k: int|
        0 <= i < ps.len() && 0 <= k < ssv.len() && in_period(#[trigger] ssv[k], #[trigger] ps[i])
            ==> topic_has_row(rs, ssv[k].topic)
}

/// The listed periods are adjacent and each runs forward: every period ends
/// where the one after it (the next newer one) begins.
pub open spec fn periods_chained(ps: Seq<Period>) -> bool {
    &&& forall|i: int|
        0 <= i < ps.len() ==> (#[trigger] ps[i]).start.instant() <= ps[i].end.instant()
    &&& forall|i: int| 1 <= i < ps.len() ==> (#[trigger] ps[i]).end == ps[i - 1].start
}

/// The single stretch the listed periods tile, oldest start to newest end.
pub open spec fn span_of(ps: Seq<Period>) -> Period
    recommends
        ps.len() > 0,
{
    Period { start: ps[ps.len() - 1].start, end: ps[0].end }
}

/// Totals over two adjacent stretches add up to the total over their union.
proof fn lemma_tt_split(ssv: Seq<SessionV>, t: Seq<char>, older: Period, newer: Period, span: Period)
    requires
        older.end.instant() == newer.start.instant(),
        older.start.instant() <= older.end.instant(),
        older.end.instant() <= newer.end.instant(),
        span.start.instant() == older.start.instant(),
        span.end.instant() == newer.end.instant(),
    ensures
        topic_total(ssv, t, span) == topic_total(ssv, t, older) + topic_total(ssv, t, newer),
        period_total(ssv, span) == period_total(ssv, older) + period_total(ssv, newer),
    decreases ssv.len(),
{
    if ssv.len() > 0 {
        lemma_tt_split(ssv.drop_last(), t, older, newer, span);
    }
}

/// Summing a topic period by period equals its total over the whole span:
/// the grand total is the per-period subtotals added topic by topic.
pub proof fn lemma_grand_total_is_span(ssv: Seq<SessionV>, t: Seq<char>, ps: Seq<Period>)
    requires
        ps.len() >= 1,
        periods_chained(ps),
    ensures
        grand_topic_total(ssv, t, ps) == topic_total(ssv, t, span_of(ps)),
        periods_total(ssv, ps) == period_total(ssv, span_of(ps)),
        span_of(ps).start.instant() <= span_of(ps).end.instant(),
    decreases ps.len(),
{
    if ps.len() == 1 {
        assert(span_of(ps) == ps[0]);
        assert(ps.drop_last().len() == 0);
        assert(ps.last() == ps[0]);
        assert(grand_topic_total(ssv, t, ps.drop_last()) == 0);
        assert(periods_total(ssv, ps.drop_last()) == 0);
        assert(grand_topic_total(ssv, t, ps) == topic_total(ssv, t, ps[0]));
        assert(periods_total(ssv, ps) == period_total(ssv, ps[0]));
    } else {
        let pp = ps.drop_last();
        assert(pp.len() == ps.len() - 1);
        assert(forall|i: int| 0 <= i < pp.len() ==> pp[i] == ps[i]);
        assert(periods_chained(pp));
        lemma_grand_total_is_span(ssv, t, pp);
        let oldest = ps.last();
        assert(oldest.end == ps[ps.len() - 2].start);
        assert(span_of(pp).start == ps[ps.len() - 2].start);
        lemma_tt_split(ssv, t, oldest, span_of(pp), span_of(ps));
    }
}

/// Every listed period lies inside the span.
proof fn lemma_period_in_span(ps: Seq<Period>, i: int)
    requires
        periods_chained(ps),
        0 <= i < ps.len(),
    ensures
        span_of(ps).start.instant() <= ps[i].start.instant(),
        ps[i].end.instant() <= span_of(ps).end.instant(),
{
    let n = ps.len() as int;
    lemma_starts_chain(ps, i, n - 1);
    lemma_ends_chain(ps, i);
}

proof fn lemma_starts_chain(ps: Seq<Period>, i: int, j: int)
    requires
        periods_chained(ps),
        0 <= i <= j < ps.len(),
    ensures
        ps[j].start.instant() <= ps[i].start.instant(),
    decreases j - i,
{
    if i < j {
        lemma_starts_chain(ps, i + 1, j);
        assert(ps[i + 1].end == ps[i].start);
        assert(ps[i + 1].start.instant() <= ps[i + 1].end.instant());
    }
}

proof fn lemma_ends_chain(ps: Seq<Period>, i: int)
    requires
        periods_chained(ps),
        0 <= i < ps.len(),
    ensures
        ps[i].end.instant() <= ps[0].end.instant(),
    decreases i,
{
    if i > 0 {
        lemma_ends_chain(ps, i - 1);
        assert(ps[i].end == ps[i - 1].start);
        assert(ps[i - 1].start.instant() <= ps[i - 1].end.instant());
    }
}

/// An instant inside the span lies inside one of the periods.
proof fn lemma_span_member(ps: Seq<Period>, x: int)
    requires
        periods_chained(ps),
        ps.len() >= 1,
        span_of(ps).start.instant() <= x < span_of(ps).end.instant(),
    ensures
        exists|i: int|
            0 <= i < ps.len() && (#[trigger] ps[i]).start.instant() <= x < ps[i].end.instant(),
    decreases ps.len(),
{
    let n = ps.len() as int;
    if x < ps[n - 1].end.instant() {
        assert(ps[n - 1].start.instant() <= x < ps[n - 1].end.instant());
    } else {
        let pp = ps.drop_last();
        assert(n >= 2) by {
            if n == 1 {
                assert(x < span_of(ps).end.instant());
            }
        }
        assert(forall|i: int| 0 <= i < pp.len() ==> pp[i] == ps[i]);
        assert(periods_chained(pp));
        assert(span_of(pp).start == ps[n - 2].start);
        assert(ps[n - 1].end == ps[n - 2].start);
        lemma_span_member(pp, x);
        let i = choose|i: int|
            0 <= i < pp.len() && (#[trigger] pp[i]).start.instant() <= x < pp[i].end.instant();
        assert(ps[i].start.instant() <= x < ps[i].end.instant());
    }
}


/// The seconds of a row list, added up.
pub open spec fn rows_seconds_sum(rs: Seq<TopicHours>) -> int
    decreases rs.len(),
{
    if rs.len() == 0 {
        0
    } else {
        rows_seconds_sum(rs.drop_last()) + rs.last().seconds
    }
}

/// The rows' per-topic totals, added up.
spec fn sum_topic_totals(rs: Seq<TopicHours>, ssv: Seq<SessionV>, p: Period) -> int
    decreases rs.len(),
{
    if rs.len() == 0 {
        0
    } else {
        sum_topic_totals(rs.drop_last(), ssv, p) + topic_total(ssv, rs.last().topic@, p)
    }
}

proof fn lemma_sum_exact(rs: Seq<TopicHours>, ssv: Seq<SessionV>, p: Period)
    requires
        rows_exact(rs, ssv, p),
    ensures
        rows_seconds_sum(rs) == sum_topic_totals(rs, ssv, p),
    decreases rs.len(),
{
    if rs.len() > 0 {
        assert(rows_exact(rs.drop_last(), ssv, p)) by {
            assert(forall|a: int|
                0 <= a < rs.drop_last().len() ==> (#[trigger] rs.drop_last()[a]) == rs[a]);
        }
        lemma_sum_exact(rs.drop_last(), ssv, p);
        assert(rs[rs.len() - 1] == rs.last());
    }
}

proof fn lemma_sum_no_sessions(rs: Seq<TopicHours>, ssv: Seq<SessionV>, p: Period)
    requires
        ssv.len() == 0,
    ensures
        sum_topic_totals(rs, ssv, p) == 0,
    decreases rs.len(),
{
    if rs.len() > 0 {
        lemma_sum_no_sessions(rs.drop_last(), ssv, p);
    }
}

/// Dropping the last session changes the rows' summed totals by exactly
/// that session's length, when its topic has a row and it lies in the
/// period; by nothing otherwise.
proof fn lemma_sum_session_step(rs: Seq<TopicHours>, ssv: Seq<SessionV>, p: Period)
    requires
        rows_distinct(rs),
        ssv.len() > 0,
    ensures
        sum_topic_totals(rs, ssv, p) == sum_topic_totals(rs, ssv.drop_last(), p) + (if in_period(
            ssv.last(),
            p,
        ) && topic_has_row(rs, ssv.last().topic) {
            ssv.last().duration_seconds()
        } else {
            0
        }),
    decreases rs.len(),
{
    if rs.len() == 0 {
        assert(!topic_has_row(rs, ssv.last().topic));
    } else {
        let rs1 = rs.drop_last();
        assert(rows_distinct(rs1)) by {
            assert(forall|a: int| 0 <= a < rs1.len() ==> (#[trigger] rs1[a]) == rs[a]);
        }
        lemma_sum_session_step(rs1, ssv, p);
        let tlast = rs.last().topic@;
        let tses = ssv.last().topic;
        assert(topic_total(ssv, tlast, p) == topic_total(ssv.drop_last(), tlast, p) + (
        if in_period(ssv.last(), p) && tses == tlast {
            ssv.last().duration_seconds()
        } else {
            0
        }));
        if in_period(ssv.last(), p) {
            if tlast == tses {
                assert(!topic_has_row(rs1, tses)) by {
                    if topic_has_row(rs1, tses) {
                        let a = choose|a: int|
                            0 <= a < rs1.len() && (#[trigger] rs1[a]).topic@ == tses;
                        assert(rs[a].topic@ == rs[rs.len() - 1].topic@);
                    }
                }
                assert(topic_has_row(rs, tses)) by {
                    assert(rs[rs.len() - 1].topic@ == tses);
                }
            } else {
                assert(topic_has_row(rs, tses) == topic_has_row(rs1, tses)) by {
                    if topic_has_row(rs, tses) {
                        let a = choose|a: int|
                            0 <= a < rs.len() && (#[trigger] rs[a]).topic@ == tses;
                        assert(a < rs1.len());
                        assert(rs1[a].topic@ == tses);
                    }
                    if topic_has_row(rs1, tses) {
                        let a = choose|a: int|
                            0 <= a < rs1.len() && (#[trigger] rs1[a]).topic@ == tses;
                        assert(rs[a].topic@ == tses);
                    }
                }
            }
        }
    }
}

proof fn lemma_sum_is_period_total(rs: Seq<TopicHours>, ssv: Seq<SessionV>, p: Period)
    requires
        rows_distinct(rs),
        rows_cover(rs, ssv, p),
    ensures
        sum_topic_totals(rs, ssv, p) == period_total(ssv, p),
    decreases ssv.len(),
{
    if ssv.len() == 0 {
        lemma_sum_no_sessions(rs, ssv, p);
    } else {
        let sv1 = ssv.drop_last();
        assert(rows_cover(rs, sv1, p)) by {
            assert(forall|k: int| 0 <= k < sv1.len() ==> (#[trigger] sv1[k]) == ssv[k]);
            assert forall|k: int| 0 <= k < sv1.len() && in_period((#[trigger] sv1[k]), p) implies
                topic_has_row(rs, sv1[k].topic) by {
                assert(in_period(ssv[k], p));
            }
        }
        lemma_sum_is_period_total(rs, sv1, p);
        lemma_sum_session_step(rs, ssv, p);
        if in_period(ssv.last(), p) {
            assert(ssv[ssv.len() - 1] == ssv.last());
            assert(topic_has_row(rs, ssv.last().topic));
        }
    }
}

/// The rows of one period partition its total: the per-topic lines of a
/// period, added up, give the period's overall total.
pub proof fn lemma_rows_sum_is_total(rs: Seq<TopicHours>, ssv: Seq<SessionV>, p: Period)
    requires
        rows_distinct(rs),
        rows_exact(rs, ssv, p),
        rows_cover(rs, ssv, p),
    ensures
        rows_seconds_sum(rs) == period_total(ssv, p),
{
    lemma_sum_exact(rs, ssv, p);
    lemma_sum_is_period_total(rs, ssv, p);
}

/// The grand rows partition the grand total: the per-topic grand totals,
/// added up, give the overall total across all listed periods.
pub proof fn lemma_grand_rows_sum(rs: Seq<TopicHours>, ssv: Seq<SessionV>, ps: Seq<Period>)
    requires
        ps.len() >= 1,
        periods_chained(ps),
        rows_distinct(rs),
        grand_exact(rs, ssv, ps),
        grand_cover(rs, ssv, ps),
    ensures
        rows_seconds_sum(rs) == periods_total(ssv, ps),
{
    let span = span_of(ps);
    lemma_grand_total_is_span(ssv, Seq::<char>::empty(), ps);
    assert forall|a: int| 0 <= a < rs.len() implies (#[trigger] rs[a]).seconds as int
        == topic_total(ssv, rs[a].topic@, span) by {
        lemma_grand_total_is_span(ssv, rs[a].topic@, ps);
    }
    assert forall|k: int| 0 <= k < ssv.len() && in_period((#[trigger] ssv[k]), span) implies
        topic_has_row(rs, ssv[k].topic) by {
        lemma_span_member(ps, ssv[k].start.instant());
        let i = choose|i: int|
            0 <= i < ps.len() && (#[trigger] ps[i]).start.instant() <= ssv[k].start.instant()
                < ps[i].end.instant();
        assert(in_period(ssv[k], ps[i]));
    }
    lemma_rows_sum_is_total(rs, ssv, span);
}

/// One period of a report: its bounds, its per-topic lines, its total.
#[derive(Debug)]
pub struct PeriodStat {
    pub period: Period,
    pub rows: Vec<TopicHours>,
    pub total_seconds: i128,
}

/// The periods a list of stats describes.
pub open spec fn stats_periods(stats: Seq<PeriodStat>) -> Seq<Period> {
    stats.map_values(|st: PeriodStat| st.period)
}

/// A full periodic report: one stat per period, newest first, and the
/// grand per-topic totals over all of them.
#[derive(Debug)]
pub struct PeriodReport {
    pub stats: Vec<PeriodStat>,
    pub grand: Vec<TopicHours>,
    pub grand_total_seconds: i128,
}

/// What each period's stat lines satisfy.
pub open spec fn stat_ok(stat: PeriodStat, ssv: Seq<SessionV>) -> bool {
    &&& rows_distinct(stat.rows@)
    &&& rows_sorted(stat.rows@)
    &&& rows_exact(stat.rows@, ssv, stat.period)
    &&& rows_from(stat.rows@, ssv, stat.period)
    &&& rows_cover(stat.rows@, ssv, stat.period)
    &&& stat.rows@.len() <= ssv.len()
    &&& stat.total_seconds as int == period_total(ssv, stat.period)
}

/// What a whole periodic report satisfies, against the session history.
pub open spec fn report_ok(
    rep: PeriodReport,
    ssv: Seq<SessionV>,
    now: Timestamp,
    count: int,
    monthly: bool,
) -> bool {
    &&& periods_ok(stats_periods(rep.stats@), now, count, monthly)
    &&& forall|i: int| 0 <= i < rep.stats@.len() ==> stat_ok(#[trigger] rep.stats@[i], ssv)
    &&& rows_distinct(rep.grand@)
    &&& rows_sorted(rep.grand@)
    &&& grand_exact(rep.grand@, ssv, stats_periods(rep.stats@))
    &&& grand_from(rep.grand@, ssv, stats_periods(rep.stats@))
    &&& grand_cover(rep.grand@, ssv, stats_periods(rep.stats@))
    &&& rep.grand_total_seconds as int == periods_total(ssv, stats_periods(rep.stats@))
    &&& rows_seconds_sum(rep.grand@) == rep.grand_total_seconds as int
}

/// The periodic report: for each of the `periods` most recent calendar
/// weeks or months, the per-topic totals of the closed sessions starting in
/// it, and the grand per-topic totals across all of them.
#[verifier::rlimit(100)]
pub fn show_period_stats(st: &Store, now: Timestamp, periods: usize, is_month: bool) -> (r:
    PeriodReport)
    requires
        st.wf(),
        now.valid(),
        periods_fit(now, periods as int, is_month),
    ensures
        report_ok(r, views(st.sessions@), now, periods as int, is_month),
{
    let ghost ssv = views(st.sessions@);
    let ps = compute_periods(now, periods, is_month);
    let mut stats: Vec<PeriodStat> = Vec::new();
    let mut i: usize = 0;
    while i < ps.len()
        invariant
            i <= ps@.len(),
            ssv == views(st.sessions@),
            st.wf(),
            now.valid(),
            periods_ok(ps@, now, ps@.len() as int, is_month),
            stats@.len() == i,
            forall|j: int| 0 <= j < i ==> (#[trigger] stats@[j]).period == ps@[j],
            forall|j: int| 0 <= j < i ==> stat_ok(#[trigger] stats@[j], ssv),
        decreases ps@.len() - i,
    {
        let p = ps[i];
        proof {
            assert(forall|k: int|
                0 <= k < st.sessions@.len() ==> (#[trigger] st.sessions@[k])@.valid());
        }
        let (rows, total) = aggregate_period(&st.sessions, &p);
        stats.push(PeriodStat { period: p, rows, total_seconds: total });
        i = i + 1;
    }
    proof {
        assert(stats_periods(stats@) =~= ps@);
    }
    if ps.len() == 0 {
        let r = PeriodReport { stats, grand: Vec::new(), grand_total_seconds: 0 };
        proof {
            assert(stats_periods(r.stats@).len() == 0);
            assert(rows_seconds_sum(r.grand@) == 0);
            assert(report_ok(r, ssv, now, periods as int, is_month));
        }
        return r;
    }
    let span = Period { start: ps[ps.len() - 1].start, end: ps[0].end };
    proof {
        assert(periods_chained(ps@));
        assert(span == span_of(ps@));
    }
    let (g, gt) = aggregate_period(&st.sessions, &span);
    proof {
        assert forall|a: int| 0 <= a < g@.len() implies (#[trigger] g@[a]).seconds as int
            == grand_topic_total(ssv, g@[a].topic@, stats_periods(stats@)) by {
            lemma_grand_total_is_span(ssv, g@[a].topic@, ps@);
        }
        lemma_grand_total_is_span(ssv, ""@, ps@);
        assert(gt as int == periods_total(ssv, stats_periods(stats@)));
        assert forall|a: int| 0 <= a < g@.len() implies topic_in_some_period(
            ssv,
            stats_periods(stats@),
            (#[trigger] g@[a]).topic@,
        ) by {
            assert(topic_in_period(ssv, span, g@[a].topic@));
            let k = choose|k: int|
                0 <= k < ssv.len() && in_period(#[trigger] ssv[k], span) && ssv[k].topic
                    == g@[a].topic@;
            lemma_span_member(ps@, ssv[k].start.instant());
            let i2 = choose|i2: int|
                0 <= i2 < ps@.len() && (#[trigger] ps@[i2]).start.instant()
                    <= ssv[k].start.instant() < ps@[i2].end.instant();
            assert(in_period(ssv[k], ps@[i2]));
            assert(topic_in_period(ssv, ps@[i2], g@[a].topic@));
            assert(stats_periods(stats@)[i2] == ps@[i2]);
        }
        assert forall|i2: int, k: int|
            0 <= i2 < stats_periods(stats@).len() && 0 <= k < ssv.len() && in_period(
                #[trigger] ssv[k],
                #[trigger] stats_periods(stats@)[i2],
            ) implies topic_has_row(g@, ssv[k].topic) by {
            lemma_period_in_span(ps@, i2);
            assert(in_period(ssv[k], span));
        }
    }
    let r = PeriodReport { stats, grand: g, grand_total_seconds: gt };
    proof {
        lemma_grand_rows_sum(g@, ssv, stats_periods(stats@));
        assert(report_ok(r, ssv, now, periods as int, is_month));
    }
    r
}

/// Everything the `show` command reports: the open session with its elapsed
/// seconds, and either the periodic report or the recent closed sessions.
#[derive(Debug)]
pub struct ShowData {
    pub active: Option<(Session, i64)>,
    pub report: Option<PeriodReport>,
    pub recent: Vec<Session>,
}

impl Store {
    /// The `show` command's data: the open session if any, then either the
    /// periodic report (month or week mode) or the recent closed sessions.
    pub fn show(&self, now: Timestamp, count: usize, month: bool, week: bool) -> (r: ShowData)
        requires
            self.wf(),
            now.valid(),
            month || week ==> periods_fit(now, count as int, month),
        ensures
            r.active is Some <==> self.has_open(),
            r.active matches Some(a) ==> a.0@ == self.sessions@[self.open_idx()]@ && a.1
                == now.instant() - a.0@.start.instant(),
            month || week ==> (r.report matches Some(rep) && report_ok(
                rep,
                views(self.sessions@),
                now,
                count as int,
                month,
            )) && r.recent@.len() == 0,
            !(month || week) ==> r.report is None && crate::store::listing_ok(
                r.recent@,
                crate::store::closed_views(self.sessions@),
                count as int,
            ),
    {
        let active = match self.find_open() {
            None => None,
            Some(k) => {
                proof {
                    assert(self.sessions@[k as int]@.is_open());
                    assert(self.open_idx() == k as int);
                    assert(self.sessions@[k as int]@.valid());
                    lemma_instant_bounds(now);
                    lemma_instant_bounds(self.sessions@[k as int]@.start);
                }
                let s = self.sessions[k].duplicate();
                let el = now.instant_exec() - s.start.instant_exec();
                Some((s, el))
            },
        };
        if month || week {
            let rep = show_period_stats(self, now, count, month);
            ShowData { active, report: Some(rep), recent: Vec::new() }
        } else {
            ShowData { active, report: None, recent: self.recent(count) }
        }
    }
}


/// Week boundaries are sharp: a session starting exactly at a week's Monday
/// midnight belongs to that week, and one starting exactly at a period's
/// exclusive end is out of it and belongs to the following, newer period
/// when that period has begun.
pub proof fn lemma_week_boundary(
    ps: Seq<Period>,
    now: Timestamp,
    count: int,
    s: SessionV,
    i: int,
)
    requires
        periods_ok(ps, now, count, false),
        0 <= i < count,
        s.end is Some,
    ensures
        s.start.instant() == ps[i].start.instant() && s.start.instant() < ps[i].end.instant()
            ==> in_period(s, ps[i]),
        i >= 1 && s.start.instant() == ps[i].end.instant() && ps[i - 1].start.instant() < ps[i
            - 1].end.instant() ==> !in_period(s, ps[i]) && in_period(s, ps[i - 1]),
{
}

} // verus!
