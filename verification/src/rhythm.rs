//! Views across days reuse the daily estimate; they add no model calls and store nothing.
//! This module fixes which days a range covers and what each hour of a day contributes; the
//! averaging of work ratios across days is done outside the library.
use vstd::prelude::*;
use crate::clock::{date_text, days_after, days_before, local_clock, parse_ymd, parsed_ymd, shifted_back, shifted_forward, ymd_text};
use crate::flow::{hour_chunk, pointers_by_clock, readings_ok, reading_ok, rec, segments_fit, segments_readable, settle, walk, walk_start, HourTotals};
use crate::models::Sample;
use crate::summary::Segment;
use crate::text::str_eq;

verus! {

/// At least this many days must show an hour before it is compared.
pub const MIN_DAYS: usize = 3;

/// An hour counts on a day with at least ten judged minutes.
pub const MIN_JUDGED_SECONDS: i64 = 600;

/// A range of days ending on `date`: 7, 14 or 21 of them (7 unless given), of `live` data.
#[derive(Clone, Debug)]
pub struct RangeQuery {
    pub date: String,
    pub days: u32,
    pub mode: String,
}

/// The length of a range when none is given.
pub fn default_days() -> (r: u32)
    ensures
        r == 7,
{
    7
}

/// The data of a range when none is given.
pub fn default_mode() -> (r: String)
    ensures
        r@ == "live"@,
{
    String::from_str("live")
}

/// The first and last date of a range, or why there is none.
pub open spec fn range_plan(q: RangeQuery) -> Result<((i32, u32, u32), (i32, u32, u32)), Seq<char>> {
    if !(q.days == 7 || q.days == 14 || q.days == 21) {
        Err("请选择 7、14 或 21 天"@)
    } else if q.mode@ != "live"@ {
        Err("无效的数据类型"@)
    } else {
        match parsed_ymd(q.date@) {
            None => Err("日期格式应为 YYYY-MM-DD"@),
            Some(e) => match shifted_back(e.0, e.1, e.2, (q.days - 1) as u64) {
                None => Err("日期超出范围"@),
                Some(s) => Ok((s, e)),
            },
        }
    }
}

/// The dates of a range, as text: its first, its last, and each day, oldest first.
#[derive(Clone, Debug)]
pub struct RangeDates {
    pub start: String,
    pub end: String,
    pub dates: Vec<String>,
}

pub open spec fn out_of_range_message() -> Seq<char> {
    "日期超出范围"@
}

/// Day `k` after `start` is written `text`.
pub open spec fn day_listed(start: (i32, u32, u32), k: int, text: Seq<char>) -> bool {
    shifted_forward(start.0, start.1, start.2, k as u64) matches Some(x) && ymd_text(x.0, x.1, x.2) == Some(text)
}

/// Day `k` after `start` is a date that chrono can represent.
pub open spec fn day_reachable(start: (i32, u32, u32), k: int) -> bool {
    shifted_forward(start.0, start.1, start.2, k as u64) is Some
}

/// The days of the range that ends on `query.date`: listed whenever the range is valid and
/// chrono can represent each of its days.
pub fn range_dates(query: &RangeQuery) -> (r: Result<RangeDates, String>)
    ensures
        r is Ok <==> (range_plan(*query) matches Ok((s, e))
            && forall|k: int| 0 <= k < query.days ==> #[trigger] day_reachable(s, k)),
        range_plan(*query) matches Err(e) ==> (r matches Err(m) && m@ == e),
        range_plan(*query) is Ok ==> (r matches Err(m) ==> m@ == out_of_range_message()),
        r matches Ok(rd) ==> (range_plan(*query) matches Ok((s, e)) && {
            &&& ymd_text(s.0, s.1, s.2) == Some(rd.start@)
            &&& ymd_text(e.0, e.1, e.2) == Some(rd.end@)
            &&& rd.dates@.len() == query.days
            &&& forall|k: int| 0 <= k < rd.dates@.len() ==> day_listed(s, k, (#[trigger] rd.dates@[k])@)
        }),
{
    let days = query.days;
    if !(days == 7 || days == 14 || days == 21) {
        return Err(String::from_str("请选择 7、14 或 21 天"));
    }
    if !str_eq(query.mode.as_str(), "live") {
        return Err(String::from_str("无效的数据类型"));
    }
    let e = match parse_ymd(query.date.as_str()) {
        None => {
            return Err(String::from_str("日期格式应为 YYYY-MM-DD"));
        },
        Some(e) => e,
    };
    let s = match days_before(e.0, e.1, e.2, (days - 1) as u64) {
        None => {
            return Err(String::from_str("日期超出范围"));
        },
        Some(s) => s,
    };
    let start = match date_text(s.0, s.1, s.2) {
        None => {
            return Err(String::from_str("日期超出范围"));
        },
        Some(t) => t,
    };
    let end = match date_text(e.0, e.1, e.2) {
        None => {
            return Err(String::from_str("日期超出范围"));
        },
        Some(t) => t,
    };
    let mut dates: Vec<String> = Vec::new();
    for offset in 0..days
        invariant
            range_plan(*query) == Ok::<((i32, u32, u32), (i32, u32, u32)), Seq<char>>((s, e)),
            ymd_text(s.0, s.1, s.2) == Some(start@),
            ymd_text(e.0, e.1, e.2) == Some(end@),
            days == query.days,
            dates@.len() == offset,
            forall|k: int| 0 <= k < dates@.len() ==> day_listed(s, k, (#[trigger] dates@[k])@),
    {
        let day = match days_after(s.0, s.1, s.2, offset as u64) {
            None => {
                assert(!day_reachable(s, offset as int));
                return Err(String::from_str("日期超出范围"));
            },
            Some(t) => t,
        };
        match date_text(day.0, day.1, day.2) {
            None => {
                return Err(String::from_str("日期超出范围"));
            },
            Some(t) => {
                let ghost prev = dates@;
                dates.push(t);
                assert forall|k: int| 0 <= k < dates@.len() implies day_listed(s, k, (#[trigger] dates@[k])@) by {
                    if k < prev.len() {
                        assert(dates@[k] == prev[k]);
                    }
                }
            },
        }
    }
    proof {
        assert forall|k: int| 0 <= k < days implies #[trigger] day_reachable(s, k) by {
            assert(day_listed(s, k, dates@[k]@));
        }
    }
    Ok(RangeDates { start, end, dates })
}

/// The positions of the records captured before `end`, in order.
pub fn indices_before(samples: &Vec<Sample>, end: i64) -> (r: Vec<usize>)
    ensures
        forall|k: int| 0 <= k < r@.len() ==> (#[trigger] r@[k]) < samples@.len() && samples@[r@[k] as int].captured_at < end,
        forall|a: int, b: int| 0 <= a < b < r@.len() ==> r@[a] < r@[b],
        forall|j: int| 0 <= j < samples@.len() && (#[trigger] samples@[j]).captured_at < end ==> r@.contains(j as usize),
{
    let mut r: Vec<usize> = Vec::new();
    let n = samples.len();
    for i in 0..n
        invariant
            n == samples@.len(),
            forall|k: int| 0 <= k < r@.len() ==> (#[trigger] r@[k]) < i && samples@[r@[k] as int].captured_at < end,
            forall|a: int, b: int| 0 <= a < b < r@.len() ==> r@[a] < r@[b],
            forall|j: int| 0 <= j < i && (#[trigger] samples@[j]).captured_at < end ==> r@.contains(j as usize),
    {
        if samples[i].captured_at < end {
            let ghost prev = r@;
            r.push(i);
            assert(r@ =~= prev.push(i));
            assert forall|j: int| 0 <= j < i + 1 && (#[trigger] samples@[j]).captured_at < end implies r@.contains(j as usize) by {
                if j == i {
                    assert(r@[r@.len() - 1] == i);
                } else {
                    assert(prev.contains(j as usize));
                    let w = choose|w: int| 0 <= w < prev.len() && prev[w] == j as usize;
                    assert(r@[w] == j as usize);
                }
            }
        }
    }
    r
}

/// What one local hour of one day contributes: its work and judged seconds, and whether it
/// has enough judged time to count.
#[derive(Clone, Debug)]
pub struct HourCell {
    pub eligible: bool,
    pub judged_seconds: i64,
    pub work_seconds: i64,
}

/// The hours of a day in seconds: judged time is work plus distraction, each in whole seconds.
pub fn hour_cells(hours: &Vec<HourTotals>) -> (r: Vec<HourCell>)
    requires
        forall|k: int| 0 <= k < hours@.len() ==> 0 <= (#[trigger] hours@[k]).work && 0 <= hours@[k].distracted,
    ensures
        r@.len() == hours@.len(),
        forall|k: int| 0 <= k < r@.len() ==> {
            &&& (#[trigger] r@[k]).work_seconds == hours@[k].work / 1000
            &&& r@[k].judged_seconds == hours@[k].work / 1000 + hours@[k].distracted / 1000
            &&& r@[k].eligible == (r@[k].judged_seconds >= MIN_JUDGED_SECONDS)
        },
{
    let mut r: Vec<HourCell> = Vec::new();
    let n = hours.len();
    for i in 0..n
        invariant
            n == hours@.len(),
            forall|k: int| 0 <= k < hours@.len() ==> 0 <= (#[trigger] hours@[k]).work && 0 <= hours@[k].distracted,
            r@.len() == i,
            forall|k: int| 0 <= k < r@.len() ==> {
                &&& (#[trigger] r@[k]).work_seconds == hours@[k].work / 1000
                &&& r@[k].judged_seconds == hours@[k].work / 1000 + hours@[k].distracted / 1000
                &&& r@[k].eligible == (r@[k].judged_seconds >= MIN_JUDGED_SECONDS)
            },
    {
        let h = hours[i];
        let work = h.work / 1000;
        let judged = work + h.distracted / 1000;
        r.push(HourCell { eligible: judged >= MIN_JUDGED_SECONDS, judged_seconds: judged, work_seconds: work });
    }
    r
}

/// Some segment takes time.
pub open spec fn has_nonempty(segs: Seq<Segment>) -> bool {
    exists|j: int| 0 <= j < segs.len() && (#[trigger] segs[j]).start < segs[j].end
}

proof fn lemma_nonempty_step(segs: Seq<Segment>)
    requires
        segs.len() > 0,
    ensures
        has_nonempty(segs) == (has_nonempty(segs.drop_last()) || segs.last().start < segs.last().end),
{
    let init = segs.drop_last();
    if has_nonempty(segs) {
        let j = choose|j: int| 0 <= j < segs.len() && (#[trigger] segs[j]).start < segs[j].end;
        if j < init.len() {
            assert(init[j] == segs[j]);
        }
    }
    if has_nonempty(init) {
        let j = choose|j: int| 0 <= j < init.len() && (#[trigger] init[j]).start < init[j].end;
        assert(segs[j] == init[j]);
    }
    if segs.last().start < segs.last().end {
        assert(segs[segs.len() - 1] == segs.last());
    }
}

/// For each local hour, the first segment that reaches into it and the instant it does,
/// walking the segments in order and cutting them at local hour boundaries. Which hour an
/// instant falls in depends on the machine's time zone, which the contract leaves unsaid;
/// it states that every pointer lies inside its segment, and that some hour has a pointer
/// once some segment is not empty. `None` where the local clock cannot read some instant,
/// which never happens while every segment lies within `CLOCK_RANGE`.
pub fn hour_pointers(segments: &Vec<Segment>, records: &Vec<Sample>) -> (r: Option<Vec<Option<(usize, i64)>>>)
    requires
        segments_fit(segments@, records@),
    ensures
        r matches Some(v) ==> v@.len() == 24 && forall|h: int| 0 <= h < 24 ==> ((#[trigger] v@[h]) matches Some(p)
            ==> p.0 < segments@.len() && segments@[p.0 as int].start <= p.1 < segments@[p.0 as int].end),
        r matches Some(v) ==> (has_nonempty(segments@) ==> exists|h: int| 0 <= h < 24 && (#[trigger] v@[h]) is Some),
        segments_readable(segments@) ==> r is Some,
        r matches Some(v) ==> pointers_by_clock(segments@, v@),
{
    let mut v: Vec<Option<(usize, i64)>> = Vec::new();
    for h in 0..24usize
        invariant
            v@.len() == h,
            forall|x: int| 0 <= x < h ==> (#[trigger] v@[x]) is None,
    {
        v.push(None);
    }
    let n = segments.len();
    let ghost segs = segments@;
    let ghost mut rs: Seq<(u32, u32, u32, u32)> = Seq::empty();
    assert(v@ =~= walk_start(segs).pointers);
    for k in 0..n
        invariant
            n == segments@.len(),
            segs == segments@,
            segments_fit(segments@, records@),
            readings_ok(rs),
            walk(segs, rs).pointers == v@,
            k < n ==> walk(segs, rs).pos == settle(segs, k as int, segs[k as int].start),
            k == n ==> walk(segs, rs).pos.0 >= n,
            v@.len() == 24,
            forall|h: int| 0 <= h < 24 ==> ((#[trigger] v@[h]) matches Some(p)
                ==> p.0 < segments@.len() && segments@[p.0 as int].start <= p.1 < segments@[p.0 as int].end),
            has_nonempty(segments@.take(k as int)) ==> exists|h: int| 0 <= h < 24 && (#[trigger] v@[h]) is Some,
    {
        let s = segments[k];
        assert(crate::policy::time_ok(s.start) && crate::policy::time_ok(s.end));
        let mut t = s.start;
        while t < s.end
            invariant
                k < n == segments@.len(),
                s == segments@[k as int],
                s.start <= t <= s.end,
                crate::policy::time_ok(s.start),
                crate::policy::time_ok(s.end),
                v@.len() == 24,
                forall|h: int| 0 <= h < 24 ==> ((#[trigger] v@[h]) matches Some(p)
                    ==> p.0 < segments@.len() && segments@[p.0 as int].start <= p.1 < segments@[p.0 as int].end),
                has_nonempty(segments@.take(k as int)) || s.start < t ==> exists|h: int| 0 <= h < 24 && (#[trigger] v@[h]) is Some,
                segs == segments@,
                readings_ok(rs),
                walk(segs, rs).pointers == v@,
                walk(segs, rs).pos == settle(segs, k as int, t),
            decreases s.end - t,
        {
            let reading = match local_clock(t) {
                None => {
                    return None;
                },
                Some(c) => c,
            };
            let (hour, stop) = hour_chunk(t, s.end, reading);
            if v[hour].is_none() {
                v.set(hour, Some((k, t)));
            }
            assert(v@[hour as int] is Some);
            proof {
                let nrs = rs.push(reading);
                assert(nrs.drop_last() =~= rs);
                assert(nrs.last() == reading);
                assert(settle(segs, k as int, t) == (k as int, t));
                assert(walk(segs, nrs).pointers =~= v@);
                assert forall|i: int| 0 <= i < nrs.len() implies reading_ok(#[trigger] nrs[i]) by {
                    if i < rs.len() {
                        assert(nrs[i] == rs[i]);
                    }
                }
                rs = nrs;
            }
            t = stop;
        }
        proof {
            if k + 1 < n {
                assert(settle(segs, k as int, t) == settle(segs, k + 1, segs[k + 1].start));
            } else {
                assert(settle(segs, k as int, t) == (k + 1, t));
            }
            let nx = segments@.take(k + 1);
            assert(nx.drop_last() =~= segments@.take(k as int));
            assert(nx.last() == s);
            lemma_nonempty_step(nx);
        }
    }
    assert(segments@.take(n as int) =~= segments@);
    Some(v)
}


// ---------------------------------------------------------------- comparing hours across days

/// The hours, in order, among the first `n`, with at least `MIN_DAYS` eligible days.
pub open spec fn comparable(eligible_days: Seq<usize>, n: int) -> Seq<usize>
    decreases n,
{
    if n <= 0 {
        Seq::empty()
    } else if eligible_days[n - 1] >= MIN_DAYS {
        comparable(eligible_days, n - 1).push((n - 1) as usize)
    } else {
        comparable(eligible_days, n - 1)
    }
}

/// The hours to compare: those with at least `MIN_DAYS` eligible days, given each hour's
/// count of eligible days.
pub fn comparable_hours(eligible_days: &Vec<usize>) -> (r: Vec<usize>)
    ensures
        r@ == comparable(eligible_days@, eligible_days@.len() as int),
{
    let mut r: Vec<usize> = Vec::new();
    let n = eligible_days.len();
    for h in 0..n
        invariant
            n == eligible_days@.len(),
            r@ == comparable(eligible_days@, h as int),
    {
        if eligible_days[h] >= MIN_DAYS {
            r.push(h);
        }
    }
    r
}

/// How many of the first `n` days have observed time.
pub open spec fn days_with_time(observed: Seq<i64>, n: int) -> int
    decreases n,
{
    if n <= 0 { 0 } else { days_with_time(observed, n - 1) + if observed[n - 1] > 0 { 1int } else { 0 } }
}

/// The number of recorded days: those with observed time.
pub fn recorded_days(observed_seconds: &Vec<i64>) -> (r: usize)
    ensures
        r == days_with_time(observed_seconds@, observed_seconds@.len() as int),
{
    let mut r: usize = 0;
    let n = observed_seconds.len();
    for i in 0..n
        invariant
            n == observed_seconds@.len(),
            r == days_with_time(observed_seconds@, i as int),
            r <= i,
    {
        if observed_seconds[i] > 0 {
            r = r + 1;
        }
    }
    r
}

/// What a range can say about its best hour.
#[derive(Clone, Copy, Debug, PartialEq, Eq, Structural)]
pub enum RangeStatus {
    /// Fewer than two hours can be compared.
    Insufficient,
    /// The best hour stands out from the worst.
    Ready,
    /// The hours are too close to name a best one.
    Similar,
}

/// The status of a range with `comparable` hours to compare, where `contrast` says whether the
/// best hour's work share stands out from the worst's: insufficient below two hours.
pub fn range_status(comparable: usize, contrast: bool) -> (r: RangeStatus)
    ensures
        r == if comparable < 2 { RangeStatus::Insufficient } else if contrast { RangeStatus::Ready } else { RangeStatus::Similar },
{
    if comparable < 2 {
        RangeStatus::Insufficient
    } else if contrast {
        RangeStatus::Ready
    } else {
        RangeStatus::Similar
    }
}

impl RangeStatus {
    /// The status as the page reads it.
    pub fn label(&self) -> (r: &'static str)
        ensures
            *self == RangeStatus::Insufficient ==> r@ == "insufficient"@,
            *self == RangeStatus::Ready ==> r@ == "ready"@,
            *self == RangeStatus::Similar ==> r@ == "similar"@,
    {
        match self {
            RangeStatus::Insufficient => "insufficient",
            RangeStatus::Ready => "ready",
            RangeStatus::Similar => "similar",
        }
    }
}

} // verus!
