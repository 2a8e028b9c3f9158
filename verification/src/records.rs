//! What the store decides about its records: how a restart closes open sessions and
//! interrupted work, which reports an erased range takes along, and which files a record owns.
//! Reading and writing the database and the files happens outside the library.
use vstd::prelude::*;
use crate::api::is_outstanding;
use crate::clock::{near_day, parsed_ymd, utc_midnight, DAY_MS};
use crate::models::{screen_files_of, Report, Sample, Session};
use crate::summary::bounds;
use crate::text::str_eq;

verus! {

broadcast use vstd::string::group_string_axioms;

/// Where a record's coverage ends: its evidence's end, or its capture plus its interval.
pub open spec fn coverage_end_of(s: Sample) -> int {
    match s.evidence {
        Some(e) => e.valid_until as int,
        None => s.captured_at + s.interval_seconds * 1000,
    }
}

/// The latest coverage end among the records of session `id`, if it has any.
pub open spec fn session_last(samples: Seq<Sample>, id: Seq<char>) -> Option<int>
    decreases samples.len(),
{
    if samples.len() == 0 {
        None
    } else {
        let rest = session_last(samples.drop_last(), id);
        let s = samples.last();
        if s.session_id@ == id {
            match rest {
                Some(m) => Some(if coverage_end_of(s) > m { coverage_end_of(s) } else { m }),
                None => Some(coverage_end_of(s)),
            }
        } else {
            rest
        }
    }
}

/// When a session left open by a stopped service ended: the end of its last record's
/// coverage (its start without records), but never after `now`.
pub open spec fn recovered_end_of(session: Session, samples: Seq<Sample>, now: i64) -> int {
    let last = match session_last(samples, session.id@) {
        Some(m) => m,
        None => session.started_at as int,
    };
    if last < now { last } else { now as int }
}

/// The end recorded for a session that was still open when the service stopped.
pub fn recovered_end(session: &Session, samples: &Vec<Sample>, now: i64) -> (r: i64)
    ensures
        r == recovered_end_of(*session, samples@, now),
{
    let mut last: Option<i128> = None;
    let n = samples.len();
    for i in 0..n
        invariant
            n == samples@.len(),
            match session_last(samples@.take(i as int), session.id@) {
                Some(m) => last matches Some(v) && v == m,
                None => last is None,
            },
            last matches Some(v) ==> i64::MIN <= v <= i64::MAX + 0x1_0000_0000 * 1000,
    {
        assert(samples@.take(i + 1).drop_last() =~= samples@.take(i as int));
        let s = &samples[i];
        if str_eq(s.session_id.as_str(), session.id.as_str()) {
            let end: i128 = match &s.evidence {
                Some(e) => e.valid_until as i128,
                None => s.captured_at as i128 + s.interval_seconds as i128 * 1000,
            };
            last = match last {
                Some(m) => Some(if end > m { end } else { m }),
                None => Some(end),
            };
        }
    }
    assert(samples@.take(n as int) =~= samples@);
    let last = match last {
        Some(m) => m,
        None => session.started_at as i128,
    };
    if last < now as i128 { last as i64 } else { now }
}

/// A record whose analysis a restart interrupted goes back to `pending` with a note; the
/// result says whether it changed.
pub fn reopen_interrupted(s: &mut Sample) -> (changed: bool)
    ensures
        changed == is_outstanding(*old(s)),
        changed ==> final(s).state@ == "pending"@ && (final(s).error matches Some(e) && e@ == "上次分析被中断，可重新分析"@)
            && *final(s) == (Sample { state: final(s).state, error: final(s).error, ..*old(s) }),
        !changed ==> *final(s) == *old(s),
{
    if str_eq(s.state.as_str(), "analyzing") || str_eq(s.state.as_str(), "queued") {
        s.state = String::from_str("pending");
        s.error = Some(String::from_str("上次分析被中断，可重新分析"));
        return true;
    }
    false
}

/// A report that a restart interrupted becomes an `error` with a note; the result says
/// whether it changed.
pub fn fail_interrupted(r: &mut Report) -> (changed: bool)
    ensures
        changed == (old(r).state@ == "generating"@),
        changed ==> final(r).state@ == "error"@ && (final(r).error matches Some(e) && e@ == "报告生成被中断，请重试"@)
            && *final(r) == (Report { state: final(r).state, error: final(r).error, ..*old(r) }),
        !changed ==> *final(r) == *old(r),
{
    if str_eq(r.state.as_str(), "generating") {
        r.state = String::from_str("error");
        r.error = Some(String::from_str("报告生成被中断，请重试"));
        return true;
    }
    false
}

/// A day `[d.0, d.1)` that was read overlaps `[start, end)`.
pub open spec fn day_overlaps(d: Option<(i64, i64)>, start: i64, end: i64) -> bool {
    match d {
        Some(b) => b.0 < end && b.1 > start,
        None => false,
    }
}

/// The positions among the first `n` days that overlap `[start, end)`, in order.
pub open spec fn overlap_indices(days: Seq<Option<(i64, i64)>>, start: i64, end: i64, n: int) -> Seq<usize>
    decreases n,
{
    if n <= 0 {
        Seq::empty()
    } else {
        let prev = overlap_indices(days, start, end, n - 1);
        if day_overlaps(days[n - 1], start, end) { prev.push((n - 1) as usize) } else { prev }
    }
}

/// The positions of the days, given as their `[start, end)` bounds (`None` where a day could not
/// be read), that overlap `[start, end)`, in order.
pub fn overlapping_days(days: &Vec<Option<(i64, i64)>>, start: i64, end: i64) -> (r: Vec<usize>)
    ensures
        r@ == overlap_indices(days@, start, end, days@.len() as int),
{
    let mut r: Vec<usize> = Vec::new();
    let n = days.len();
    for i in 0..n
        invariant
            n == days@.len(),
            r@ == overlap_indices(days@, start, end, i as int),
    {
        match days[i] {
            Some(b) => {
                if b.0 < end && b.1 > start {
                    r.push(i);
                }
            },
            None => {},
        }
    }
    r
}

/// `b` can be the local bounds of the day that `r` is about: its date is readable, and `b` lies
/// near that date's UTC midnights.
pub open spec fn report_day(r: Report, b: (i64, i64)) -> bool {
    parsed_ymd(r.date@) matches Some(d) && near_day(d, b)
}

/// `days` gives, for each report, the bounds that were read for its day: only a report with a
/// readable date has any, and they lie near its date.
pub open spec fn days_of_reports(reports: Seq<Report>, days: Seq<Option<(i64, i64)>>) -> bool {
    &&& days.len() == reports.len()
    &&& forall|i: int| 0 <= i < days.len() ==> match #[trigger] days[i] {
        Some(b) => report_day(reports[i], b),
        None => true,
    }
}

/// The report's date is readable and its day lies, in every time zone, wholly outside
/// `[start, end)`: a day before the range's end at the latest, or two days after its start.
pub open spec fn far_from_range(r: Report, start: i64, end: i64) -> bool {
    parsed_ymd(r.date@) matches Some(d) && (end <= utc_midnight(d.0, d.1, d.2) - DAY_MS
        || utc_midnight(d.0, d.1, d.2) + 2 * DAY_MS <= start)
}

/// The positions of the reports whose day overlaps `[start, end)`, in order; a report whose
/// date cannot be read is kept. Where a day begins and ends depends on the local time zone,
/// which the contract leaves unsaid (and a day whose midnight the zone skips cannot be read):
/// it states that the result is exactly the overlapping ones among the days as they were read,
/// and that only reports with a readable date are taken, each at most once, in order.
pub fn reports_to_erase(reports: &Vec<Report>, start: i64, end: i64) -> (r: Vec<usize>)
    ensures
        exists|days: Seq<Option<(i64, i64)>>| #[trigger] days_of_reports(reports@, days)
            && r@ == overlap_indices(days, start, end, days.len() as int),
        forall|k: int| 0 <= k < r@.len() ==> (#[trigger] r@[k]) < reports@.len()
            && parsed_ymd(reports@[r@[k] as int].date@) is Some,
        forall|a: int, b: int| 0 <= a < b < r@.len() ==> r@[a] < r@[b],
        forall|i: int| 0 <= i < reports@.len() && far_from_range(#[trigger] reports@[i], start, end)
            ==> !r@.contains(i as usize),
{
    let mut days: Vec<Option<(i64, i64)>> = Vec::new();
    let n = reports.len();
    for i in 0..n
        invariant
            n == reports@.len(),
            days@.len() == i,
            forall|j: int| 0 <= j < i ==> match #[trigger] days@[j] {
                Some(b) => report_day(reports@[j], b),
                None => true,
            },
    {
        match bounds(reports[i].date.as_str()) {
            Ok(b) => days.push(Some(b)),
            Err(_) => days.push(None),
        }
    }
    let r = overlapping_days(&days, start, end);
    proof {
        assert(days_of_reports(reports@, days@));
        lemma_overlap_indices(days@, start, end, n as int);
        assert forall|k: int| 0 <= k < r@.len() implies (#[trigger] r@[k]) < reports@.len()
            && parsed_ymd(reports@[r@[k] as int].date@) is Some by {
            assert(days@[r@[k] as int] is Some);
        }
        assert forall|i: int| 0 <= i < reports@.len() && far_from_range(#[trigger] reports@[i], start, end)
            implies !r@.contains(i as usize) by {
            if r@.contains(i as usize) {
                let k = choose|k: int| 0 <= k < r@.len() && r@[k] == i as usize;
                assert(day_overlaps(days@[r@[k] as int], start, end));
                assert(days@[i] is Some);
            }
        }
    }
    r
}

proof fn lemma_overlap_indices(days: Seq<Option<(i64, i64)>>, start: i64, end: i64, n: int)
    requires
        0 <= n <= days.len(),
        n <= usize::MAX,
    ensures
        forall|k: int| 0 <= k < overlap_indices(days, start, end, n).len()
            ==> (#[trigger] overlap_indices(days, start, end, n)[k]) < n
            && day_overlaps(days[overlap_indices(days, start, end, n)[k] as int], start, end),
        forall|a: int, b: int| 0 <= a < b < overlap_indices(days, start, end, n).len()
            ==> overlap_indices(days, start, end, n)[a] < overlap_indices(days, start, end, n)[b],
    decreases n,
{
    if n > 0 {
        lemma_overlap_indices(days, start, end, n - 1);
        let prev = overlap_indices(days, start, end, n - 1);
        let cur = overlap_indices(days, start, end, n);
        if day_overlaps(days[n - 1], start, end) {
            assert(cur == prev.push((n - 1) as usize));
            assert forall|k: int| 0 <= k < cur.len() implies (#[trigger] cur[k]) < n
                && day_overlaps(days[cur[k] as int], start, end) by {
                if k < prev.len() {
                    assert(cur[k] == prev[k]);
                }
            }
            assert forall|a: int, b: int| 0 <= a < b < cur.len() implies cur[a] < cur[b] by {
                assert(cur[a] == prev[a]);
                if b < prev.len() {
                    assert(cur[b] == prev[b]);
                }
            }
        } else {
            assert(cur == prev);
        }
    }
}

/// The picture files a record owns: its screenshots, then its legacy camera picture.
pub fn record_files(s: &Sample) -> (r: Vec<String>)
    ensures
        r@.map_values(|f: String| f@) == screen_files_of(*s) + match s.camera {
            Some(c) => seq![c@],
            None => Seq::<Seq<char>>::empty(),
        },
{
    let files = s.screen_files();
    let mut r: Vec<String> = Vec::new();
    let n = files.len();
    for i in 0..n
        invariant
            n == files@.len(),
            r@.map_values(|f: String| f@) =~= files@.take(i as int).map_values(|f: &str| f@),
    {
        let ghost before = r@.map_values(|f: String| f@);
        let f = String::from_str(files[i]);
        r.push(f);
        assert(r@.map_values(|f: String| f@) =~= before.push(files@[i as int]@));
        assert(files@.take(i + 1) =~= files@.take(i as int).push(files@[i as int]));
        assert(files@.take(i + 1).map_values(|f: &str| f@) =~= files@.take(i as int).map_values(|f: &str| f@).push(files@[i as int]@));
    }
    assert(files@.take(n as int) =~= files@);
    match &s.camera {
        Some(c) => {
            let ghost before = r@.map_values(|f: String| f@);
            r.push(c.clone());
            assert(r@.map_values(|f: String| f@) =~= before.push(c@));
        },
        None => {},
    }
    r
}

} // verus!
