//! The daily estimator: coverage from observations, judgments carried between screenshots.
//!
//! Measured coverage is kept apart from the state estimated between screenshots.
use vstd::prelude::*;
use crate::clock::{day_after, local_midnight, near_day, next_day, parse_ymd, parsed_ymd};
use crate::models::{category_of, is_local, Category, Sample, Session};
use crate::policy::{time_ok, JUDGMENT_TTL_MS, OBSERVATION_GAP_MS, TIME_LIMIT};
use crate::text::str_eq;

verus! {

/// Timer drift tolerated between two records without local evidence.
pub const SAMPLE_JITTER_MS: i64 = 1_000;

/// A stretch of the day with one category. `sample` indexes the day's records; where the
/// category is carried over from an earlier screenshot, `estimated_from` indexes it.
#[derive(Clone, Copy, Debug, PartialEq, Eq, Structural)]
pub struct Segment {
    pub start: i64,
    pub end: i64,
    pub category: Category,
    pub sample: usize,
    pub estimated_from: Option<usize>,
}

/// How many counted records were in one state.
#[derive(Clone, Debug)]
pub struct StateCount {
    pub state: String,
    pub count: u32,
}

/// The estimate for one day. `records` are the records that the segments index.
pub struct Day {
    pub date: String,
    pub mode: String,
    pub records: Vec<Sample>,
    pub segments: Vec<Segment>,
    pub counts: Vec<StateCount>,
    pub work_seconds: i64,
    pub distracted_seconds: i64,
    pub away_seconds: i64,
    pub local_seconds: i64,
    pub ai_observed_seconds: i64,
    pub unknown_seconds: i64,
    pub observed_seconds: i64,
    pub unobserved_seconds: i64,
    pub longest_work_seconds: i64,
}

// ---------------------------------------------------------------- day bounds

pub open spec fn bad_date_message() -> Seq<char> {
    "日期格式应为 YYYY-MM-DD"@
}

pub open spec fn invalid_date_message() -> Seq<char> {
    "日期无效"@
}

proof fn lemma_date_messages_differ()
    ensures
        bad_date_message() != invalid_date_message(),
{
    reveal_strlit("日期格式应为 YYYY-MM-DD");
    reveal_strlit("日期无效");
    assert(bad_date_message().len() != invalid_date_message().len());
}

/// The local midnights that start `date` (`YYYY-MM-DD`) and the day after it.
pub fn bounds(date: &str) -> (r: Result<(i64, i64), String>)
    ensures
        parsed_ymd(date@) is None ==> (r matches Err(e) && e@ == bad_date_message()),
        (parsed_ymd(date@) matches Some(d) && day_after(d.0, d.1, d.2) is None)
            ==> (r matches Err(e) && e@ == invalid_date_message()),
        r is Ok ==> (parsed_ymd(date@) matches Some(d) && day_after(d.0, d.1, d.2) is Some),
        r matches Ok(b) ==> time_ok(b.0) && time_ok(b.1),
        r matches Ok(b) ==> (parsed_ymd(date@) matches Some(d) && near_day(d, b)),
        r matches Err(e) ==> e@ == bad_date_message() || e@ == invalid_date_message(),
        r matches Err(e) ==> (e@ == bad_date_message() <==> parsed_ymd(date@) is None),
{
    proof {
        lemma_date_messages_differ();
    }
    let (y, m, d) = match parse_ymd(date) {
        Some(t) => t,
        None => return Err(String::from_str("日期格式应为 YYYY-MM-DD")),
    };
    let start = match local_midnight(y, m, d) {
        Some(t) => t,
        None => return Err(String::from_str("日期无效")),
    };
    let (y2, m2, d2) = match next_day(y, m, d) {
        Some(t) => t,
        None => return Err(String::from_str("日期无效")),
    };
    let end = match local_midnight(y2, m2, d2) {
        Some(t) => t,
        None => return Err(String::from_str("日期无效")),
    };
    Ok((start, end))
}

// ---------------------------------------------------------------- time order

/// Where a record taken at `t` goes in `order` (already in time order): after every record
/// taken at `t` or earlier.
pub open spec fn insertion_point(samples: Seq<Sample>, order: Seq<usize>, t: i64, j: int) -> int
    decreases j,
{
    if j <= 0 {
        0
    } else if samples[order[j - 1] as int].captured_at > t {
        insertion_point(samples, order, t, j - 1)
    } else {
        j
    }
}

/// The indices of the first `n` records of mode `mode`, stably sorted by capture time.
pub open spec fn time_order(samples: Seq<Sample>, mode: Seq<char>, n: int) -> Seq<usize>
    decreases n,
{
    if n <= 0 {
        Seq::empty()
    } else {
        let prev = time_order(samples, mode, n - 1);
        if samples[n - 1].mode@ == mode {
            let k = insertion_point(samples, prev, samples[n - 1].captured_at, prev.len() as int);
            prev.insert(k, (n - 1) as usize)
        } else {
            prev
        }
    }
}

pub open spec fn order_in_bounds(order: Seq<usize>, n: int) -> bool {
    forall|p: int| 0 <= p < order.len() ==> order[p] < n
}

pub open spec fn order_sorted(samples: Seq<Sample>, order: Seq<usize>) -> bool {
    forall|p: int, q: int|
        0 <= p < q < order.len() ==> samples[order[p] as int].captured_at <= samples[order[q] as int].captured_at
}

proof fn lemma_insertion_point(samples: Seq<Sample>, order: Seq<usize>, t: i64, j: int)
    requires
        0 <= j <= order.len(),
        order_in_bounds(order, samples.len() as int),
        order_sorted(samples, order),
    ensures
        0 <= insertion_point(samples, order, t, j) <= j,
        forall|p: int| 0 <= p < insertion_point(samples, order, t, j) ==> samples[order[p] as int].captured_at <= t,
        forall|p: int| insertion_point(samples, order, t, j) <= p < j ==> samples[order[p] as int].captured_at > t,
    decreases j,
{
    if j > 0 {
        lemma_insertion_point(samples, order, t, j - 1);
    }
}

proof fn lemma_time_order(samples: Seq<Sample>, mode: Seq<char>, n: int)
    requires
        0 <= n <= samples.len(),
        n <= usize::MAX,
    ensures
        order_in_bounds(time_order(samples, mode, n), n),
        order_sorted(samples, time_order(samples, mode, n)),
        forall|p: int| 0 <= p < time_order(samples, mode, n).len()
            ==> samples[time_order(samples, mode, n)[p] as int].mode@ == mode,
        time_order(samples, mode, n).len() <= n,
    decreases n,
{
    if n > 0 {
        lemma_time_order(samples, mode, n - 1);
        let prev = time_order(samples, mode, n - 1);
        if samples[n - 1].mode@ == mode {
            let t = samples[n - 1].captured_at;
            lemma_insertion_point(samples, prev, t, prev.len() as int);
            let k = insertion_point(samples, prev, t, prev.len() as int);
            let x = (n - 1) as usize;
            let next = prev.insert(k, x);
            assert forall|p: int| 0 <= p < next.len() implies
                (p < k ==> next[p] == prev[p]) && (p == k ==> next[p] == x)
                    && (p > k ==> next[p] == prev[p - 1]) by {}
            assert forall|p: int, q: int| 0 <= p < q < next.len() implies
                samples[next[p] as int].captured_at <= samples[next[q] as int].captured_at by {
                if q < k {
                    assert(next[p] == prev[p] && next[q] == prev[q]);
                } else if q == k {
                    assert(next[p] == prev[p]);
                    assert(samples[prev[p] as int].captured_at <= t);
                } else if p < k {
                    assert(next[p] == prev[p] && next[q] == prev[q - 1]);
                    assert(samples[prev[p] as int].captured_at <= samples[prev[q - 1] as int].captured_at);
                } else if p == k {
                    assert(next[q] == prev[q - 1]);
                    assert(samples[prev[q - 1] as int].captured_at > t);
                } else {
                    assert(next[p] == prev[p - 1] && next[q] == prev[q - 1]);
                    assert(samples[prev[p - 1] as int].captured_at <= samples[prev[q - 1] as int].captured_at);
                }
            }
            assert forall|p: int| 0 <= p < next.len() implies
                next[p] < n && samples[next[p] as int].mode@ == mode by {
                if p < k {
                    assert(next[p] == prev[p]);
                } else if p > k {
                    assert(next[p] == prev[p - 1]);
                }
            }
        }
    }
}

/// The indices of the records of mode `mode`, stably sorted by capture time.
fn sort_by_time(samples: &Vec<Sample>, mode: &str) -> (order: Vec<usize>)
    ensures
        order@ == time_order(samples@, mode@, samples@.len() as int),
{
    let mut order: Vec<usize> = Vec::new();
    let n = samples.len();
    for i in 0..n
        invariant
            n == samples@.len(),
            order@ == time_order(samples@, mode@, i as int),
    {
        proof {
            lemma_time_order(samples@, mode@, i as int);
        }
        if str_eq(samples[i].mode.as_str(), mode) {
            let t = samples[i].captured_at;
            let mut j = order.len();
            while j > 0 && samples[order[j - 1]].captured_at > t
                invariant
                    n == samples@.len(),
                    i < n,
                    order@ == time_order(samples@, mode@, i as int),
                    order_in_bounds(order@, i as int),
                    j <= order@.len(),
                    insertion_point(samples@, order@, t, order@.len() as int)
                        == insertion_point(samples@, order@, t, j as int),
                decreases j,
            {
                j = j - 1;
            }
            order.insert(j, i);
        }
    }
    order
}

// ---------------------------------------------------------------- the scan

pub open spec fn min_i64(a: i64, b: i64) -> i64 {
    if a <= b { a } else { b }
}

pub open spec fn max_i64(a: i64, b: i64) -> i64 {
    if a >= b { a } else { b }
}

/// The index of the last session named `id` among the first `n`, or -1.
pub open spec fn last_session(sessions: Seq<Session>, id: Seq<char>, n: int) -> int
    decreases n,
{
    if n <= 0 {
        -1
    } else if sessions[n - 1].id@ == id {
        n - 1
    } else {
        last_session(sessions, id, n - 1)
    }
}

/// When the session of a record stopped: its end, or `now` while it runs or is unknown.
pub open spec fn session_stop(sessions: Seq<Session>, id: Seq<char>, now: i64) -> i64 {
    let k = last_session(sessions, id, sessions.len() as int);
    if k >= 0 && sessions[k].ended_at is Some {
        sessions[k].ended_at->0
    } else {
        now
    }
}

/// Where a record's own coverage ends: where its evidence stops, or one interval later.
pub open spec fn nominal_end(s: Sample) -> i64 {
    match s.evidence {
        Some(e) => e.valid_until,
        None => (s.captured_at + s.interval_seconds * 1000) as i64,
    }
}

pub open spec fn pause_trigger(t: Seq<char>) -> bool {
    ||| t == "locked"@
    ||| t == "excluded"@
    ||| t == "screen_permission"@
    ||| t == "unavailable"@
    ||| t == "capture_failed"@
    ||| t == "model_unavailable"@
}

/// A record that must not carry a judgment: away, paused, failed, or skipped.
pub open spec fn is_blocked(s: Sample) -> bool {
    ||| (s.evidence matches Some(e) && (e.away || pause_trigger(e.trigger@)))
    ||| s.state@ == "error"@
    ||| s.state@ == "skipped"@
}

/// A model judgment or a user correction exists, and the record is no local check.
pub open spec fn is_completed(s: Sample) -> bool {
    !is_local(s) && (s.analysis is Some || s.correction is Some)
}

pub open spec fn is_judged(c: Category) -> bool {
    c == Category::Work || c == Category::Distracted
}

/// A state count with `state` added once.
pub open spec fn bump(counts: Seq<StateCount>, state: String) -> Seq<StateCount>
    decreases counts.len(),
{
    if counts.len() == 0 {
        seq![StateCount { state, count: 1 }]
    } else if counts[0].state@ == state@ {
        seq![StateCount { state: counts[0].state, count: (counts[0].count + 1) as u32 }] + counts.drop_first()
    } else {
        seq![counts[0]] + bump(counts.drop_first(), state)
    }
}

/// The estimator's state after some records.
pub struct Scan {
    pub estimate: Option<usize>,
    pub previous_end: i64,
    pub previous_session: Seq<char>,
    pub observed: int,
    pub local: int,
    pub counts: Seq<StateCount>,
    pub segments: Seq<Segment>,
}

pub open spec fn initial_scan() -> Scan {
    Scan {
        estimate: None,
        previous_end: 0,
        previous_session: Seq::empty(),
        observed: 0,
        local: 0,
        counts: Seq::empty(),
        segments: Seq::empty(),
    }
}

/// The inputs of one day's estimate.
pub struct Inputs {
    pub samples: Seq<Sample>,
    pub order: Seq<usize>,
    pub sessions: Seq<Session>,
    pub now: i64,
    pub start: i64,
    pub end: i64,
}

/// The capture time of the record after position `p`, or `i64::MAX` after the last.
pub open spec fn next_capture(inp: Inputs, p: int) -> i64 {
    if p + 1 < inp.order.len() {
        inp.samples[inp.order[p + 1] as int].captured_at
    } else {
        i64::MAX
    }
}

/// Where the coverage of the record at position `p` ends: its own end, clipped by the next
/// record, its session's stop, the end of the day and now.
pub open spec fn coverage_end(inp: Inputs, p: int) -> i64 {
    let s = inp.samples[inp.order[p] as int];
    min_i64(min_i64(min_i64(min_i64(nominal_end(s), next_capture(inp, p)),
        session_stop(inp.sessions, s.session_id@, inp.now)), inp.end), inp.now)
}

/// The judgment that may still be carried after the record at position `p` was seen.
pub open spec fn carried_estimate(inp: Inputs, sc: Scan, p: int) -> Option<usize> {
    let i = inp.order[p];
    let s = inp.samples[i as int];
    let kept = if s.session_id@ != sc.previous_session
        || s.captured_at - sc.previous_end > OBSERVATION_GAP_MS
        || is_blocked(s)
        || s.evidence is None
    {
        None
    } else {
        sc.estimate
    };
    if is_completed(s) {
        if !is_blocked(s) && s.evidence is Some && is_judged(category_of(s)) {
            Some(i)
        } else {
            None
        }
    } else {
        kept
    }
}

/// The segments that the record at position `p` adds, covering `a..b`.
///
/// A carried judgment covers the start of the stretch, up to two minutes after its own
/// screenshot; the rest keeps the record's category, where a screenshot's own judgment
/// has also expired and so counts as unknown.
pub open spec fn new_segments(inp: Inputs, sc: Scan, p: int, a: i64, b: i64) -> Seq<Segment> {
    let i = inp.order[p];
    let s = inp.samples[i as int];
    let est = carried_estimate(inp, sc, p);
    let category = if is_completed(s) && s.evidence is Some && is_judged(category_of(s)) {
        Category::Unknown
    } else {
        category_of(s)
    };
    let plain = seq![Segment { start: a, end: b, category, sample: i, estimated_from: None }];
    match est {
        Some(src) => {
            let deadline = inp.samples[src as int].captured_at + JUDGMENT_TTL_MS;
            if !is_blocked(s) && a < deadline {
                let until = min_i64(b, deadline as i64);
                let first = Segment {
                    start: a,
                    end: until,
                    category: category_of(inp.samples[src as int]),
                    sample: i,
                    estimated_from: if !is_completed(s) { Some(src) } else { None },
                };
                if until == b {
                    seq![first]
                } else {
                    seq![first, Segment { start: until, end: b, category, sample: i, estimated_from: None }]
                }
            } else {
                plain
            }
        },
        None => plain,
    }
}

/// One step of the estimator, for the record at position `p` of the time order.
pub open spec fn scan_step(inp: Inputs, sc: Scan, p: int) -> Scan {
    let s = inp.samples[inp.order[p] as int];
    let b = coverage_end(inp, p);
    let a = max_i64(s.captured_at, inp.start);
    let est = carried_estimate(inp, sc, p);
    let previous_end = max_i64(b, s.captured_at);
    if b <= a {
        Scan { estimate: est, previous_end, previous_session: s.session_id@, ..sc }
    } else {
        Scan {
            estimate: est,
            previous_end,
            previous_session: s.session_id@,
            observed: sc.observed + (b - a),
            local: if is_local(s) { sc.local + (b - a) } else { sc.local },
            counts: bump(sc.counts, s.state),
            segments: sc.segments + new_segments(inp, sc, p, a, b),
        }
    }
}

/// The estimator's state after the first `p` records of the time order.
pub open spec fn scan(inp: Inputs, p: int) -> Scan
    decreases p,
{
    if p <= 0 {
        initial_scan()
    } else {
        scan_step(inp, scan(inp, p - 1), p - 1)
    }
}

// ---------------------------------------------------------------- totals

/// Running totals over segments, in milliseconds.
pub struct Tally {
    pub work: int,
    pub distracted: int,
    pub away: int,
    pub unknown: int,
    pub longest: int,
    pub run: int,
    pub prev_end: i64,
    pub prev_session: Seq<char>,
}

/// Work segments join one run when they are in one session and the gap between them is
/// within the timer drift (ten seconds where local evidence continues the record).
pub open spec fn tally_step(samples: Seq<Sample>, t: Tally, seg: Segment) -> Tally {
    let n = seg.end - seg.start;
    let s = samples[seg.sample as int];
    let base = Tally { prev_end: seg.end, prev_session: s.session_id@, ..t };
    match seg.category {
        Category::Work => {
            let jitter = if s.evidence is Some { OBSERVATION_GAP_MS } else { SAMPLE_JITTER_MS };
            let run = if s.session_id@ == t.prev_session && seg.start - t.prev_end <= jitter {
                t.run + n
            } else {
                n
            };
            Tally {
                work: t.work + n,
                run,
                longest: if t.longest >= run { t.longest } else { run },
                ..base
            }
        },
        Category::Distracted => Tally { distracted: t.distracted + n, run: 0, ..base },
        Category::Away => Tally { away: t.away + n, run: 0, ..base },
        Category::Unknown => Tally { unknown: t.unknown + n, run: 0, ..base },
    }
}

pub open spec fn tally(samples: Seq<Sample>, segs: Seq<Segment>) -> Tally
    decreases segs.len(),
{
    if segs.len() == 0 {
        Tally {
            work: 0,
            distracted: 0,
            away: 0,
            unknown: 0,
            longest: 0,
            run: 0,
            prev_end: 0,
            prev_session: Seq::empty(),
        }
    } else {
        tally_step(samples, tally(samples, segs.drop_last()), segs.last())
    }
}

/// From the start of the first segment to the end of the last.
pub open spec fn span(segs: Seq<Segment>) -> int {
    if segs.len() == 0 {
        0
    } else {
        segs.last().end - segs[0].start
    }
}

} // verus!

verus! {

// ---------------------------------------------------------------- shape of the scan

pub open spec fn sum_len(segs: Seq<Segment>) -> int
    decreases segs.len(),
{
    if segs.len() == 0 {
        0
    } else {
        sum_len(segs.drop_last()) + (segs.last().end - segs.last().start)
    }
}

/// Where the covered time so far ends: the end of the last segment, or `start`.
pub open spec fn frontier(segs: Seq<Segment>, start: i64) -> int {
    if segs.len() == 0 {
        start as int
    } else {
        segs.last().end as int
    }
}

/// Segments are non-empty, in time order without overlap, and inside `start..limit`.
pub open spec fn segments_ordered(segs: Seq<Segment>, start: i64, limit: i64) -> bool {
    &&& forall|k: int| 0 <= k < segs.len() ==> start <= #[trigger] segs[k].start < segs[k].end <= limit
    &&& forall|k: int, l: int| 0 <= k < l < segs.len() ==> #[trigger] segs[k].end <= #[trigger] segs[l].start
}

pub open spec fn inputs_ok(inp: Inputs) -> bool {
    &&& time_ok(inp.start)
    &&& time_ok(inp.end)
    &&& time_ok(inp.now)
    &&& order_in_bounds(inp.order, inp.samples.len() as int)
    &&& order_sorted(inp.samples, inp.order)
    &&& forall|p: int| 0 <= p < inp.order.len() ==> time_ok(#[trigger] inp.samples[inp.order[p] as int].captured_at)
}

/// A carried judgment names a record of the day, taken at a time in range.
pub open spec fn estimate_ok(inp: Inputs, sc: Scan) -> bool {
    sc.estimate matches Some(e) ==> e < inp.samples.len() && time_ok(inp.samples[e as int].captured_at)
        && is_judged(category_of(inp.samples[e as int]))
}

/// A segment stays inside its own record's coverage, and one carried from an earlier
/// screenshot ends within two minutes of it and keeps that screenshot's judgment.
pub open spec fn segment_sound(inp: Inputs, seg: Segment) -> bool {
    let s = inp.samples[seg.sample as int];
    &&& seg.sample < inp.samples.len()
    &&& s.captured_at <= seg.start
    &&& seg.end <= nominal_end(s)
    &&& seg.end <= session_stop(inp.sessions, s.session_id@, inp.now)
    &&& (seg.estimated_from matches Some(src) ==> {
        &&& src < inp.samples.len()
        &&& seg.end <= inp.samples[src as int].captured_at + JUDGMENT_TTL_MS
        &&& seg.category == category_of(inp.samples[src as int])
        &&& is_judged(seg.category)
    })
}

pub open spec fn scan_shape(inp: Inputs, p: int) -> bool {
    let sc = scan(inp, p);
    let limit = min_i64(inp.end, inp.now);
    &&& segments_ordered(sc.segments, inp.start, limit)
    &&& sc.observed == sum_len(sc.segments)
    &&& 0 <= sc.local <= sc.observed
    &&& estimate_ok(inp, sc)
    &&& (forall|k: int| 0 <= k < sc.counts.len() ==> (#[trigger] sc.counts[k]).count <= p)
    &&& p < inp.order.len() ==> frontier(sc.segments, inp.start)
            <= max_i64(inp.samples[inp.order[p] as int].captured_at, inp.start)
    &&& forall|k: int| 0 <= k < sc.segments.len() ==> (#[trigger] sc.segments[k]).sample < inp.samples.len()
    &&& forall|k: int| 0 <= k < sc.segments.len() ==> segment_sound(inp, #[trigger] sc.segments[k])
    &&& forall|k: int| 0 <= k < sc.segments.len() ==> exists|q: int| 0 <= q < p && inp.order[q] == (#[trigger] sc.segments[k]).sample
}

proof fn lemma_sum_len_push(segs: Seq<Segment>, more: Seq<Segment>)
    ensures
        sum_len(segs + more) == sum_len(segs) + sum_len(more),
    decreases more.len(),
{
    if more.len() > 0 {
        lemma_sum_len_push(segs, more.drop_last());
        assert((segs + more).drop_last() =~= segs + more.drop_last());
    }
}

proof fn lemma_sum_len_bound(segs: Seq<Segment>, start: i64, limit: i64)
    requires
        segments_ordered(segs, start, limit),
    ensures
        0 <= sum_len(segs) <= frontier(segs, start) - start,
    decreases segs.len(),
{
    if segs.len() > 0 {
        let init = segs.drop_last();
        assert(segments_ordered(init, start, limit)) by {
            assert forall|k: int, l: int| 0 <= k < l < init.len() implies #[trigger] init[k].end <= #[trigger] init[l].start by {
                assert(init[k] == segs[k] && init[l] == segs[l]);
            }
        }
        lemma_sum_len_bound(init, start, limit);
        if init.len() > 0 {
            assert(init.last() == segs[segs.len() - 2]);
            assert(segs[segs.len() - 2].end <= segs[segs.len() - 1].start);
        }
        assert(segs[segs.len() - 1].start < segs[segs.len() - 1].end);
    }
}

proof fn lemma_new_segments(inp: Inputs, sc: Scan, q: int, a: i64, b: i64)
    requires
        a < b,
        0 <= q < inp.order.len(),
        inputs_ok(inp),
        estimate_ok(inp, sc),
    ensures
        ({
            let added = new_segments(inp, sc, q, a, b);
            &&& 1 <= added.len() <= 2
            &&& added[0].start == a
            &&& added.last().end == b
            &&& forall|k: int| 0 <= k < added.len() ==> a <= #[trigger] added[k].start < added[k].end <= b
            &&& forall|k: int, l: int| 0 <= k < l < added.len() ==> #[trigger] added[k].end <= #[trigger] added[l].start
            &&& forall|k: int| 0 <= k < added.len() ==> (#[trigger] added[k]).sample == inp.order[q]
            &&& b == coverage_end(inp, q) && a >= inp.samples[inp.order[q] as int].captured_at
                ==> forall|k: int| 0 <= k < added.len() ==> segment_sound(inp, #[trigger] added[k])
            &&& sum_len(added) == b - a
        }),
{
    let added = new_segments(inp, sc, q, a, b);
    assert(time_ok(inp.samples[inp.order[q] as int].captured_at));
    let one = seq![added[0]];
    assert(one.drop_last() =~= Seq::<Segment>::empty());
    assert(sum_len(Seq::<Segment>::empty()) == 0);
    assert(one.last() == added[0]);
    assert(sum_len(one) == added[0].end - added[0].start);
    if added.len() == 2 {
        assert(added.drop_last() =~= one);
    } else {
        assert(added =~= one);
    }
}

proof fn lemma_scan_shape(inp: Inputs, p: int)
    requires
        inputs_ok(inp),
        0 <= p <= inp.order.len(),
    ensures
        scan_shape(inp, p),
    decreases p,
{
    if p > 0 {
        lemma_scan_shape(inp, p - 1);
        let prev = scan(inp, p - 1);
        let q = p - 1;
        let s = inp.samples[inp.order[q] as int];
        let b = coverage_end(inp, q);
        let a = max_i64(s.captured_at, inp.start);
        let limit = min_i64(inp.end, inp.now);
        let cur = scan(inp, p);
        assert(time_ok(s.captured_at));
        if b > a {
            let added = new_segments(inp, prev, q, a, b);
            assert(cur.segments == prev.segments + added);
            lemma_sum_len_push(prev.segments, added);
            lemma_new_segments(inp, prev, q, a, b);
            lemma_bump_bound(prev.counts, s.state, q);
            assert(frontier(prev.segments, inp.start) <= a);
            assert(added.last().end == b);
            assert forall|k: int, l: int| 0 <= k < l < cur.segments.len() implies
                #[trigger] cur.segments[k].end <= #[trigger] cur.segments[l].start by {
                if l < prev.segments.len() {
                } else if k < prev.segments.len() {
                    assert(cur.segments[l] == added[l - prev.segments.len()]);
                    if prev.segments.len() > 0 {
                        assert(prev.segments[k].end <= prev.segments.last().end) by {
                            if k < prev.segments.len() - 1 {
                                assert(prev.segments[k].end <= prev.segments[prev.segments.len() - 1].start);
                            }
                        }
                    }
                } else {
                    assert(cur.segments[k] == added[k - prev.segments.len()]);
                    assert(cur.segments[l] == added[l - prev.segments.len()]);
                }
            }
            assert forall|k: int| 0 <= k < cur.segments.len() implies
                inp.start <= #[trigger] cur.segments[k].start < cur.segments[k].end <= limit by {
                if k >= prev.segments.len() {
                    assert(cur.segments[k] == added[k - prev.segments.len()]);
                }
            }
            assert forall|k: int| 0 <= k < cur.segments.len() implies
                (#[trigger] cur.segments[k]).sample < inp.samples.len() by {
                if k >= prev.segments.len() {
                    assert(cur.segments[k] == added[k - prev.segments.len()]);
                }
            }
            if p < inp.order.len() {
                assert(b <= next_capture(inp, q));
                assert(inp.samples[inp.order[q] as int].captured_at <= inp.samples[inp.order[p] as int].captured_at);
            }
        } else {
            if p < inp.order.len() {
                assert(inp.samples[inp.order[q] as int].captured_at <= inp.samples[inp.order[p] as int].captured_at);
            }
        }
    }
}

} // verus!

verus! {

// ---------------------------------------------------------------- counting states

proof fn lemma_bump_at(c: Seq<StateCount>, st: String, j: int)
    requires
        0 <= j <= c.len(),
        forall|k: int| 0 <= k < j ==> c[k].state@ != st@,
        j < c.len() ==> c[j].state@ == st@,
    ensures
        bump(c, st) == if j < c.len() {
            c.update(j, StateCount { state: c[j].state, count: (c[j].count + 1) as u32 })
        } else {
            c.push(StateCount { state: st, count: 1 })
        },
    decreases c.len(),
{
    if c.len() == 0 {
        assert(seq![StateCount { state: st, count: 1 }] =~= c.push(StateCount { state: st, count: 1 }));
    } else if j == 0 {
        assert(bump(c, st) =~= c.update(0, StateCount { state: c[0].state, count: (c[0].count + 1) as u32 }));
    } else {
        let rest = c.drop_first();
        assert forall|k: int| 0 <= k < j - 1 implies rest[k].state@ != st@ by {
            assert(rest[k] == c[k + 1]);
        }
        lemma_bump_at(rest, st, j - 1);
        if j < c.len() {
            assert(bump(c, st) =~= c.update(j, StateCount { state: c[j].state, count: (c[j].count + 1) as u32 }));
        } else {
            assert(bump(c, st) =~= c.push(StateCount { state: st, count: 1 }));
        }
    }
}

proof fn lemma_bump_bound(c: Seq<StateCount>, st: String, bound: int)
    requires
        forall|k: int| 0 <= k < c.len() ==> (#[trigger] c[k]).count <= bound,
        0 <= bound,
    ensures
        forall|k: int| 0 <= k < bump(c, st).len() ==> (#[trigger] bump(c, st)[k]).count <= bound + 1,
    decreases c.len(),
{
    if c.len() > 0 {
        lemma_bump_bound(c.drop_first(), st, bound);
        if c[0].state@ != st@ {
            let r = bump(c, st);
            assert forall|k: int| 0 <= k < r.len() implies (#[trigger] r[k]).count <= bound + 1 by {
                if k > 0 {
                    assert(r[k] == bump(c.drop_first(), st)[k - 1]);
                }
            }
        } else {
            let r = bump(c, st);
            assert forall|k: int| 0 <= k < r.len() implies (#[trigger] r[k]).count <= bound + 1 by {
                if k > 0 {
                    assert(r[k] == c[k]);
                }
            }
        }
    }
}

fn bump_count(counts: &mut Vec<StateCount>, state: &String)
    requires
        forall|k: int| 0 <= k < old(counts)@.len() ==> (#[trigger] old(counts)@[k]).count < u32::MAX,
    ensures
        final(counts)@ == bump(old(counts)@, *state),
{
    let n = counts.len();
    let mut j: usize = 0;
    while j < n
        invariant
            n == counts@.len(),
            counts@ == old(counts)@,
            forall|k: int| 0 <= k < counts@.len() ==> (#[trigger] counts@[k]).count < u32::MAX,
            j <= n,
            forall|k: int| 0 <= k < j ==> counts@[k].state@ != state@,
        decreases n - j,
    {
        if counts[j].state == *state {
            proof {
                lemma_bump_at(counts@, *state, j as int);
            }
            let updated = StateCount { state: counts[j].state.clone(), count: counts[j].count + 1 };
            counts.set(j, updated);
            return;
        }
        j = j + 1;
    }
    proof {
        lemma_bump_at(counts@, *state, n as int);
    }
    counts.push(StateCount { state: state.clone(), count: 1 });
}

// ---------------------------------------------------------------- exec pieces

fn session_stop_of(sessions: &Vec<Session>, id: &String, now: i64) -> (r: i64)
    ensures
        r == session_stop(sessions@, id@, now),
{
    let mut k = sessions.len();
    while k > 0
        invariant
            k <= sessions@.len(),
            last_session(sessions@, id@, sessions@.len() as int) == last_session(sessions@, id@, k as int),
        decreases k,
    {
        if sessions[k - 1].id == *id {
            return match sessions[k - 1].ended_at {
                Some(t) => t,
                None => now,
            };
        }
        k = k - 1;
    }
    now
}

fn nominal_end_of(s: &Sample) -> (r: i64)
    requires
        time_ok(s.captured_at),
    ensures
        r == nominal_end(*s),
{
    match &s.evidence {
        Some(e) => e.valid_until,
        None => s.captured_at + s.interval_seconds as i64 * 1000,
    }
}

fn is_pause_trigger(t: &str) -> (r: bool)
    ensures
        r == pause_trigger(t@),
{
    str_eq(t, "locked") || str_eq(t, "excluded") || str_eq(t, "screen_permission")
        || str_eq(t, "unavailable") || str_eq(t, "capture_failed") || str_eq(t, "model_unavailable")
}

/// Whether a record must not carry a judgment.
pub fn blocked(s: &Sample) -> (r: bool)
    ensures
        r == is_blocked(*s),
{
    let by_evidence = match &s.evidence {
        Some(e) => e.away || is_pause_trigger(e.trigger.as_str()),
        None => false,
    };
    by_evidence || str_eq(s.state.as_str(), "error") || str_eq(s.state.as_str(), "skipped")
}

fn judged(c: Category) -> (r: bool)
    ensures
        r == is_judged(c),
{
    match c {
        Category::Work | Category::Distracted => true,
        _ => false,
    }
}

fn min64(a: i64, b: i64) -> (r: i64)
    ensures
        r == min_i64(a, b),
{
    if a <= b { a } else { b }
}

fn max64(a: i64, b: i64) -> (r: i64)
    ensures
        r == max_i64(a, b),
{
    if a >= b { a } else { b }
}

} // verus!

verus! {

proof fn lemma_tally(samples: Seq<Sample>, segs: Seq<Segment>)
    requires
        forall|k: int| 0 <= k < segs.len() ==> (#[trigger] segs[k]).start < segs[k].end,
    ensures
        ({
            let t = tally(samples, segs);
            &&& 0 <= t.work && 0 <= t.distracted && 0 <= t.away && 0 <= t.unknown
            &&& t.work + t.distracted + t.away + t.unknown == sum_len(segs)
            &&& 0 <= t.run <= t.work
            &&& 0 <= t.longest <= t.work
        }),
    decreases segs.len(),
{
    if segs.len() > 0 {
        let init = segs.drop_last();
        assert forall|k: int| 0 <= k < init.len() implies (#[trigger] init[k]).start < init[k].end by {
            assert(init[k] == segs[k]);
        }
        lemma_tally(samples, init);
        assert(segs.last() == segs[segs.len() - 1]);
    }
}

/// The exec form of `Scan`; `previous_session` indexes the record whose session it is.
struct ScanState {
    estimate: Option<usize>,
    previous_end: i64,
    previous_session: Option<usize>,
    observed: i64,
    local: i64,
    counts: Vec<StateCount>,
    segments: Vec<Segment>,
}

spec fn state_matches(st: ScanState, samples: Seq<Sample>, sc: Scan) -> bool {
    &&& st.estimate == sc.estimate
    &&& st.previous_end == sc.previous_end
    &&& sc.previous_session == match st.previous_session {
        Some(j) => samples[j as int].session_id@,
        None => Seq::<char>::empty(),
    }
    &&& (st.previous_session matches Some(j) ==> j < samples.len())
    &&& st.observed == sc.observed
    &&& st.local == sc.local
    &&& st.counts@ == sc.counts
    &&& st.segments@ == sc.segments
}

fn carry(
    st: &ScanState,
    Ghost(inp): Ghost<Inputs>,
    samples: &Vec<Sample>,
    i: usize,
    p: usize,
    paused: bool,
) -> (r: Option<usize>)
    requires
        inputs_ok(inp),
        inp.samples == samples@,
        p < inp.order.len(),
        i == inp.order[p as int],
        paused == is_blocked(samples@[i as int]),
        state_matches(*st, samples@, scan(inp, p as int)),
    ensures
        r == carried_estimate(inp, scan(inp, p as int), p as int),
{
    let s = &samples[i];
    let same_session = match st.previous_session {
        Some(j) => samples[j].session_id == s.session_id,
        None => s.session_id.as_str().is_empty(),
    };
    proof {
        if st.previous_session is None {
            assert(s.session_id@.len() == 0 <==> s.session_id@ =~= Seq::<char>::empty());
        }
        assert(time_ok(s.captured_at));
    }
    let kept = if !same_session || s.captured_at - st.previous_end > OBSERVATION_GAP_MS || paused
        || s.evidence.is_none() {
        None
    } else {
        st.estimate
    };
    let local_sample = s.is_local();
    let completed = !local_sample && (s.analysis.is_some() || s.correction.is_some());
    if completed {
        if !paused && s.evidence.is_some() && judged(s.category()) { Some(i) } else { None }
    } else {
        kept
    }
}

#[verifier::rlimit(40)]
fn scan_next(
    st: &mut ScanState,
    Ghost(inp): Ghost<Inputs>,
    samples: &Vec<Sample>,
    order: &Vec<usize>,
    sessions: &Vec<Session>,
    now: i64,
    start: i64,
    end: i64,
    p: usize,
)
    requires
        inputs_ok(inp),
        inp == (Inputs { samples: samples@, order: order@, sessions: sessions@, now, start, end }),
        p < order@.len(),
        order@.len() <= samples@.len() < u32::MAX,
        state_matches(*old(st), samples@, scan(inp, p as int)),
    ensures
        state_matches(*final(st), samples@, scan(inp, p + 1)),
{
    proof {
        lemma_scan_shape(inp, p as int);
        lemma_sum_len_bound(scan(inp, p as int).segments, start, min_i64(end, now));
    }
    let ghost sc = scan(inp, p as int);
    let m = order.len();
    let i = order[p];
    let s = &samples[i];
    assert(time_ok(s.captured_at));
    let next = if p + 1 < m { samples[order[p + 1]].captured_at } else { i64::MAX };
    let stop = session_stop_of(sessions, &s.session_id, now);
    let b = min64(min64(min64(min64(nominal_end_of(s), next), stop), end), now);
    assert(b == coverage_end(inp, p as int));
    let paused = blocked(s);
    let estimate = carry(st, Ghost(inp), samples, i, p, paused);
    let local_sample = s.is_local();
    let completed = !local_sample && (s.analysis.is_some() || s.correction.is_some());
    let own = s.category();
    let judged_here = judged(own);
    st.estimate = estimate;
    st.previous_end = max64(b, s.captured_at);
    st.previous_session = Some(i);
    let a = max64(s.captured_at, start);
    if b > a {
        proof {
            lemma_new_segments(inp, sc, p as int, a, b);
        }
        st.observed = st.observed + (b - a);
        if local_sample {
            st.local = st.local + (b - a);
        }
        bump_count(&mut st.counts, &s.state);
        let category = if completed && s.evidence.is_some() && judged_here {
            Category::Unknown
        } else {
            own
        };
        let mut carried = false;
        match estimate {
            Some(src) => {
                let deadline = samples[src].captured_at + JUDGMENT_TTL_MS;
                if !paused && a < deadline {
                    carried = true;
                    let until = min64(b, deadline);
                    st.segments.push(Segment {
                        start: a,
                        end: until,
                        category: samples[src].category(),
                        sample: i,
                        estimated_from: if !completed { Some(src) } else { None },
                    });
                    if until != b {
                        st.segments.push(Segment { start: until, end: b, category, sample: i, estimated_from: None });
                    }
                }
            },
            None => {},
        }
        if !carried {
            st.segments.push(Segment { start: a, end: b, category, sample: i, estimated_from: None });
        }
        assert(st.segments@ =~= sc.segments + new_segments(inp, sc, p as int, a, b));
    }
}

/// The inputs of the estimate for one day.
pub open spec fn day_inputs(samples: Seq<Sample>, mode: Seq<char>, sessions: Seq<Session>, now: i64, start: i64, end: i64) -> Inputs {
    Inputs { samples, order: time_order(samples, mode, samples.len() as int), sessions, now, start, end }
}

/// What `estimate_day` may be given: times in range, and not more records than a count holds.
pub open spec fn estimate_inputs_ok(samples: Seq<Sample>, mode: Seq<char>, now: i64, start: i64, end: i64) -> bool {
    &&& time_ok(now)
    &&& time_ok(start)
    &&& time_ok(end)
    &&& samples.len() < u32::MAX
    &&& forall|i: int| 0 <= i < samples.len() && (#[trigger] samples[i]).mode@ == mode
            ==> time_ok(samples[i].captured_at)
}

/// `d` is the estimate of the day `start..end` from `samples` and `sessions` at `now`.
pub open spec fn is_estimate(
    d: Day,
    date: Seq<char>,
    mode: Seq<char>,
    samples: Seq<Sample>,
    sessions: Seq<Session>,
    now: i64,
    start: i64,
    end: i64,
) -> bool {
    let inp = day_inputs(samples, mode, sessions, now, start, end);
    let sc = scan(inp, inp.order.len() as int);
    let t = tally(samples, sc.segments);
    &&& d.date@ == date
    &&& d.mode@ == mode
    &&& d.records@ == samples
    &&& d.segments@ == sc.segments
    &&& d.counts@ == sc.counts
    &&& d.work_seconds == t.work / 1000
    &&& d.distracted_seconds == t.distracted / 1000
    &&& d.away_seconds == t.away / 1000
    &&& d.unknown_seconds == t.unknown / 1000
    &&& d.local_seconds == sc.local / 1000
    &&& d.observed_seconds == sc.observed / 1000
    &&& d.ai_observed_seconds == (sc.observed - sc.local) / 1000
    &&& d.unobserved_seconds == (if span(sc.segments) > sc.observed { span(sc.segments) - sc.observed } else { 0 }) / 1000
    &&& d.longest_work_seconds == t.longest / 1000
}

/// The day's estimate from its records, once the day's bounds `start..end` are known.
///
/// Records of another mode are ignored; the others are read in capture order (ties keep
/// their input order). Each record covers the time from its capture (or the day's start)
/// to the first of: its own end, the next record, its session's stop, the day's end and
/// `now`. The totals are whole seconds of those stretches.
#[verifier::spinoff_prover]
#[verifier::rlimit(40)]
pub fn estimate_day(
    date: String,
    mode: String,
    samples: Vec<Sample>,
    sessions: Vec<Session>,
    now: i64,
    start: i64,
    end: i64,
) -> (d: Day)
    requires
        estimate_inputs_ok(samples@, mode@, now, start, end),
    ensures
        is_estimate(d, date@, mode@, samples@, sessions@, now, start, end),
{
    let order = sort_by_time(&samples, mode.as_str());
    let ghost inp = Inputs { samples: samples@, order: order@, sessions: sessions@, now, start, end };
    proof {
        lemma_time_order(samples@, mode@, samples@.len() as int);
    }
    let m = order.len();
    let mut st = ScanState {
        estimate: None,
        previous_end: 0,
        previous_session: None,
        observed: 0,
        local: 0,
        counts: Vec::new(),
        segments: Vec::new(),
    };
    let mut p: usize = 0;
    while p < m
        invariant
            inputs_ok(inp),
            inp == (Inputs { samples: samples@, order: order@, sessions: sessions@, now, start, end }),
            m == order@.len(),
            m <= samples@.len() < u32::MAX,
            0 <= p <= m,
            state_matches(st, samples@, scan(inp, p as int)),
        decreases m - p,
    {
        scan_next(&mut st, Ghost(inp), &samples, &order, &sessions, now, start, end, p);
        p = p + 1;
    }
    let ScanState { estimate: _, previous_end: _, previous_session: _, observed, local, counts, segments } = st;
    proof {
        lemma_scan_shape(inp, m as int);
        lemma_sum_len_bound(segments@, start, min_i64(end, now));
        lemma_tally(samples@, segments@);
    }
    let ghost segs = segments@;
    let n = segments.len();
    let mut work: i64 = 0;
    let mut distracted: i64 = 0;
    let mut away: i64 = 0;
    let mut unknown: i64 = 0;
    let mut longest: i64 = 0;
    let mut run: i64 = 0;
    let mut prev: i64 = 0;
    let mut prev_sample: Option<usize> = None;
    let mut k: usize = 0;
    while k < n
        invariant
            n == segments@.len(),
            segs == segments@,
            0 <= k <= n,
            segments_ordered(segs, start, min_i64(end, now)),
            0 <= sum_len(segs) <= 2 * TIME_LIMIT,
            time_ok(start),
            time_ok(end),
            forall|j: int| 0 <= j < segs.len() ==> (#[trigger] segs[j]).sample < samples@.len(),
            ({
                let t = tally(samples@, segs.take(k as int));
                &&& work == t.work
                &&& distracted == t.distracted
                &&& away == t.away
                &&& unknown == t.unknown
                &&& longest == t.longest
                &&& run == t.run
                &&& prev == t.prev_end
                &&& t.prev_session == match prev_sample {
                    Some(j) => samples@[j as int].session_id@,
                    None => Seq::<char>::empty(),
                }
                &&& (prev_sample matches Some(j) ==> j < samples@.len())
            }),
        decreases n - k,
    {
        let ghost part = segs.take(k as int);
        let ghost next_part = segs.take(k + 1);
        assert(next_part.drop_last() =~= part);
        assert(next_part.last() == segs[k as int]);
        proof {
            assert forall|j: int| 0 <= j < next_part.len() implies (#[trigger] next_part[j]).start < next_part[j].end by {
                assert(next_part[j] == segs[j]);
            }
            lemma_tally(samples@, next_part);
            assert forall|j: int| 0 <= j < next_part.len() implies (#[trigger] next_part[j]).start < next_part[j].end by {
                assert(next_part[j] == segs[j]);
            }
            lemma_segments_prefix(segs, start, min_i64(end, now), k + 1);
            lemma_sum_len_bound(next_part, start, min_i64(end, now));
        }
        let seg = segments[k];
        let len = seg.end - seg.start;
        let s = &samples[seg.sample];
        match seg.category {
            Category::Work => {
                work = work + len;
                let jitter = if s.evidence.is_some() { OBSERVATION_GAP_MS } else { SAMPLE_JITTER_MS };
                let same = match prev_sample {
                    Some(j) => samples[j].session_id == s.session_id,
                    None => s.session_id.as_str().is_empty(),
                };
                proof {
                    if prev_sample is None {
                        assert(s.session_id@.len() == 0 <==> s.session_id@ =~= Seq::<char>::empty());
                    }
                }
                if same && seg.start - prev <= jitter {
                    run = run + len;
                } else {
                    run = len;
                }
                if run > longest {
                    longest = run;
                }
            },
            Category::Distracted => {
                distracted = distracted + len;
                run = 0;
            },
            Category::Away => {
                away = away + len;
                run = 0;
            },
            Category::Unknown => {
                unknown = unknown + len;
                run = 0;
            },
        }
        prev = seg.end;
        prev_sample = Some(seg.sample);
        k = k + 1;
    }
    assert(segs.take(n as int) =~= segs);
    let whole_span: i64 = if n == 0 { 0 } else { segments[n - 1].end - segments[0].start };
    let uncovered: i64 = if whole_span > observed { whole_span - observed } else { 0 };
    Day {
        date,
        mode,
        records: samples,
        segments,
        counts,
        work_seconds: work / 1000,
        distracted_seconds: distracted / 1000,
        away_seconds: away / 1000,
        local_seconds: local / 1000,
        ai_observed_seconds: (observed - local) / 1000,
        unknown_seconds: unknown / 1000,
        observed_seconds: observed / 1000,
        unobserved_seconds: uncovered / 1000,
        longest_work_seconds: longest / 1000,
    }
}

proof fn lemma_segments_prefix(segs: Seq<Segment>, start: i64, limit: i64, k: int)
    requires
        segments_ordered(segs, start, limit),
        0 <= k <= segs.len(),
    ensures
        segments_ordered(segs.take(k), start, limit),
{
    let pre = segs.take(k);
    assert forall|a: int, b: int| 0 <= a < b < pre.len() implies #[trigger] pre[a].end <= #[trigger] pre[b].start by {
        assert(pre[a] == segs[a] && pre[b] == segs[b]);
    }
    assert forall|a: int| 0 <= a < pre.len() implies start <= #[trigger] pre[a].start < pre[a].end <= limit by {
        assert(pre[a] == segs[a]);
    }
}

} // verus!

verus! {

/// `d` is the estimate of the date `date` between bounds that are in range and lie near the
/// date's midnights (`near_day`); `build` takes them from the machine's local midnights.
pub open spec fn estimated_between_midnights(
    d: Day,
    date: Seq<char>,
    mode: Seq<char>,
    samples: Seq<Sample>,
    sessions: Seq<Session>,
    now: i64,
) -> bool {
    &&& parsed_ymd(date) is Some
    &&& exists|start: i64, end: i64| time_ok(start) && time_ok(end)
        && near_day(parsed_ymd(date)->0, (start, end))
        && #[trigger] is_estimate(d, date, mode, samples, sessions, now, start, end)
}

/// The estimate for the day `date` (`YYYY-MM-DD`) in mode `mode` at `now`.
///
/// An unreadable date is refused with the format message, a date without local bounds with
/// the invalid-date message; otherwise the day is estimated between its local midnights.
pub fn build(date: &str, mode: &str, samples: Vec<Sample>, sessions: Vec<Session>, now: i64) -> (r: Result<Day, String>)
    requires
        time_ok(now),
        samples@.len() < u32::MAX,
        forall|i: int| 0 <= i < samples@.len() && (#[trigger] samples@[i]).mode@ == mode@
            ==> time_ok(samples@[i].captured_at),
    ensures
        parsed_ymd(date@) is None ==> (r matches Err(e) && e@ == bad_date_message()),
        (parsed_ymd(date@) matches Some(d) && day_after(d.0, d.1, d.2) is None)
            ==> (r matches Err(e) && e@ == invalid_date_message()),
        r matches Err(e) ==> e@ == bad_date_message() || e@ == invalid_date_message(),
        r matches Err(e) ==> (e@ == bad_date_message() <==> parsed_ymd(date@) is None),
        r matches Ok(day) ==> estimated_between_midnights(day, date@, mode@, samples@, sessions@, now),
{
    let (start, end) = match bounds(date) {
        Ok(b) => b,
        Err(e) => return Err(e),
    };
    let ghost sv = samples@;
    let ghost ss = sessions@;
    let d = estimate_day(String::from_str(date), String::from_str(mode), samples, sessions, now, start, end);
    assert(is_estimate(d, date@, mode@, sv, ss, now, start, end));
    assert(time_ok(start) && time_ok(end));
    assert(estimated_between_midnights(d, date@, mode@, sv, ss, now));
    Ok(d)
}

// ---------------------------------------------------------------- laws

/// Coverage is measured, never invented: the segments are non-empty, in time order without
/// overlap, inside the day and never later than `now`; the observed time is their total,
/// the four categories split it exactly, local checks are part of it, and the longest work
/// run is part of the work.
pub proof fn law_coverage(
    d: Day,
    date: Seq<char>,
    mode: Seq<char>,
    samples: Seq<Sample>,
    sessions: Seq<Session>,
    now: i64,
    start: i64,
    end: i64,
)
    requires
        estimate_inputs_ok(samples, mode, now, start, end),
        is_estimate(d, date, mode, samples, sessions, now, start, end),
    ensures
        ({
            let inp = day_inputs(samples, mode, sessions, now, start, end);
            let sc = scan(inp, inp.order.len() as int);
            let t = tally(samples, d.segments@);
            &&& segments_ordered(d.segments@, start, min_i64(end, now))
            &&& sc.observed == sum_len(d.segments@)
            &&& t.work + t.distracted + t.away + t.unknown == sc.observed
            &&& 0 <= sc.local <= sc.observed
            &&& sc.observed <= end - start || d.segments@.len() == 0
            &&& 0 <= t.longest <= t.work
        }),
{
    lemma_time_order(samples, mode, samples.len() as int);
    let inp = day_inputs(samples, mode, sessions, now, start, end);
    lemma_scan_shape(inp, inp.order.len() as int);
    let sc = scan(inp, inp.order.len() as int);
    lemma_sum_len_bound(sc.segments, start, min_i64(end, now));
    lemma_tally(samples, sc.segments);
}

/// Gaps are never filled: every segment belongs to a record of the requested mode and lies
/// within that record's own coverage and before its session stopped; a judgment carried
/// from an earlier screenshot is a work or distracted judgment of that screenshot and ends
/// at most two minutes after it.
pub proof fn law_no_invented_time(
    d: Day,
    date: Seq<char>,
    mode: Seq<char>,
    samples: Seq<Sample>,
    sessions: Seq<Session>,
    now: i64,
    start: i64,
    end: i64,
    k: int,
)
    requires
        estimate_inputs_ok(samples, mode, now, start, end),
        is_estimate(d, date, mode, samples, sessions, now, start, end),
        0 <= k < d.segments@.len(),
    ensures
        ({
            let seg = d.segments@[k];
            let s = samples[seg.sample as int];
            &&& seg.sample < samples.len()
            &&& s.mode@ == mode
            &&& s.captured_at <= seg.start < seg.end
            &&& seg.end <= nominal_end(s)
            &&& seg.end <= session_stop(sessions, s.session_id@, now)
            &&& (seg.estimated_from matches Some(src) ==> {
                &&& src < samples.len()
                &&& seg.end <= samples[src as int].captured_at + JUDGMENT_TTL_MS
                &&& seg.category == category_of(samples[src as int])
                &&& (seg.category == Category::Work || seg.category == Category::Distracted)
            })
        }),
{
    lemma_time_order(samples, mode, samples.len() as int);
    let inp = day_inputs(samples, mode, sessions, now, start, end);
    lemma_scan_shape(inp, inp.order.len() as int);
    let seg = d.segments@[k];
    assert(segment_sound(inp, seg));
    let q = choose|q: int| 0 <= q < inp.order.len() && inp.order[q] == seg.sample;
    assert(samples[inp.order[q] as int].mode@ == mode);
}

} // verus!

verus! {

// ---------------------------------------------------------------- work runs

/// Every segment from `i` up to (not including) `j` is work.
pub open spec fn all_work(segs: Seq<Segment>, i: int, j: int) -> bool {
    forall|k: int| i <= k < j ==> (#[trigger] segs[k]).category == Category::Work
}

/// No stretch of consecutive work segments (with no other segment between them) lasts more
/// than `bound` milliseconds.
pub open spec fn work_stretches_within(segs: Seq<Segment>, bound: int) -> bool {
    forall|i: int, j: int| 0 <= i <= j <= segs.len() && all_work(segs, i, j)
        ==> #[trigger] sum_len(segs.subrange(i, j)) <= bound
}

proof fn lemma_run_is_a_stretch(samples: Seq<Sample>, segs: Seq<Segment>)
    ensures
        exists|i: int| 0 <= i <= segs.len() && all_work(segs, i, segs.len() as int)
            && #[trigger] sum_len(segs.subrange(i, segs.len() as int)) == tally(samples, segs).run,
    decreases segs.len(),
{
    let n = segs.len() as int;
    if n == 0 {
        assert(segs.subrange(0, 0) =~= Seq::<Segment>::empty());
        assert(sum_len(segs.subrange(0, n)) == tally(samples, segs).run);
    } else {
        let init = segs.drop_last();
        lemma_run_is_a_stretch(samples, init);
        let i0 = choose|i: int| 0 <= i <= init.len() && all_work(init, i, init.len() as int)
            && #[trigger] sum_len(init.subrange(i, init.len() as int)) == tally(samples, init).run;
        let t = tally(samples, init);
        let s = segs.last();
        let r = samples[s.sample as int];
        if s.category == Category::Work {
            let jitter = if r.evidence is Some { OBSERVATION_GAP_MS } else { SAMPLE_JITTER_MS };
            if r.session_id@ == t.prev_session && s.start - t.prev_end <= jitter {
                assert(segs.subrange(i0, n).drop_last() =~= init.subrange(i0, n - 1));
                assert(segs.subrange(i0, n).last() == s);
                assert forall|k: int| i0 <= k < n implies (#[trigger] segs[k]).category == Category::Work by {
                    if k < n - 1 {
                        assert(segs[k] == init[k]);
                    }
                }
                assert(sum_len(segs.subrange(i0, n)) == tally(samples, segs).run);
            } else {
                let one = segs.subrange(n - 1, n);
                assert(one.drop_last() =~= Seq::<Segment>::empty());
                assert(one.last() == s);
                assert(sum_len(one.drop_last()) == 0);
                assert(sum_len(one) == tally(samples, segs).run);
                assert(all_work(segs, n - 1, n));
            }
        } else {
            assert(segs.subrange(n, n) =~= Seq::<Segment>::empty());
            assert(sum_len(segs.subrange(n, n)) == tally(samples, segs).run);
        }
    }
}

proof fn lemma_longest_within(samples: Seq<Sample>, segs: Seq<Segment>, bound: int)
    requires
        0 <= bound,
        work_stretches_within(segs, bound),
    ensures
        0 <= tally(samples, segs).longest <= bound,
    decreases segs.len(),
{
    let n = segs.len() as int;
    if n > 0 {
        let init = segs.drop_last();
        assert forall|i: int, j: int| 0 <= i <= j <= init.len() && all_work(init, i, j)
            implies #[trigger] sum_len(init.subrange(i, j)) <= bound by {
            assert(init.subrange(i, j) =~= segs.subrange(i, j));
            assert forall|k: int| i <= k < j implies (#[trigger] segs[k]).category == Category::Work by {
                assert(segs[k] == init[k]);
            }
        }
        lemma_longest_within(samples, init, bound);
        lemma_run_is_a_stretch(samples, segs);
    }
}

/// The longest work run never joins work across anything else: it is at most the longest
/// stretch of consecutive work segments with no other segment (away, distracted or unknown)
/// between them.
pub proof fn law_work_run_within_stretch(
    d: Day,
    date: Seq<char>,
    mode: Seq<char>,
    samples: Seq<Sample>,
    sessions: Seq<Session>,
    now: i64,
    start: i64,
    end: i64,
    bound: int,
)
    requires
        is_estimate(d, date, mode, samples, sessions, now, start, end),
        0 <= bound,
        work_stretches_within(d.segments@, bound),
    ensures
        0 <= d.longest_work_seconds,
        d.longest_work_seconds * 1000 <= bound,
{
    lemma_longest_within(samples, d.segments@, bound);
    let l = tally(samples, d.segments@).longest;
    assert((l / 1000) * 1000 <= l) by (nonlinear_arith)
        requires
            l >= 0;
}

} // verus!
