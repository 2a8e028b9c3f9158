//! Derived observations over a day's segments; measured activity stays apart from the
//! model's interpretation.
use vstd::prelude::*;
use crate::clock::clock_readable;
use crate::ieee::{at_least, at_least_bits};
use crate::models::{Category, Sample};
use crate::policy::{time_ok, OBSERVATION_GAP_MS, TIME_LIMIT};
use crate::summary::{Segment, sum_len};
use crate::text::{blank, decimal, decimal_string, is_blank, str_eq, trim_text, trimmed};

verus! {

/// `0.75`: the confidence a model judgment needs before it may prompt a reminder.
pub const REMINDER_CONFIDENCE_BITS: u64 = 0x3FE8_0000_0000_0000;

/// Drift tolerated between segments of records without local evidence.
pub const RECORD_JITTER_MS: i64 = 1500;

/// Segments that the derived views can read: each names one of `records`, runs forward,
/// has its times in range, and all of them together fit a count of milliseconds.
pub open spec fn segments_fit(segs: Seq<Segment>, records: Seq<Sample>) -> bool {
    &&& forall|k: int| 0 <= k < segs.len() ==> {
        &&& (#[trigger] segs[k]).sample < records.len()
        &&& time_ok(segs[k].start)
        &&& time_ok(segs[k].end)
        &&& segs[k].start <= segs[k].end
    }
    &&& sum_len(segs) <= TIME_LIMIT
}

/// The record of a segment.
pub open spec fn rec(records: Seq<Sample>, seg: Segment) -> Sample {
    records[seg.sample as int]
}

/// How far apart two segments may be and still continue each other.
pub open spec fn join_gap(s: Sample) -> i64 {
    if s.evidence is Some { OBSERVATION_GAP_MS } else { RECORD_JITTER_MS }
}

/// The milliseconds of the unbroken run of `category` that ends the first `k` segments,
/// walking back from the end of the day's last segment while segments keep the category and
/// the session of the last one and follow each other within `join_gap`.
pub open spec fn trailing_ms(segs: Seq<Segment>, records: Seq<Sample>, category: Category, k: int, edge: i64) -> int
    decreases k,
{
    if k <= 0 {
        0
    } else {
        let s = segs[k - 1];
        if s.category != category
            || rec(records, s).session_id@ != rec(records, segs.last()).session_id@
            || edge - s.end > join_gap(rec(records, s))
        {
            0
        } else {
            (s.end - s.start) + trailing_ms(segs, records, category, k - 1, s.start)
        }
    }
}

pub open spec fn trailing_seconds(segs: Seq<Segment>, records: Seq<Sample>, category: Category) -> int {
    if segs.len() == 0 {
        0
    } else {
        trailing_ms(segs, records, category, segs.len() as int, segs.last().end) / 1000
    }
}

pub proof fn lemma_sum_len_suffix_bound(segs: Seq<Segment>, k: int)
    requires
        0 <= k <= segs.len(),
        forall|j: int| 0 <= j < segs.len() ==> (#[trigger] segs[j]).start <= segs[j].end,
    ensures
        0 <= sum_len(segs.take(k)) <= sum_len(segs),
    decreases segs.len(),
{
    if segs.len() > 0 {
        let init = segs.drop_last();
        assert forall|j: int| 0 <= j < init.len() implies (#[trigger] init[j]).start <= init[j].end by {
            assert(init[j] == segs[j]);
        }
        if k == segs.len() {
            assert(segs.take(k) =~= segs);
            lemma_sum_len_suffix_bound(init, init.len() as int);
            assert(init.take(init.len() as int) =~= init);
            assert(segs.last() == segs[segs.len() - 1]);
        } else {
            lemma_sum_len_suffix_bound(init, k);
            assert(segs.take(k) =~= init.take(k));
            assert(segs.last() == segs[segs.len() - 1]);
        }
    }
}

proof fn lemma_trailing_bound(segs: Seq<Segment>, records: Seq<Sample>, category: Category, k: int, edge: i64)
    requires
        0 <= k <= segs.len(),
        forall|j: int| 0 <= j < segs.len() ==> (#[trigger] segs[j]).start <= segs[j].end,
    ensures
        0 <= trailing_ms(segs, records, category, k, edge) <= sum_len(segs.take(k)),
    decreases k,
{
    if k > 0 {
        lemma_trailing_bound(segs, records, category, k - 1, segs[k - 1].start);
        let t = segs.take(k);
        assert(t.drop_last() =~= segs.take(k - 1));
        assert(t.last() == segs[k - 1]);
        lemma_sum_len_suffix_bound(segs, k - 1);
        lemma_sum_len_suffix_bound(t, k - 1);
        assert(t.take(k - 1) =~= segs.take(k - 1));
    }
}

/// The seconds of the unbroken run of `category` at the end of the segments.
pub fn trailing_run(segments: &Vec<Segment>, records: &Vec<Sample>, category: Category) -> (r: i64)
    requires
        segments_fit(segments@, records@),
    ensures
        r == trailing_seconds(segments@, records@, category),
{
    let n = segments.len();
    if n == 0 {
        return 0;
    }
    let last = segments[n - 1];
    let mut edge = last.end;
    let mut total: i64 = 0;
    let mut k = n;
    proof {
        lemma_sum_len_suffix_bound(segments@, n as int);
        assert(segments@.take(n as int) =~= segments@);
    }
    let mut done = false;
    while k > 0 && !done
        invariant
            done ==> k > 0 && trailing_ms(segments@, records@, category, k as int, edge) == 0,
            n == segments@.len(),
            n > 0,
            last == segments@.last(),
            k <= n,
            segments_fit(segments@, records@),
            trailing_ms(segments@, records@, category, n as int, last.end)
                == total + trailing_ms(segments@, records@, category, k as int, edge),
            0 <= total <= sum_len(segments@) - sum_len(segments@.take(k as int)),
            time_ok(edge),
        decreases k + (if done { 0int } else { 1int }),
    {
        let s = segments[k - 1];
        let r = &records[s.sample];
        let gap = if r.evidence.is_some() { OBSERVATION_GAP_MS } else { RECORD_JITTER_MS };
        if s.category != category || r.session_id != records[last.sample].session_id || edge - s.end > gap {
            done = true;
        } else {
        proof {
            let t = segments@.take(k as int);
            assert(t.drop_last() =~= segments@.take(k - 1));
            assert(t.last() == segments@[k - 1]);
            lemma_sum_len_suffix_bound(segments@, k - 1);
            lemma_sum_len_suffix_bound(segments@, k as int);
        }
        total = total + (s.end - s.start);
        edge = s.start;
        k = k - 1;
        }
    }
    total / 1000
}

} // verus!

verus! {

pub open spec fn confident(r: Sample) -> bool {
    r.analysis matches Some(a) && at_least(a.confidence_bits, REMINDER_CONFIDENCE_BITS)
}

pub open spec fn hard_pause(r: Sample) -> bool {
    r.evidence matches Some(e) && (e.away || e.trigger@ == "locked"@ || e.trigger@ == "excluded"@
        || e.trigger@ == "screen_permission"@)
}

/// The position of the last of the first `k` segments whose record has a model judgment, or -1.
pub open spec fn last_analyzed(segs: Seq<Segment>, records: Seq<Sample>, k: int) -> int
    decreases k,
{
    if k <= 0 {
        -1
    } else if rec(records, segs[k - 1]).analysis is Some {
        k - 1
    } else {
        last_analyzed(segs, records, k - 1)
    }
}

/// Walking back from the end: do two confident distracted judgments of the same session,
/// application and window, unbroken by gaps over ten seconds or by pauses, lie at least
/// `threshold` seconds apart (measured to the start of `last`)?
pub open spec fn sampled_walk(
    segs: Seq<Segment>,
    records: Seq<Sample>,
    last: Segment,
    threshold: i64,
    k: int,
    edge: i64,
    count: int,
) -> bool
    decreases k,
{
    if k <= 0 {
        false
    } else {
        let s = segs[k - 1];
        let r = rec(records, s);
        let lr = rec(records, last);
        if r.session_id@ != lr.session_id@ || edge - s.end > OBSERVATION_GAP_MS
            || r.activity.bundle_id@ != lr.activity.bundle_id@
            || r.activity.window_title@ != lr.activity.window_title@
        {
            false
        } else if hard_pause(r) {
            false
        } else if r.analysis is Some {
            if s.category != Category::Distracted || !confident(r) {
                false
            } else if count + 1 >= 2 && last.start - s.start >= threshold * 1000 {
                true
            } else {
                sampled_walk(segs, records, last, threshold, k - 1, s.start, count + 1)
            }
        } else {
            sampled_walk(segs, records, last, threshold, k - 1, s.start, count)
        }
    }
}

/// With local evidence, a reminder needs a confident distracted judgment from the last minute,
/// and an earlier comparable one at least `threshold` seconds before it.
pub open spec fn sampled_reminder(segs: Seq<Segment>, records: Seq<Sample>, at: i64, threshold: i64) -> bool {
    let j = last_analyzed(segs, records, segs.len() as int);
    if j < 0 {
        false
    } else {
        let last = segs[j];
        let lr = rec(records, last);
        if at - lr.captured_at > 60_000 || last.category != Category::Distracted || lr.mode@ != "live"@
            || !confident(lr)
        {
            false
        } else {
            sampled_walk(segs, records, last, threshold, segs.len() as int, segs.last().end, 0)
        }
    }
}

pub open spec fn any_evidence(segs: Seq<Segment>, records: Seq<Sample>) -> bool {
    exists|k: int| 0 <= k < segs.len() && (#[trigger] rec(records, segs[k])).evidence is Some
}

/// Whether a gentle reminder is due at `now` after `threshold` seconds of distraction.
pub open spec fn reminder_due(segs: Seq<Segment>, records: Seq<Sample>, now: i64, threshold: i64) -> bool {
    if segs.len() == 0 {
        false
    } else if any_evidence(segs, records) {
        sampled_reminder(segs, records, now, threshold)
    } else {
        let r = rec(records, segs.last());
        &&& r.mode@ == "live"@
        &&& r.state@ == "done"@
        &&& confident(r)
        &&& now - r.captured_at <= (r.interval_seconds + 30) * 1000
        &&& trailing_seconds(segs, records, Category::Distracted) >= threshold
    }
}

pub open spec fn reminder_inputs_ok(segs: Seq<Segment>, records: Seq<Sample>, now: i64, threshold: i64) -> bool {
    &&& segments_fit(segs, records)
    &&& time_ok(now)
    &&& forall|k: int| 0 <= k < segs.len() ==> time_ok((#[trigger] rec(records, segs[k])).captured_at)
    &&& i64::MIN <= threshold * 1000 <= i64::MAX
}

fn is_confident(r: &Sample) -> (b: bool)
    ensures
        b == confident(*r),
{
    match &r.analysis {
        Some(a) => at_least_bits(a.confidence_bits, REMINDER_CONFIDENCE_BITS),
        None => false,
    }
}

fn is_hard_pause(r: &Sample) -> (b: bool)
    ensures
        b == hard_pause(*r),
{
    match &r.evidence {
        Some(e) => e.away || str_eq(e.trigger.as_str(), "locked") || str_eq(e.trigger.as_str(), "excluded")
            || str_eq(e.trigger.as_str(), "screen_permission"),
        None => false,
    }
}

fn sampled_distraction(segments: &Vec<Segment>, records: &Vec<Sample>, at: i64, threshold: i64) -> (r: bool)
    requires
        reminder_inputs_ok(segments@, records@, at, threshold),
        segments@.len() > 0,
    ensures
        r == sampled_reminder(segments@, records@, at, threshold),
{
    let n = segments.len();
    let mut j = n;
    while j > 0 && records[segments[j - 1].sample].analysis.is_none()
        invariant
            j <= n == segments@.len(),
            segments_fit(segments@, records@),
            last_analyzed(segments@, records@, n as int) == last_analyzed(segments@, records@, j as int),
        decreases j,
    {
        j = j - 1;
    }
    if j == 0 {
        return false;
    }
    assert(last_analyzed(segments@, records@, j as int) == j - 1);
    assert(segments@.last() == segments@[n - 1]);
    let last = segments[j - 1];
    let lr = &records[last.sample];
    assert(time_ok(lr.captured_at));
    if at - lr.captured_at > 60_000 || last.category != Category::Distracted
        || !str_eq(lr.mode.as_str(), "live") || !is_confident(lr) {
        return false;
    }
    let mut count: usize = 0;
    let mut edge = segments[n - 1].end;
    let mut k = n;
    while k > 0
        invariant
            k <= n == segments@.len(),
            n > 0,
            count <= n - k,
            last.sample < records@.len(),
            *lr == records@[last.sample as int],
            reminder_inputs_ok(segments@, records@, at, threshold),
            time_ok(edge),
            time_ok(last.start),
            sampled_reminder(segments@, records@, at, threshold)
                == sampled_walk(segments@, records@, last, threshold, k as int, edge, count as int),
        decreases k,
    {
        let s = segments[k - 1];
        let r = &records[s.sample];
        if r.session_id != lr.session_id || edge - s.end > OBSERVATION_GAP_MS
            || r.activity.bundle_id != lr.activity.bundle_id
            || r.activity.window_title != lr.activity.window_title {
            return false;
        }
        if is_hard_pause(r) {
            return false;
        }
        if r.analysis.is_some() {
            if s.category != Category::Distracted || !is_confident(r) {
                return false;
            }
            count = count + 1;
            if count >= 2 && last.start - s.start >= threshold * 1000 {
                return true;
            }
        }
        edge = s.start;
        k = k - 1;
    }
    false
}

/// Whether a gentle reminder is due at `now`: see `reminder_due`.
pub fn should_remind(segments: &Vec<Segment>, records: &Vec<Sample>, now: i64, threshold: i64) -> (r: bool)
    requires
        reminder_inputs_ok(segments@, records@, now, threshold),
    ensures
        r == reminder_due(segments@, records@, now, threshold),
{
    let n = segments.len();
    if n == 0 {
        return false;
    }
    let mut k: usize = 0;
    while k < n
        invariant
            k <= n == segments@.len(),
            reminder_inputs_ok(segments@, records@, now, threshold),
            forall|j: int| 0 <= j < k ==> (#[trigger] rec(records@, segments@[j])).evidence is None,
        decreases n - k,
    {
        if records[segments[k].sample].evidence.is_some() {
            assert(rec(records@, segments@[k as int]).evidence is Some);
            assert(any_evidence(segments@, records@));
            return sampled_distraction(segments, records, now, threshold);
        }
        k = k + 1;
    }
    assert(!any_evidence(segments@, records@));
    let s = segments[n - 1];
    let r = &records[s.sample];
    assert(time_ok(rec(records@, segments@[n - 1]).captured_at));
    str_eq(r.mode.as_str(), "live") && str_eq(r.state.as_str(), "done") && is_confident(r)
        && now - r.captured_at <= (r.interval_seconds as i64 + 30) * 1000
        && trailing_run(segments, records, Category::Distracted) >= threshold
}

} // verus!

verus! {

// ---------------------------------------------------------------- interruptions

/// A return to work after an interruption: the records that began the interruption and
/// ended it, and when.
#[derive(Clone, Copy, Debug, PartialEq, Eq, Structural)]
pub struct Recovery {
    pub interruption_sample: usize,
    pub recovered_sample: usize,
    pub start: i64,
    pub end: i64,
}

pub struct InterruptionScan {
    pub count: nat,
    pub open: Option<(i64, usize)>,
    pub recoveries: Seq<Recovery>,
    pub previous: Option<Segment>,
}

/// The segment continues `previous`: same session, and close enough in time.
pub open spec fn continues(records: Seq<Sample>, previous: Option<Segment>, s: Segment) -> bool {
    previous matches Some(p) && rec(records, p).session_id@ == rec(records, s).session_id@
        && s.start - p.end <= join_gap(rec(records, s))
}

/// An interruption starts at a distracted segment that does not continue a distracted one;
/// it is recovered by the next work segment that continues the run, and forgotten at a
/// break in continuity or at a segment that is neither work nor distracted.
pub open spec fn interruption_step(records: Seq<Sample>, st: InterruptionScan, s: Segment) -> InterruptionScan {
    let contiguous = continues(records, st.previous, s);
    let starts = s.category == Category::Distracted
        && (!contiguous || st.previous is None || st.previous->0.category != Category::Distracted);
    let open1 = if starts { Some((s.start, s.sample)) } else { st.open };
    let open2 = if !contiguous {
        if s.category == Category::Distracted { Some((s.start, s.sample)) } else { None }
    } else {
        open1
    };
    let recoveries = match open2 {
        Some((begun, id)) => if s.category == Category::Work {
            st.recoveries.push(Recovery { interruption_sample: id, recovered_sample: s.sample, start: begun, end: s.start })
        } else {
            st.recoveries
        },
        None => st.recoveries,
    };
    let open3 = if s.category == Category::Work || s.category != Category::Distracted { None } else { open2 };
    InterruptionScan {
        count: if starts { st.count + 1 } else { st.count },
        open: open3,
        recoveries,
        previous: Some(s),
    }
}

pub open spec fn interruption_scan(records: Seq<Sample>, segs: Seq<Segment>) -> InterruptionScan
    decreases segs.len(),
{
    if segs.len() == 0 {
        InterruptionScan { count: 0, open: None, recoveries: Seq::empty(), previous: None }
    } else {
        interruption_step(records, interruption_scan(records, segs.drop_last()), segs.last())
    }
}

/// The interruptions of the day and the recoveries from them.
pub fn interruptions(segments: &Vec<Segment>, records: &Vec<Sample>) -> (r: (usize, Vec<Recovery>))
    requires
        segments_fit(segments@, records@),
    ensures
        r.0 == interruption_scan(records@, segments@).count,
        r.1@ == interruption_scan(records@, segments@).recoveries,
{
    let n = segments.len();
    let mut count: usize = 0;
    let mut open: Option<(i64, usize)> = None;
    let mut recoveries: Vec<Recovery> = Vec::new();
    let mut previous: Option<Segment> = None;
    let mut k: usize = 0;
    while k < n
        invariant
            k <= n == segments@.len(),
            segments_fit(segments@, records@),
            count <= k,
            ({
                let st = interruption_scan(records@, segments@.take(k as int));
                &&& count == st.count
                &&& open == st.open
                &&& recoveries@ == st.recoveries
                &&& previous == st.previous
                &&& (previous matches Some(p) ==> p.sample < records@.len() && time_ok(p.end))
            }),
        decreases n - k,
    {
        assert(segments@.take(k + 1).drop_last() =~= segments@.take(k as int));
        assert(segments@.take(k + 1).last() == segments@[k as int]);
        let s = segments[k];
        let r = &records[s.sample];
        let gap = if r.evidence.is_some() { OBSERVATION_GAP_MS } else { RECORD_JITTER_MS };
        let contiguous = match previous {
            Some(p) => records[p.sample].session_id == r.session_id && s.start - p.end <= gap,
            None => false,
        };
        let starts = s.category == Category::Distracted && (!contiguous || match previous {
            Some(p) => p.category != Category::Distracted,
            None => true,
        });
        if starts {
            count = count + 1;
            open = Some((s.start, s.sample));
        }
        if !contiguous {
            open = if s.category == Category::Distracted { Some((s.start, s.sample)) } else { None };
        }
        if s.category == Category::Work {
            match open {
                Some((start, id)) => {
                    recoveries.push(Recovery {
                        interruption_sample: id,
                        recovered_sample: s.sample,
                        start,
                        end: s.start,
                    });
                },
                None => {},
            }
            open = None;
        } else if s.category != Category::Distracted {
            open = None;
        }
        previous = Some(s);
        k = k + 1;
    }
    assert(segments@.take(n as int) =~= segments@);
    (count, recoveries)
}

// ---------------------------------------------------------------- records behind the segments

/// The records behind the first `k` segments, each once (by id), in order of first appearance.
pub open spec fn distinct_records(records: Seq<Sample>, segs: Seq<Segment>, k: int) -> Seq<usize>
    decreases k,
{
    if k <= 0 {
        Seq::empty()
    } else {
        let d = distinct_records(records, segs, k - 1);
        let s = segs[k - 1];
        if exists|j: int| 0 <= j < d.len() && (#[trigger] records[d[j] as int]).id@ == rec(records, s).id@ {
            d
        } else {
            d.push(s.sample)
        }
    }
}

/// App switches behind a record: all with local evidence, else all but the first.
pub open spec fn switch_weight(r: Sample) -> int {
    if r.evidence is Some {
        r.activity.switches@.len() as int
    } else if r.activity.switches@.len() > 0 {
        r.activity.switches@.len() - 1
    } else {
        0
    }
}

pub open spec fn switch_total(records: Seq<Sample>, ids: Seq<usize>) -> int
    decreases ids.len(),
{
    if ids.len() == 0 {
        0
    } else {
        switch_total(records, ids.drop_last()) + switch_weight(records[ids.last() as int])
    }
}

pub open spec fn indicator(b: bool) -> int {
    if b { 1 } else { 0 }
}

pub open spec fn count_with_screens(records: Seq<Sample>, ids: Seq<usize>) -> int
    decreases ids.len(),
{
    if ids.len() == 0 {
        0
    } else {
        count_with_screens(records, ids.drop_last())
            + indicator(crate::models::screen_files_of(records[ids.last() as int]).len() > 0)
    }
}

pub open spec fn count_local(records: Seq<Sample>, ids: Seq<usize>) -> int
    decreases ids.len(),
{
    if ids.len() == 0 {
        0
    } else {
        count_local(records, ids.drop_last())
            + indicator(records[ids.last() as int].state@ == "local"@)
    }
}

/// Counts over the distinct records behind the segments: app switches, records with
/// screenshots, and local checks.
#[derive(Clone, Debug)]
pub struct RecordCounts {
    pub switch_count: usize,
    pub ai_samples: usize,
    pub local_records: usize,
}

/// The records behind the segments, each once (by id), in order of first appearance.
fn distinct_ids(segments: &Vec<Segment>, records: &Vec<Sample>) -> (ids: Vec<usize>)
    requires
        forall|k: int| 0 <= k < segments@.len() ==> (#[trigger] segments@[k]).sample < records@.len(),
    ensures
        ids@ == distinct_records(records@, segments@, segments@.len() as int),
        forall|j: int| 0 <= j < ids@.len() ==> ids@[j] < records@.len(),
{
    let n = segments.len();
    let mut ids: Vec<usize> = Vec::new();
    let mut k: usize = 0;
    while k < n
        invariant
            k <= n == segments@.len(),
            forall|q: int| 0 <= q < segments@.len() ==> (#[trigger] segments@[q]).sample < records@.len(),
            ids@ == distinct_records(records@, segments@, k as int),
            ids@.len() <= k,
            forall|j: int| 0 <= j < ids@.len() ==> ids@[j] < records@.len(),
        decreases n - k,
    {
        let s = segments[k];
        let mut seen = false;
        let mut j: usize = 0;
        while j < ids.len()
            invariant
                j <= ids@.len(),
                s.sample < records@.len(),
                forall|q: int| 0 <= q < ids@.len() ==> ids@[q] < records@.len(),
                seen == exists|q: int| 0 <= q < j && (#[trigger] records@[ids@[q] as int]).id@ == records@[s.sample as int].id@,
            decreases ids@.len() - j,
        {
            if records[ids[j]].id == records[s.sample].id {
                seen = true;
            }
            j = j + 1;
        }
        if !seen {
            ids.push(s.sample);
        }
        k = k + 1;
    }
    ids
}

/// Whether the segments fit the records (see `segments_fit`).
pub fn segments_fit_check(segments: &Vec<Segment>, records: &Vec<Sample>) -> (r: bool)
    ensures
        r == segments_fit(segments@, records@),
{
    let n = segments.len();
    for k in 0..n
        invariant
            n == segments@.len(),
            forall|j: int| 0 <= j < k ==> {
                &&& (#[trigger] segments@[j]).sample < records@.len()
                &&& time_ok(segments@[j].start)
                &&& time_ok(segments@[j].end)
                &&& segments@[j].start <= segments@[j].end
            },
    {
        let s = segments[k];
        if !(s.sample < records.len() && -TIME_LIMIT <= s.start && s.start <= TIME_LIMIT && -TIME_LIMIT <= s.end
            && s.end <= TIME_LIMIT && s.start <= s.end) {
            return false;
        }
    }
    let mut total: i64 = 0;
    for k in 0..n
        invariant
            n == segments@.len(),
            forall|j: int| 0 <= j < n ==> {
                &&& (#[trigger] segments@[j]).sample < records@.len()
                &&& time_ok(segments@[j].start)
                &&& time_ok(segments@[j].end)
                &&& segments@[j].start <= segments@[j].end
            },
            total == sum_len(segments@.take(k as int)),
            0 <= total <= TIME_LIMIT,
    {
        let s = segments[k];
        let ghost nx = segments@.take(k + 1);
        proof {
            assert(nx.drop_last() =~= segments@.take(k as int));
            assert(nx.last() == segments@[k as int]);
        }
        if s.end - s.start > TIME_LIMIT - total {
            proof {
                lemma_sum_len_suffix_bound(segments@, k + 1);
            }
            return false;
        }
        total = total + (s.end - s.start);
    }
    proof {
        assert(segments@.take(n as int) =~= segments@);
    }
    true
}

/// Whether `derived` can take these segments and records (see `derived_inputs_ok`): they fit,
/// and the app switches behind them can be counted.
pub fn derived_inputs_check(segments: &Vec<Segment>, records: &Vec<Sample>) -> (r: bool)
    ensures
        r == derived_inputs_ok(segments@, records@),
{
    if !segments_fit_check(segments, records) {
        return false;
    }
    let ids = distinct_ids(segments, records);
    let ghost all = ids@;
    let m = ids.len();
    let mut total: usize = 0;
    for q in 0..m
        invariant
            m == ids@.len(),
            all == ids@,
            all == distinct_records(records@, segments@, segments@.len() as int),
            segments_fit(segments@, records@),
            forall|j: int| 0 <= j < ids@.len() ==> ids@[j] < records@.len(),
            total == switch_total(records@, all.take(q as int)),
    {
        let ghost next = all.take(q + 1);
        proof {
            assert(next.drop_last() =~= all.take(q as int));
            assert(next.last() == all[q as int]);
            lemma_switch_total_prefix(records@, all, q + 1);
        }
        let r = &records[ids[q]];
        let len = r.activity.switches.len();
        let weight = if r.evidence.is_some() { len } else if len > 0 { len - 1 } else { 0 };
        match total.checked_add(weight) {
            Some(t) => {
                total = t;
            },
            None => {
                assert(switch_weight(records@[all[q as int] as int]) == weight);
                assert(switch_total(records@, next) == total + weight);
                return false;
            },
        }
    }
    proof {
        assert(all.take(m as int) =~= all);
    }
    true
}

pub fn record_counts(segments: &Vec<Segment>, records: &Vec<Sample>) -> (r: RecordCounts)
    requires
        segments_fit(segments@, records@),
        switch_total(records@, distinct_records(records@, segments@, segments@.len() as int)) <= usize::MAX,
    ensures
        ({
            let ids = distinct_records(records@, segments@, segments@.len() as int);
            &&& r.switch_count == switch_total(records@, ids)
            &&& r.ai_samples == count_with_screens(records@, ids)
            &&& r.local_records == count_local(records@, ids)
        }),
{
    let ids = distinct_ids(segments, records);
    let ghost all = ids@;
    let m = ids.len();
    let mut switch_count: usize = 0;
    let mut ai_samples: usize = 0;
    let mut local_records: usize = 0;
    let mut q: usize = 0;
    while q < m
        invariant
            q <= m == ids@.len(),
            all == ids@,
            forall|j: int| 0 <= j < ids@.len() ==> ids@[j] < records@.len(),
            switch_total(records@, all) <= usize::MAX,
            switch_count == switch_total(records@, all.take(q as int)),
            ai_samples == count_with_screens(records@, all.take(q as int)),
            local_records == count_local(records@, all.take(q as int)),
            ai_samples <= q,
            local_records <= q,
        decreases m - q,
    {
        let ghost next = all.take(q + 1);
        assert(next.drop_last() =~= all.take(q as int));
        assert(next.last() == all[q as int]);
        proof {
            lemma_switch_total_prefix(records@, all, q + 1);
        }
        let r = &records[ids[q]];
        let len = r.activity.switches.len();
        let weight = if r.evidence.is_some() { len } else if len > 0 { len - 1 } else { 0 };
        switch_count = switch_count + weight;
        if r.screen_files().len() > 0 {
            ai_samples = ai_samples + 1;
        }
        if str_eq(r.state.as_str(), "local") {
            local_records = local_records + 1;
        }
        q = q + 1;
    }
    assert(all.take(m as int) =~= all);
    RecordCounts { switch_count, ai_samples, local_records }
}

proof fn lemma_switch_total_prefix(records: Seq<Sample>, ids: Seq<usize>, k: int)
    requires
        0 <= k <= ids.len(),
    ensures
        0 <= switch_total(records, ids.take(k)) <= switch_total(records, ids),
    decreases ids.len(),
{
    if ids.len() > 0 {
        if k == ids.len() {
            assert(ids.take(k) =~= ids);
            lemma_switch_total_prefix(records, ids.drop_last(), k - 1);
        } else {
            lemma_switch_total_prefix(records, ids.drop_last(), k);
            assert(ids.take(k) =~= ids.drop_last().take(k));
        }
        lemma_switch_total_prefix(records, ids.drop_last(), ids.len() - 1);
        assert(ids.drop_last().take(ids.len() - 1) =~= ids.drop_last());
    }
}

} // verus!

verus! {

// ---------------------------------------------------------------- hours of the day

/// Milliseconds of each category within one local hour.
#[derive(Clone, Copy, Debug, PartialEq, Eq, Structural)]
pub struct HourTotals {
    pub work: i64,
    pub distracted: i64,
    pub unknown: i64,
    pub away: i64,
}

pub open spec fn cell(h: HourTotals, c: Category) -> int {
    match c {
        Category::Work => h.work as int,
        Category::Distracted => h.distracted as int,
        Category::Unknown => h.unknown as int,
        Category::Away => h.away as int,
    }
}

pub open spec fn hours_sum(h: Seq<HourTotals>, c: Category) -> int
    decreases h.len(),
{
    if h.len() == 0 {
        0
    } else {
        hours_sum(h.drop_last(), c) + cell(h.last(), c)
    }
}

/// The milliseconds of the segments of category `c`.
pub open spec fn category_ms(segs: Seq<Segment>, c: Category) -> int
    decreases segs.len(),
{
    if segs.len() == 0 {
        0
    } else {
        category_ms(segs.drop_last(), c) + if segs.last().category == c { segs.last().end - segs.last().start } else { 0 }
    }
}

pub open spec fn cells_non_negative(h: Seq<HourTotals>) -> bool {
    forall|j: int| 0 <= j < h.len() ==> 0 <= (#[trigger] h[j]).work && 0 <= h[j].distracted
        && 0 <= h[j].unknown && 0 <= h[j].away
}

proof fn lemma_hours_update(h: Seq<HourTotals>, j: int, v: HourTotals, c: Category)
    requires
        0 <= j < h.len(),
    ensures
        hours_sum(h.update(j, v), c) == hours_sum(h, c) - cell(h[j], c) + cell(v, c),
    decreases h.len(),
{
    let u = h.update(j, v);
    if j == h.len() - 1 {
        assert(u.drop_last() =~= h.drop_last());
    } else {
        assert(u.drop_last() =~= h.drop_last().update(j, v));
        lemma_hours_update(h.drop_last(), j, v, c);
    }
}

proof fn lemma_cell_le_sum(h: Seq<HourTotals>, j: int, c: Category)
    requires
        0 <= j < h.len(),
        cells_non_negative(h),
    ensures
        0 <= cell(h[j], c) <= hours_sum(h, c),
    decreases h.len(),
{
    let init = h.drop_last();
    assert(cells_non_negative(init)) by {
        assert forall|q: int| 0 <= q < init.len() implies 0 <= (#[trigger] init[q]).work && 0 <= init[q].distracted
            && 0 <= init[q].unknown && 0 <= init[q].away by {
            assert(init[q] == h[q]);
        }
    }
    lemma_hours_sum_non_negative(init, c);
    if j < h.len() - 1 {
        lemma_cell_le_sum(init, j, c);
        assert(init[j] == h[j]);
    }
}

proof fn lemma_hours_sum_non_negative(h: Seq<HourTotals>, c: Category)
    requires
        cells_non_negative(h),
    ensures
        0 <= hours_sum(h, c),
    decreases h.len(),
{
    if h.len() > 0 {
        let init = h.drop_last();
        assert(cells_non_negative(init)) by {
            assert forall|q: int| 0 <= q < init.len() implies 0 <= (#[trigger] init[q]).work && 0 <= init[q].distracted
                && 0 <= init[q].unknown && 0 <= init[q].away by {
                assert(init[q] == h[q]);
            }
        }
        lemma_hours_sum_non_negative(init, c);
    }
}

proof fn lemma_zero_hours(n: int, h: Seq<HourTotals>, c: Category)
    requires
        h.len() == n,
        forall|j: int| 0 <= j < n ==> h[j] == (HourTotals { work: 0, distracted: 0, unknown: 0, away: 0 }),
    ensures
        hours_sum(h, c) == 0,
    decreases n,
{
    if n > 0 {
        lemma_zero_hours(n - 1, h.drop_last(), c);
    }
}

proof fn lemma_category_le_total(segs: Seq<Segment>, c: Category)
    requires
        forall|j: int| 0 <= j < segs.len() ==> (#[trigger] segs[j]).start <= segs[j].end,
    ensures
        0 <= category_ms(segs, c) <= sum_len(segs),
    decreases segs.len(),
{
    if segs.len() > 0 {
        let init = segs.drop_last();
        assert forall|j: int| 0 <= j < init.len() implies (#[trigger] init[j]).start <= init[j].end by {
            assert(init[j] == segs[j]);
        }
        lemma_category_le_total(init, c);
        assert(segs.last() == segs[segs.len() - 1]);
    }
}

/// The hour `h` with `n` more milliseconds of category `c`.
pub open spec fn with_added(h: HourTotals, c: Category, n: int) -> HourTotals {
    match c {
        Category::Work => HourTotals { work: (h.work + n) as i64, ..h },
        Category::Distracted => HourTotals { distracted: (h.distracted + n) as i64, ..h },
        Category::Unknown => HourTotals { unknown: (h.unknown + n) as i64, ..h },
        Category::Away => HourTotals { away: (h.away + n) as i64, ..h },
    }
}

fn add_to_cell(h: HourTotals, c: Category, n: i64) -> (r: HourTotals)
    requires
        i64::MIN <= cell(h, c) + n <= i64::MAX,
    ensures
        r == with_added(h, c, n as int),
        forall|d: Category| cell(r, d) == if d == c { cell(h, d) + n } else { cell(h, d) },
{
    match c {
        Category::Work => HourTotals { work: h.work + n, ..h },
        Category::Distracted => HourTotals { distracted: h.distracted + n, ..h },
        Category::Unknown => HourTotals { unknown: h.unknown + n, ..h },
        Category::Away => HourTotals { away: h.away + n, ..h },
    }
}

/// Where a walk over the local hours that stands at `t`, short of `end`, stops next, given the
/// local clock's reading at `t` as (hour, minute, second, millisecond): at the next local hour
/// boundary (at least a millisecond later), or at `end` if that comes first.
pub open spec fn chunk_stop(t: i64, end: i64, clock: (u32, u32, u32, u32)) -> int {
    let raw = (3600 - clock.1 * 60 - clock.2) * 1000 - clock.3;
    let step = if raw < 1 { 1 } else { raw };
    if t + step < end { t + step } else { end as int }
}

/// One step of spreading time over the local hours: the time from `t` goes to the hour that
/// the clock reading `clock` shows, up to the stop that `chunk_stop` gives.
pub fn hour_chunk(t: i64, end: i64, clock: (u32, u32, u32, u32)) -> (r: (usize, i64))
    requires
        t < end,
        clock.0 < 24,
        clock.1 < 60,
        clock.2 < 60,
        clock.3 < 2000,
    ensures
        r.0 == clock.0,
        r.1 == chunk_stop(t, end, clock),
        t < r.1 <= end,
{
    let raw: i64 = (3600 - clock.1 as i64 * 60 - clock.2 as i64) * 1000 - clock.3 as i64;
    let step: i64 = if raw < 1 { 1 } else { raw };
    let gap: i128 = end as i128 - t as i128;
    let stop: i64 = if (step as i128) < gap { t + step } else { end };
    (clock.0 as usize, stop)
}

/// Places one chunk of time of category `c`, from `t` on, given the local clock's reading at
/// `t`: the hour that the reading shows gains the time up to the chunk's stop (see
/// `chunk_stop`) in that category; every other cell is unchanged. Returns the stop.
pub fn place_chunk(hours: &mut Vec<HourTotals>, c: Category, t: i64, end: i64, reading: (u32, u32, u32, u32)) -> (stop: i64)
    requires
        old(hours)@.len() == 24,
        t < end,
        reading.0 < 24,
        reading.1 < 60,
        reading.2 < 60,
        reading.3 < 2000,
        cell(old(hours)@[reading.0 as int], c) + (end - t) <= i64::MAX,
        0 <= cell(old(hours)@[reading.0 as int], c),
    ensures
        stop == chunk_stop(t, end, reading),
        t < stop <= end,
        final(hours)@ == old(hours)@.update(reading.0 as int,
            with_added(old(hours)@[reading.0 as int], c, stop - t)),
{
    let (h, stop) = hour_chunk(t, end, reading);
    let updated = add_to_cell(hours[h], c, stop - t);
    hours.set(h, updated);
    stop
}

/// Every segment starts and ends at an instant the local clock can read.
pub open spec fn segments_readable(segs: Seq<Segment>) -> bool {
    forall|j: int| 0 <= j < segs.len() ==> clock_readable((#[trigger] segs[j]).start as int)
        && clock_readable(segs[j].end as int)
}

// ---------------------------------------------------------------- the walk over local hours

/// A reading of the local clock: (hour, minute, second, millisecond) in the ranges that
/// `local_clock` gives.
pub open spec fn reading_ok(r: (u32, u32, u32, u32)) -> bool {
    r.0 < 24 && r.1 < 60 && r.2 < 60 && r.3 < 2000
}

pub open spec fn readings_ok(rs: Seq<(u32, u32, u32, u32)>) -> bool {
    forall|i: int| 0 <= i < rs.len() ==> reading_ok(#[trigger] rs[i])
}

/// Where the walk stands: the first segment from `k` on that still has time from `t` (its own
/// start for each later segment), or past the last segment.
pub open spec fn settle(segs: Seq<Segment>, k: int, t: i64) -> (int, i64)
    decreases segs.len() - k,
{
    if k < 0 || k >= segs.len() || t < segs[k].end {
        (k, t)
    } else if k + 1 < segs.len() {
        settle(segs, k + 1, segs[k + 1].start)
    } else {
        (k + 1, t)
    }
}

/// The walk over the segments' time, cut at local hour boundaries: where it stands, the time
/// of each category in each local hour so far, and for each hour the first segment and instant
/// that reached it.
pub struct HourWalk {
    pub pos: (int, i64),
    pub hours: Seq<HourTotals>,
    pub pointers: Seq<Option<(usize, i64)>>,
}

pub open spec fn zero_hour() -> HourTotals {
    HourTotals { work: 0, distracted: 0, unknown: 0, away: 0 }
}

pub open spec fn walk_start(segs: Seq<Segment>) -> HourWalk {
    HourWalk {
        pos: if segs.len() > 0 { settle(segs, 0, segs[0].start) } else { (0, 0) },
        hours: Seq::new(24, |i: int| zero_hour()),
        pointers: Seq::new(24, |i: int| None::<(usize, i64)>),
    }
}

/// One step of the walk, given the clock's reading `r` at the instant where it stands: the
/// time up to the next local hour boundary (or the segment's end) goes to the hour that `r`
/// shows, that hour remembers the segment and instant if it had none, and the walk moves on.
pub open spec fn walk_step(segs: Seq<Segment>, w: HourWalk, r: (u32, u32, u32, u32)) -> HourWalk {
    let seg = segs[w.pos.0];
    let t = w.pos.1;
    let stop = chunk_stop(t, seg.end, r);
    let h = r.0 as int;
    HourWalk {
        pos: settle(segs, w.pos.0, stop as i64),
        hours: w.hours.update(h, with_added(w.hours[h], seg.category, stop - t)),
        pointers: if w.pointers[h] is None { w.pointers.update(h, Some((w.pos.0 as usize, t))) } else { w.pointers },
    }
}

/// The walk after the readings `rs`, one for each step, in order.
pub open spec fn walk(segs: Seq<Segment>, rs: Seq<(u32, u32, u32, u32)>) -> HourWalk
    decreases rs.len(),
{
    if rs.len() == 0 { walk_start(segs) } else { walk_step(segs, walk(segs, rs.drop_last()), rs.last()) }
}

/// The readings `rs` walk over all the segments' time.
pub open spec fn walk_done(segs: Seq<Segment>, rs: Seq<(u32, u32, u32, u32)>) -> bool {
    walk(segs, rs).pos.0 >= segs.len()
}

/// Each chunk of time goes to the local hour that the clock's reading at its start shows:
/// the hours are those of the whole walk for some readings in range (one per chunk).
pub open spec fn hours_by_clock(segs: Seq<Segment>, hours: Seq<HourTotals>) -> bool {
    exists|rs: Seq<(u32, u32, u32, u32)>| readings_ok(rs) && walk_done(segs, rs) && #[trigger] walk(segs, rs).hours == hours
}

/// For each local hour, the first segment and instant whose chunk the clock put in it.
pub open spec fn pointers_by_clock(segs: Seq<Segment>, pointers: Seq<Option<(usize, i64)>>) -> bool {
    exists|rs: Seq<(u32, u32, u32, u32)>| readings_ok(rs) && walk_done(segs, rs) && #[trigger] walk(segs, rs).pointers == pointers
}

/// The segments' time spread over the 24 local hours, cut at each local hour boundary. The
/// split depends on the machine's time zone; what holds whatever it is: each category's
/// hourly totals add up to that category's time. `None` where the local clock cannot read
/// some instant, which never happens while every segment lies within `CLOCK_RANGE`.
pub fn hourly(segments: &Vec<Segment>, records: &Vec<Sample>) -> (r: Option<Vec<HourTotals>>)
    requires
        segments_fit(segments@, records@),
    ensures
        segments_readable(segments@) ==> r is Some,
        r matches Some(h) ==> {
            &&& h@.len() == 24
            &&& cells_non_negative(h@)
            &&& forall|c: Category| #[trigger] hours_sum(h@, c) == category_ms(segments@, c)
            &&& hours_by_clock(segments@, h@)
        },
{
    let mut hours: Vec<HourTotals> = Vec::new();
    let zero = HourTotals { work: 0, distracted: 0, unknown: 0, away: 0 };
    for _j in 0..24usize
        invariant
            forall|q: int| 0 <= q < hours@.len() ==> hours@[q] == zero,
            hours@.len() == _j,
    {
        hours.push(zero);
    }
    proof {
        assert forall|c: Category| #[trigger] hours_sum(hours@, c) == 0 by {
            lemma_zero_hours(24, hours@, c);
        }
    }
    let n = segments.len();
    let ghost segs = segments@;
    let mut k: usize = 0;
    let ghost mut rs: Seq<(u32, u32, u32, u32)> = Seq::empty();
    proof {
        lemma_category_le_total(segs.take(0), Category::Work);
        assert(segs.take(0) =~= Seq::<Segment>::empty());
        assert(hours@ =~= walk_start(segs).hours);
    }
    while k < n
        invariant
            k <= n == segs.len(),
            segs == segments@,
            segments_fit(segs, records@),
            hours@.len() == 24,
            cells_non_negative(hours@),
            forall|c: Category| #[trigger] hours_sum(hours@, c) == category_ms(segs.take(k as int), c),
            readings_ok(rs),
            walk(segs, rs).hours == hours@,
            k < n ==> walk(segs, rs).pos == settle(segs, k as int, segs[k as int].start),
            k == n ==> walk(segs, rs).pos.0 >= n,
        decreases n - k,
    {
        let s = segments[k];
        let ghost before = hours@;
        let mut t = s.start;
        proof {
            lemma_sum_len_suffix_bound(segs, k + 1);
            let nx = segs.take(k + 1);
            assert(nx.drop_last() =~= segs.take(k as int));
            assert(nx.last() == segs[k as int]);
            assert forall|j: int| 0 <= j < nx.len() implies (#[trigger] nx[j]).start <= nx[j].end by {
                assert(nx[j] == segs[j]);
            }
            lemma_category_le_total(nx, s.category);
        }
        while t < s.end
            invariant
                k < n == segs.len(),
                segs == segments@,
                s == segs[k as int],
                segments_fit(segs, records@),
                s.start <= t <= s.end,
                hours@.len() == 24,
                cells_non_negative(hours@),
                forall|c: Category| #[trigger] hours_sum(hours@, c)
                    == category_ms(segs.take(k as int), c) + if c == s.category { t - s.start } else { 0 },
                category_ms(segs.take(k + 1), s.category) <= sum_len(segs),
                category_ms(segs.take(k + 1), s.category) == category_ms(segs.take(k as int), s.category) + (s.end - s.start),
                sum_len(segs) <= TIME_LIMIT,
                readings_ok(rs),
                walk(segs, rs).hours == hours@,
                walk(segs, rs).pos == settle(segs, k as int, t),
            decreases s.end - t,
        {
            let reading = match crate::clock::local_clock(t) {
                Some(c) => c,
                None => return None,
            };
            let h = reading.0;
            proof {
                lemma_cell_le_sum(hours@, h as int, s.category);
            }
            let ghost prior = hours@;
            let stop = place_chunk(&mut hours, s.category, t, s.end, reading);
            proof {
                let updated = with_added(prior[h as int], s.category, stop - t);
                assert forall|c: Category| #[trigger] hours_sum(prior.update(h as int, updated), c)
                    == hours_sum(prior, c) - cell(prior[h as int], c) + cell(updated, c) by {
                    lemma_hours_update(prior, h as int, updated, c);
                }
                assert(cell(updated, Category::Work) >= 0 && cell(updated, Category::Distracted) >= 0
                    && cell(updated, Category::Unknown) >= 0 && cell(updated, Category::Away) >= 0);
                assert forall|q: int| 0 <= q < 24 implies 0 <= (#[trigger] hours@[q]).work && 0 <= hours@[q].distracted
                    && 0 <= hours@[q].unknown && 0 <= hours@[q].away by {
                    if q != h as int {
                        assert(hours@[q] == prior[q]);
                    }
                }
            }
            proof {
                let nrs = rs.push(reading);
                assert(nrs.drop_last() =~= rs);
                assert(nrs.last() == reading);
                assert(settle(segs, k as int, t) == (k as int, t));
                assert(walk(segs, nrs).hours =~= hours@);
                assert forall|i: int| 0 <= i < nrs.len() implies reading_ok(#[trigger] nrs[i]) by {
                    if i < rs.len() {
                        assert(nrs[i] == rs[i]);
                    }
                }
                rs = nrs;
            }
            t = stop;
        }
        proof {
            assert(t == s.end);
            if k + 1 < n {
                assert(settle(segs, k as int, t) == settle(segs, k + 1, segs[k + 1].start));
            } else {
                assert(settle(segs, k as int, t) == (k + 1, t));
            }
            assert forall|c: Category| #[trigger] hours_sum(hours@, c) == category_ms(segs.take(k + 1), c) by {
                let nx = segs.take(k + 1);
                assert(nx.drop_last() =~= segs.take(k as int));
                assert(nx.last() == segs[k as int]);
            }
        }
        k = k + 1;
    }
    assert(segs.take(n as int) =~= segs);
    Some(hours)
}

} // verus!

verus! {

// ---------------------------------------------------------------- high and low hours

/// An hour with at least ten minutes judged as work or distracted (whole seconds of each).
pub open spec fn eligible(h: HourTotals) -> bool {
    h.work / 1000 + h.distracted / 1000 >= 600
}

/// The work share of `a` is below that of `b`, compared as exact fractions.
pub open spec fn share_below(a: HourTotals, b: HourTotals) -> bool {
    a.work * (b.work + b.distracted) < b.work * (a.work + a.distracted)
}

pub open spec fn share_equal(a: HourTotals, b: HourTotals) -> bool {
    a.work * (b.work + b.distracted) == b.work * (a.work + a.distracted)
}

/// `a` ranks below `b`: a lower work share, or an equal share and fewer whole work seconds.
pub open spec fn ranks_below(a: HourTotals, b: HourTotals) -> bool {
    share_below(a, b) || (share_equal(a, b) && a.work / 1000 < b.work / 1000)
}

/// Among the first `k` hours: the eligible hour that ranks highest (the latest among equals).
pub open spec fn highest(h: Seq<HourTotals>, k: int) -> Option<int>
    decreases k,
{
    if k <= 0 {
        None
    } else {
        let prev = highest(h, k - 1);
        if eligible(h[k - 1]) && (prev is None || !ranks_below(h[k - 1], h[prev->0])) {
            Some(k - 1)
        } else {
            prev
        }
    }
}

/// Among the first `k` hours: the eligible hour that ranks lowest (the earliest among equals).
pub open spec fn lowest(h: Seq<HourTotals>, k: int) -> Option<int>
    decreases k,
{
    if k <= 0 {
        None
    } else {
        let prev = lowest(h, k - 1);
        if eligible(h[k - 1]) && (prev is None || ranks_below(h[k - 1], h[prev->0])) {
            Some(k - 1)
        } else {
            prev
        }
    }
}

pub open spec fn eligible_count(h: Seq<HourTotals>, k: int) -> int
    decreases k,
{
    if k <= 0 {
        0
    } else {
        eligible_count(h, k - 1) + indicator(eligible(h[k - 1]))
    }
}

/// The highest and lowest hours, shown only where at least two hours are eligible and their
/// work shares differ: one hour, or equal shares, show no contrast.
pub open spec fn contrast_periods(h: Seq<HourTotals>) -> (Option<int>, Option<int>) {
    let hi = highest(h, h.len() as int);
    let lo = lowest(h, h.len() as int);
    if eligible_count(h, h.len() as int) >= 2 && hi is Some && lo is Some && !share_equal(h[lo->0], h[hi->0]) {
        (hi, lo)
    } else {
        (None, None)
    }
}

pub open spec fn cells_in_range(h: Seq<HourTotals>) -> bool {
    forall|j: int| 0 <= j < h.len() ==> 0 <= (#[trigger] h[j]).work <= TIME_LIMIT && 0 <= h[j].distracted <= TIME_LIMIT
}

proof fn lemma_extremes_in_range(h: Seq<HourTotals>, k: int)
    requires
        0 <= k <= h.len(),
    ensures
        highest(h, k) matches Some(j) ==> 0 <= j < k && eligible(h[j]),
        lowest(h, k) matches Some(j) ==> 0 <= j < k && eligible(h[j]),
        eligible_count(h, k) >= 0,
        eligible_count(h, k) == 0 <==> highest(h, k) is None,
        eligible_count(h, k) == 0 <==> lowest(h, k) is None,
    decreases k,
{
    if k > 0 {
        lemma_extremes_in_range(h, k - 1);
    }
}

fn ranks_below_exec(a: HourTotals, b: HourTotals) -> (r: bool)
    requires
        0 <= a.work <= TIME_LIMIT && 0 <= a.distracted <= TIME_LIMIT,
        0 <= b.work <= TIME_LIMIT && 0 <= b.distracted <= TIME_LIMIT,
    ensures
        r == ranks_below(a, b),
{
    proof {
        assert(0 <= a.work * (b.work + b.distracted) <= TIME_LIMIT * (2 * TIME_LIMIT)) by (nonlinear_arith)
            requires 0 <= a.work <= TIME_LIMIT, 0 <= b.work + b.distracted <= 2 * TIME_LIMIT;
        assert(0 <= b.work * (a.work + a.distracted) <= TIME_LIMIT * (2 * TIME_LIMIT)) by (nonlinear_arith)
            requires 0 <= b.work <= TIME_LIMIT, 0 <= a.work + a.distracted <= 2 * TIME_LIMIT;
    }
    let x = a.work as i128 * (b.work as i128 + b.distracted as i128);
    let y = b.work as i128 * (a.work as i128 + a.distracted as i128);
    x < y || (x == y && a.work / 1000 < b.work / 1000)
}

fn share_equal_exec(a: HourTotals, b: HourTotals) -> (r: bool)
    requires
        0 <= a.work <= TIME_LIMIT && 0 <= a.distracted <= TIME_LIMIT,
        0 <= b.work <= TIME_LIMIT && 0 <= b.distracted <= TIME_LIMIT,
    ensures
        r == share_equal(a, b),
{
    proof {
        assert(0 <= a.work * (b.work + b.distracted) <= TIME_LIMIT * (2 * TIME_LIMIT)) by (nonlinear_arith)
            requires 0 <= a.work <= TIME_LIMIT, 0 <= b.work + b.distracted <= 2 * TIME_LIMIT;
        assert(0 <= b.work * (a.work + a.distracted) <= TIME_LIMIT * (2 * TIME_LIMIT)) by (nonlinear_arith)
            requires 0 <= b.work <= TIME_LIMIT, 0 <= a.work + a.distracted <= 2 * TIME_LIMIT;
    }
    a.work as i128 * (b.work as i128 + b.distracted as i128) == b.work as i128 * (a.work as i128 + a.distracted as i128)
}

/// The hour of highest and of lowest work share (see `contrast_periods`).
///
/// Shares are compared as exact fractions; for hour-sized totals (up to 2^26 ms) this orders
/// them as their binary64 quotients do.
pub fn periods(hours: &Vec<HourTotals>) -> (r: (Option<usize>, Option<usize>))
    requires
        cells_in_range(hours@),
    ensures
        (match r.0 { Some(j) => Some(j as int), None => None }) == contrast_periods(hours@).0,
        (match r.1 { Some(j) => Some(j as int), None => None }) == contrast_periods(hours@).1,
{
    let n = hours.len();
    let mut hi: Option<usize> = None;
    let mut lo: Option<usize> = None;
    let mut count: usize = 0;
    let mut k: usize = 0;
    while k < n
        invariant
            k <= n == hours@.len(),
            cells_in_range(hours@),
            (match hi { Some(j) => Some(j as int), None => None }) == highest(hours@, k as int),
            (match lo { Some(j) => Some(j as int), None => None }) == lowest(hours@, k as int),
            count == eligible_count(hours@, k as int),
            count <= k,
        decreases n - k,
    {
        proof {
            lemma_extremes_in_range(hours@, k as int);
        }
        let h = hours[k];
        if h.work / 1000 + h.distracted / 1000 >= 600 {
            count = count + 1;
            let take_hi = match hi {
                Some(j) => !ranks_below_exec(h, hours[j]),
                None => true,
            };
            if take_hi {
                hi = Some(k);
            }
            let take_lo = match lo {
                Some(j) => ranks_below_exec(h, hours[j]),
                None => true,
            };
            if take_lo {
                lo = Some(k);
            }
        }
        k = k + 1;
    }
    proof {
        lemma_extremes_in_range(hours@, n as int);
    }
    match (hi, lo) {
        (Some(a), Some(b)) => {
            if count >= 2 && !share_equal_exec(hours[b], hours[a]) {
                (Some(a), Some(b))
            } else {
                (None, None)
            }
        },
        _ => (None, None),
    }
}

// ---------------------------------------------------------------- the day's rhythm

/// The derived observations of a day.
#[derive(Clone, Debug)]
pub struct Rhythm {
    pub hourly: Vec<HourTotals>,
    pub interruptions: usize,
    pub current_run_seconds: i64,
    pub high_period: Option<usize>,
    pub low_period: Option<usize>,
    pub recoveries: Vec<Recovery>,
    pub switch_count: usize,
    pub ai_samples: usize,
    pub local_records: usize,
}

pub open spec fn derived_inputs_ok(segs: Seq<Segment>, records: Seq<Sample>) -> bool {
    &&& segments_fit(segs, records)
    &&& switch_total(records, distinct_records(records, segs, segs.len() as int)) <= usize::MAX
}

/// The day's rhythm: hourly totals, interruptions and recoveries, the current work run, the
/// high and low hours, and counts over the records behind the segments. `None` where the
/// local clock cannot read some instant of a segment, which never happens while every
/// segment lies within `CLOCK_RANGE`.
pub fn derived(segments: &Vec<Segment>, records: &Vec<Sample>) -> (r: Option<Rhythm>)
    requires
        derived_inputs_ok(segments@, records@),
    ensures
        segments_readable(segments@) ==> r is Some,
        r matches Some(x) ==> {
            let ids = distinct_records(records@, segments@, segments@.len() as int);
            let scan = interruption_scan(records@, segments@);
            &&& x.hourly@.len() == 24
            &&& cells_non_negative(x.hourly@)
            &&& (forall|c: Category| #[trigger] hours_sum(x.hourly@, c) == category_ms(segments@, c))
            &&& hours_by_clock(segments@, x.hourly@)
            &&& x.interruptions == scan.count
            &&& x.recoveries@ == scan.recoveries
            &&& x.current_run_seconds == trailing_seconds(segments@, records@, Category::Work)
            &&& (match x.high_period { Some(j) => Some(j as int), None => None }) == contrast_periods(x.hourly@).0
            &&& (match x.low_period { Some(j) => Some(j as int), None => None }) == contrast_periods(x.hourly@).1
            &&& x.switch_count == switch_total(records@, ids)
            &&& x.ai_samples == count_with_screens(records@, ids)
            &&& x.local_records == count_local(records@, ids)
        },
{
    let hourly = match hourly(segments, records) {
        Some(h) => h,
        None => return None,
    };
    proof {
        let segs = segments@;
        assert forall|j: int| 0 <= j < hourly@.len() implies 0 <= (#[trigger] hourly@[j]).work <= TIME_LIMIT
            && 0 <= hourly@[j].distracted <= TIME_LIMIT by {
            lemma_cell_le_sum(hourly@, j, Category::Work);
            lemma_cell_le_sum(hourly@, j, Category::Distracted);
            lemma_category_le_total(segs, Category::Work);
            lemma_category_le_total(segs, Category::Distracted);
        }
    }
    let (high_period, low_period) = periods(&hourly);
    let (interruptions, recoveries) = interruptions(segments, records);
    let counts = record_counts(segments, records);
    Some(Rhythm {
        hourly,
        interruptions,
        current_run_seconds: trailing_run(segments, records, Category::Work),
        high_period,
        low_period,
        recoveries,
        switch_count: counts.switch_count,
        ai_samples: counts.ai_samples,
        local_records: counts.local_records,
    })
}

} // verus!

verus! {

// ---------------------------------------------------------------- reminders

/// Which day to read, and which data (`live` unless given).
#[derive(Clone, Debug)]
pub struct QueryDay {
    pub date: String,
    pub mode: String,
}

/// How long to hold reminders back, in minutes.
#[derive(Clone, Debug)]
pub struct Snooze {
    pub minutes: u32,
}

/// The phrase typed to confirm a reset.
#[derive(Clone, Debug)]
pub struct ResetDataInput {
    pub confirmation: String,
}

/// What the reminder remembers: until when it is snoozed, when it last prompted and for
/// which record, and the helper's error from the last prompt.
#[derive(Clone, Debug)]
pub struct ReminderState {
    pub snoozed_until: i64,
    pub last_sent: i64,
    pub last_sample: String,
    pub error: Option<String>,
}

impl Default for ReminderState {
    fn default() -> (r: Self)
        ensures
            r.snoozed_until == 0 && r.last_sent == 0 && r.last_sample@.len() == 0 && r.error is None,
    {
        ReminderState { snoozed_until: 0, last_sent: 0, last_sample: String::new(), error: None }
    }
}

/// Fifteen minutes: the least time between two reminders.
pub const REMINDER_COOLDOWN_MS: i64 = 900_000;

/// A reminder for record `id` may be sent at `now`: not snoozed, none in the last fifteen
/// minutes, and none yet for this record.
pub open spec fn may_prompt(r: ReminderState, now: i64, id: Seq<char>) -> bool {
    now >= r.snoozed_until && now - r.last_sent >= REMINDER_COOLDOWN_MS && r.last_sample@ != id
}

impl ReminderState {
    /// Holds reminders back for `minutes` from `now`; at most a day.
    pub fn snooze(&mut self, minutes: u32, now: i64) -> (r: Result<(), String>)
        requires
            time_ok(now),
        ensures
            minutes > 1440 ==> (r matches Err(m) && m@ == "暂缓时间不能超过一天"@ && *final(self) == *old(self)),
            minutes <= 1440 ==> r is Ok && *final(self) == (ReminderState { snoozed_until: (now + minutes * 60_000) as i64, ..*old(self) }),
    {
        if minutes > 1440 {
            return Err(String::from_str("暂缓时间不能超过一天"));
        }
        self.snoozed_until = now + minutes as i64 * 60_000;
        Ok(())
    }

    /// Claims a reminder for record `id` at `now` if one may be sent, remembering when and
    /// for which record; otherwise nothing changes.
    pub fn claim(&mut self, now: i64, id: &str) -> (sent: bool)
        ensures
            sent == may_prompt(*old(self), now, id@),
            sent ==> final(self).last_sent == now && final(self).last_sample@ == id@
                && final(self).snoozed_until == old(self).snoozed_until && final(self).error == old(self).error,
            !sent ==> *final(self) == *old(self),
    {
        if now < self.snoozed_until || (now as i128) - (self.last_sent as i128) < REMINDER_COOLDOWN_MS as i128
            || str_eq(self.last_sample.as_str(), id) {
            return false;
        }
        self.last_sent = now;
        self.last_sample = String::from_str(id);
        true
    }
}

/// The position of the last segment whose record has a model judgment.
pub fn last_analyzed_segment(segments: &Vec<Segment>, records: &Vec<Sample>) -> (r: Option<usize>)
    requires
        segments_fit(segments@, records@),
    ensures
        match r {
            Some(j) => j as int == last_analyzed(segments@, records@, segments@.len() as int) && j < segments@.len(),
            None => last_analyzed(segments@, records@, segments@.len() as int) == -1,
        },
{
    let n = segments.len();
    let mut j = n;
    while j > 0 && records[segments[j - 1].sample].analysis.is_none()
        invariant
            j <= n == segments@.len(),
            segments_fit(segments@, records@),
            last_analyzed(segments@, records@, n as int) == last_analyzed(segments@, records@, j as int),
        decreases j,
    {
        j = j - 1;
    }
    if j == 0 {
        None
    } else {
        Some(j - 1)
    }
}

/// The reminder card's text for a record of `task`, after `minutes` minutes.
pub fn reminder_message(task: &str, minutes: u32) -> (r: String)
    ensures
        r@ == (if blank(task@) { "近期采样多次显示可能在进行非工作活动"@ } else { "近期采样多次提示可能偏离填写的任务"@ })
            + "，采样相隔至少 "@ + decimal(minutes as nat) + " 分钟。中间未连续判断；也可以先休息。"@,
{
    let mut r = if is_blank(task) {
        String::from_str("近期采样多次显示可能在进行非工作活动")
    } else {
        String::from_str("近期采样多次提示可能偏离填写的任务")
    };
    r.append("，采样相隔至少 ");
    let number = decimal_string(minutes);
    r.append(number.as_str());
    r.append(" 分钟。中间未连续判断；也可以先休息。");
    r
}

/// Whether the phrase confirms a reset: `清空全部数据`, white space around it ignored.
pub fn reset_confirmed(confirmation: &str) -> (r: bool)
    ensures
        r == (trimmed(confirmation@) == "清空全部数据"@),
{
    let t = trim_text(confirmation);
    str_eq(t.as_str(), "清空全部数据")
}

/// Data may be erased only while the recorder is stopped, the analysis slot is free and no
/// record waits for or is in analysis.
pub fn erase_blocked(running: bool, slot_free: bool, samples: &Vec<Sample>) -> (r: bool)
    ensures
        r == (running || !slot_free || crate::api::outstanding_count(samples@) > 0),
{
    running || !slot_free || crate::api::count_outstanding(samples) > 0
}

/// Reminders are rate-limited: none within fifteen minutes of the last one, none twice for
/// the same record, and none while snoozed. (`claim` records each reminder it allows.)
pub proof fn law_reminder_cooldown(r: ReminderState, now: i64, id: Seq<char>)
    ensures
        now < r.last_sent + REMINDER_COOLDOWN_MS ==> !may_prompt(r, now, id),
        r.last_sample@ == id ==> !may_prompt(r, now, id),
        now < r.snoozed_until ==> !may_prompt(r, now, id),
{
}

} // verus!

verus! {

// ---------------------------------------------------------------- laws of runs and recoveries

/// Every segment from `i` up to (not including) `j` has category `c`.
pub open spec fn all_of(segs: Seq<Segment>, c: Category, i: int, j: int) -> bool {
    forall|k: int| i <= k < j ==> (#[trigger] segs[k]).category == c
}

proof fn lemma_trailing_suffix(segs: Seq<Segment>, records: Seq<Sample>, c: Category, k: int, edge: i64)
    requires
        0 <= k <= segs.len(),
    ensures
        exists|i: int| 0 <= i <= k && all_of(segs, c, i, k)
            && #[trigger] sum_len(segs.subrange(i, k)) == trailing_ms(segs, records, c, k, edge),
    decreases k,
{
    if k == 0 {
        assert(segs.subrange(0, 0) =~= Seq::<Segment>::empty());
        assert(sum_len(segs.subrange(0, k)) == trailing_ms(segs, records, c, k, edge));
    } else {
        let s = segs[k - 1];
        if s.category != c
            || rec(records, s).session_id@ != rec(records, segs.last()).session_id@
            || edge - s.end > join_gap(rec(records, s))
        {
            assert(segs.subrange(k, k) =~= Seq::<Segment>::empty());
            assert(sum_len(segs.subrange(k, k)) == trailing_ms(segs, records, c, k, edge));
        } else {
            lemma_trailing_suffix(segs, records, c, k - 1, s.start);
            let i0 = choose|i: int| 0 <= i <= k - 1 && all_of(segs, c, i, k - 1)
                && #[trigger] sum_len(segs.subrange(i, k - 1)) == trailing_ms(segs, records, c, k - 1, s.start);
            assert(segs.subrange(i0, k).drop_last() =~= segs.subrange(i0, k - 1));
            assert(segs.subrange(i0, k).last() == s);
            assert(sum_len(segs.subrange(i0, k)) == trailing_ms(segs, records, c, k, edge));
            assert(all_of(segs, c, i0, k));
        }
    }
}

/// The trailing run of a category counts only the last segments, all of that category: it is
/// the total length of some final stretch of segments each of category `category`, so no
/// segment before a segment of another category contributes, and it is 0 when the last
/// segment has another category.
pub proof fn law_trailing_run_is_a_final_stretch(segs: Seq<Segment>, records: Seq<Sample>, category: Category)
    ensures
        exists|i: int| 0 <= i <= segs.len() && all_of(segs, category, i, segs.len() as int)
            && #[trigger] sum_len(segs.subrange(i, segs.len() as int)) / 1000 == trailing_seconds(segs, records, category),
        segs.len() > 0 && segs.last().category != category ==> trailing_seconds(segs, records, category) == 0,
{
    let n = segs.len() as int;
    if n == 0 {
        assert(segs.subrange(0, 0) =~= Seq::<Segment>::empty());
        assert(sum_len(segs.subrange(0, n)) / 1000 == trailing_seconds(segs, records, category));
    } else {
        lemma_trailing_suffix(segs, records, category, n, segs.last().end);
        assert(segs[n - 1] == segs.last());
    }
}

} // verus!

verus! {

/// Segments `a` to `b` follow one another: each continues the one before it (same session,
/// within the join gap).
pub open spec fn chained(records: Seq<Sample>, segs: Seq<Segment>, a: int, b: int) -> bool {
    forall|k: int| a < k <= b ==> continues(records, Some(segs[k - 1]), #[trigger] segs[k])
}

/// An interruption that began at segment `a` is still open at segment `b`: `a` is distracted
/// with that start and record, every segment from `a` to `b` is distracted, and they follow
/// one another.
pub open spec fn open_from(records: Seq<Sample>, segs: Seq<Segment>, a: int, b: int, start: i64, sample: usize) -> bool {
    &&& 0 <= a <= b < segs.len()
    &&& segs[a].start == start && segs[a].sample == sample
    &&& all_of(segs, Category::Distracted, a, b + 1)
    &&& chained(records, segs, a, b)
}

/// The recovery `rv` joins the distracted segment `a` and the work segment `b` of the same
/// session: every segment between them is distracted, and each segment from `a` to `b`
/// continues the one before it.
pub open spec fn recovery_at(records: Seq<Sample>, segs: Seq<Segment>, rv: Recovery, a: int, b: int) -> bool {
    &&& 0 <= a < b < segs.len()
    &&& segs[a].category == Category::Distracted
    &&& segs[a].start == rv.start && segs[a].sample == rv.interruption_sample
    &&& segs[b].category == Category::Work
    &&& segs[b].start == rv.end && segs[b].sample == rv.recovered_sample
    &&& all_of(segs, Category::Distracted, a, b)
    &&& chained(records, segs, a, b)
}

pub open spec fn recovery_linked(records: Seq<Sample>, segs: Seq<Segment>, rv: Recovery) -> bool {
    exists|a: int, b: int| #[trigger] recovery_at(records, segs, rv, a, b)
}

proof fn lemma_chained_extend(records: Seq<Sample>, segs: Seq<Segment>, a: int, b: int)
    requires
        segs.len() > 0,
        0 <= a <= b < segs.len() - 1,
        chained(records, segs.drop_last(), a, b),
    ensures
        chained(records, segs, a, b),
{
    let init = segs.drop_last();
    assert forall|k: int| a < k <= b implies continues(records, Some(segs[k - 1]), #[trigger] segs[k]) by {
        assert(segs[k] == init[k] && segs[k - 1] == init[k - 1]);
    }
}

proof fn lemma_scan_links(records: Seq<Sample>, segs: Seq<Segment>)
    ensures
        ({
            let st = interruption_scan(records, segs);
            &&& segs.len() == 0 ==> st.previous is None
            &&& segs.len() > 0 ==> st.previous == Some(segs.last())
            &&& st.open matches Some(o) ==> exists|a: int| #[trigger] open_from(records, segs, a, segs.len() - 1, o.0, o.1)
            &&& forall|i: int| 0 <= i < st.recoveries.len() ==> recovery_linked(records, segs, #[trigger] st.recoveries[i])
        }),
    decreases segs.len(),
{
    if segs.len() > 0 {
        let init = segs.drop_last();
        lemma_scan_links(records, init);
        let prev = interruption_scan(records, init);
        let st = interruption_scan(records, segs);
        let s = segs.last();
        let m = segs.len() - 1;
        assert(segs[m] == s);
        let contiguous = continues(records, prev.previous, s);
        if m > 0 {
            assert(prev.previous == Some(segs[m - 1])) by {
                assert(init.last() == init[m - 1]);
                assert(init[m - 1] == segs[m - 1]);
            }
        }
        // Earlier recoveries stay linked.
        assert forall|i: int| 0 <= i < prev.recoveries.len() implies recovery_linked(records, segs, #[trigger] prev.recoveries[i]) by {
            let rv = prev.recoveries[i];
            assert(recovery_linked(records, init, rv));
            let (a, b) = choose|a: int, b: int| #[trigger] recovery_at(records, init, rv, a, b);
            lemma_chained_extend(records, segs, a, b);
            assert(segs[a] == init[a] && segs[b] == init[b]);
            assert forall|k: int| a <= k < b implies (#[trigger] segs[k]).category == Category::Distracted by {
                assert(segs[k] == init[k]);
            }
            assert(recovery_at(records, segs, rv, a, b));
        }
        // The interruption open after `s`, if any, began at some `a` and is open through `s`.
        let starts = s.category == Category::Distracted
            && (!contiguous || prev.previous is None || prev.previous->0.category != Category::Distracted);
        let open1 = if starts { Some((s.start, s.sample)) } else { prev.open };
        let open2 = if !contiguous {
            if s.category == Category::Distracted { Some((s.start, s.sample)) } else { None }
        } else {
            open1
        };
        match open2 {
            Some(o) => {
                let a = if !contiguous || starts {
                    m
                } else {
                    let o0 = prev.open->0;
                    choose|a: int| #[trigger] open_from(records, init, a, init.len() - 1, o0.0, o0.1)
                };
                assert(0 <= a <= m && segs[a].start == o.0 && segs[a].sample == o.1) by {
                    if !(!contiguous || starts) {
                        assert(segs[a] == init[a]);
                    }
                }
                assert(all_of(segs, Category::Distracted, a, m)) by {
                    assert forall|k: int| a <= k < m implies (#[trigger] segs[k]).category == Category::Distracted by {
                        assert(segs[k] == init[k]);
                    }
                }
                assert(chained(records, segs, a, m)) by {
                    if a < m {
                        lemma_chained_extend(records, segs, a, m - 1);
                        assert(continues(records, Some(segs[m - 1]), segs[m]));
                    }
                }
                if s.category == Category::Work {
                    let rv = Recovery { interruption_sample: o.1, recovered_sample: s.sample, start: o.0, end: s.start };
                    assert(a < m) by {
                        if a == m {
                            assert(segs[a].category == Category::Distracted);
                        }
                    }
                    assert(recovery_at(records, segs, rv, a, m));
                    assert(st.recoveries == prev.recoveries.push(rv));
                    assert forall|i: int| 0 <= i < st.recoveries.len() implies recovery_linked(records, segs, #[trigger] st.recoveries[i]) by {
                        if i < prev.recoveries.len() {
                            assert(st.recoveries[i] == prev.recoveries[i]);
                        }
                    }
                }
                if s.category == Category::Distracted {
                    assert(open_from(records, segs, a, m, o.0, o.1));
                }
            },
            None => {},
        }
    }
}

/// Every recovery joins a distracted segment and a work segment of one session through a
/// chain of segments each continuing the one before, all distracted between them: a work
/// segment that does not continue the previous segment never ends a recovery.
pub proof fn law_recoveries_are_chained(records: Seq<Sample>, segs: Seq<Segment>, i: int)
    requires
        0 <= i < interruption_scan(records, segs).recoveries.len(),
    ensures
        exists|a: int, b: int| #[trigger] recovery_at(records, segs, interruption_scan(records, segs).recoveries[i], a, b),
{
    lemma_scan_links(records, segs);
    assert(recovery_linked(records, segs, interruption_scan(records, segs).recoveries[i]));
}

} // verus!

verus! {

/// The segment's record carries a confident distracted judgment.
pub open spec fn judged_distracted(records: Seq<Sample>, s: Segment) -> bool {
    rec(records, s).analysis is Some && s.category == Category::Distracted && confident(rec(records, s))
}

proof fn lemma_walk_unbroken(
    segs: Seq<Segment>,
    records: Seq<Sample>,
    last: Segment,
    threshold: i64,
    k: int,
    edge: i64,
    count: int,
)
    requires
        0 <= k <= segs.len(),
        sampled_walk(segs, records, last, threshold, k, edge, count),
    ensures
        exists|i: int| 0 <= i < k && #[trigger] judged_distracted(records, segs[i])
            && last.start - segs[i].start >= threshold * 1000
            && forall|m: int| i <= m < k && (#[trigger] rec(records, segs[m])).analysis is Some
                ==> judged_distracted(records, segs[m]),
    decreases k,
{
    let s = segs[k - 1];
    let r = rec(records, s);
    if r.analysis is Some && s.category == Category::Distracted && confident(r)
        && count + 1 >= 2 && last.start - s.start >= threshold * 1000 {
        assert(judged_distracted(records, segs[k - 1]));
    } else if r.analysis is Some {
        lemma_walk_unbroken(segs, records, last, threshold, k - 1, s.start, count + 1);
        let i = choose|i: int| 0 <= i < k - 1 && #[trigger] judged_distracted(records, segs[i])
            && last.start - segs[i].start >= threshold * 1000
            && forall|m: int| i <= m < k - 1 && (#[trigger] rec(records, segs[m])).analysis is Some
                ==> judged_distracted(records, segs[m]);
        assert(judged_distracted(records, segs[k - 1]));
        assert forall|m: int| i <= m < k && (#[trigger] rec(records, segs[m])).analysis is Some
            implies judged_distracted(records, segs[m]) by {}
    } else {
        lemma_walk_unbroken(segs, records, last, threshold, k - 1, s.start, count);
        let i = choose|i: int| 0 <= i < k - 1 && #[trigger] judged_distracted(records, segs[i])
            && last.start - segs[i].start >= threshold * 1000
            && forall|m: int| i <= m < k - 1 && (#[trigger] rec(records, segs[m])).analysis is Some
                ==> judged_distracted(records, segs[m]);
        assert forall|m: int| i <= m < k && (#[trigger] rec(records, segs[m])).analysis is Some
            implies judged_distracted(records, segs[m]) by {}
    }
}

/// With local evidence, a reminder is due only after an unbroken stretch of distraction: some
/// confident distracted judgment lies at least `threshold` seconds before the latest judgment,
/// and every judgment from it to the end is itself a confident distracted one; a work (or any
/// other) judgment in between rules the reminder out.
pub proof fn law_reminder_needs_unbroken_distraction(segs: Seq<Segment>, records: Seq<Sample>, now: i64, threshold: i64)
    requires
        any_evidence(segs, records),
        reminder_due(segs, records, now, threshold),
    ensures
        ({
            let j = last_analyzed(segs, records, segs.len() as int);
            exists|i: int| 0 <= i < segs.len() && #[trigger] judged_distracted(records, segs[i])
                && segs[j].start - segs[i].start >= threshold * 1000
                && forall|m: int| i <= m < segs.len() && (#[trigger] rec(records, segs[m])).analysis is Some
                    ==> judged_distracted(records, segs[m])
        }),
{
    let j = last_analyzed(segs, records, segs.len() as int);
    lemma_walk_unbroken(segs, records, segs[j], threshold, segs.len() as int, segs.last().end, 0);
}

} // verus!

verus! {

proof fn lemma_share_transitive(x: HourTotals, p: HourTotals, j: HourTotals)
    requires
        0 <= x.work && 0 <= x.distracted,
        0 <= p.work && 0 <= p.distracted && p.work + p.distracted > 0,
        0 <= j.work && 0 <= j.distracted,
        x.work * (p.work + p.distracted) >= p.work * (x.work + x.distracted),
        p.work * (j.work + j.distracted) >= j.work * (p.work + p.distracted),
    ensures
        x.work * (j.work + j.distracted) >= j.work * (x.work + x.distracted),
{
    let xw = x.work as int;
    let xs = x.work + x.distracted;
    let pw = p.work as int;
    let ps = p.work + p.distracted;
    let jw = j.work as int;
    let js = j.work + j.distracted;
    assert(xw * js >= jw * xs) by (nonlinear_arith)
        requires
            xw >= 0, xs >= 0, pw >= 0, ps > 0, jw >= 0, js >= 0,
            xw * ps >= pw * xs,
            pw * js >= jw * ps;
}

proof fn lemma_none_eligible(h: Seq<HourTotals>, k: int)
    requires
        0 <= k <= h.len(),
        eligible_count(h, k) == 0,
    ensures
        forall|j: int| 0 <= j < k ==> !eligible(#[trigger] h[j]),
    decreases k,
{
    if k > 0 {
        lemma_extremes_in_range(h, k - 1);
        lemma_none_eligible(h, k - 1);
    }
}

proof fn lemma_highest_tops(h: Seq<HourTotals>, k: int)
    requires
        0 <= k <= h.len(),
        cells_non_negative(h),
    ensures
        highest(h, k) matches Some(x) ==> forall|j: int| 0 <= j < k && eligible(#[trigger] h[j])
            ==> h[x].work * (h[j].work + h[j].distracted) >= h[j].work * (h[x].work + h[x].distracted),
    decreases k,
{
    if k > 0 {
        lemma_highest_tops(h, k - 1);
        lemma_extremes_in_range(h, k - 1);
        lemma_extremes_in_range(h, k);
        let prev = highest(h, k - 1);
        let c = h[k - 1];
        if eligible(c) && (prev is None || !ranks_below(c, h[prev->0])) {
            assert forall|j: int| 0 <= j < k && eligible(#[trigger] h[j])
                implies c.work * (h[j].work + h[j].distracted) >= h[j].work * (c.work + c.distracted) by {
                if j < k - 1 {
                    if prev is None {
                        lemma_none_eligible(h, k - 1);
                    } else {
                        let p = h[prev->0];
                        lemma_share_transitive(c, p, h[j]);
                    }
                }
            }
        } else {
            if prev is Some && eligible(c) {
                let p = h[prev->0];
                assert(p.work * (c.work + c.distracted) >= c.work * (p.work + p.distracted));
            }
        }
    }
}

/// High and low hours are named only where their work shares differ: whenever both are named,
/// both have at least ten minutes judged, and the high hour's share of work in its judged time
/// (work / (work + distracted)) is strictly greater than the low hour's; so where all eligible
/// hours have equal shares, none is named.
pub proof fn law_named_periods_differ(h: Seq<HourTotals>)
    requires
        cells_non_negative(h),
    ensures
        contrast_periods(h).0 is Some <==> contrast_periods(h).1 is Some,
        contrast_periods(h).0 matches Some(a) ==> (contrast_periods(h).1 matches Some(b)
            && 0 <= a < h.len() && 0 <= b < h.len()
            && h[a].work / 1000 + h[a].distracted / 1000 >= 600
            && h[b].work / 1000 + h[b].distracted / 1000 >= 600
            && h[b].work * (h[a].work + h[a].distracted) < h[a].work * (h[b].work + h[b].distracted)),
{
    lemma_extremes_in_range(h, h.len() as int);
    lemma_highest_tops(h, h.len() as int);
}

} // verus!
