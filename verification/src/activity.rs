//! Bounded activity context between screenshots, independent of model scheduling.
use vstd::prelude::*;
use crate::ieee::{finite_non_negative, finite_non_negative_bits, is_finite, SIGN_BIT};
use crate::models::{Activity, ActivityHistory, ActivityPoint, AppDwell, AppSwitch};
use crate::policy::time_ok;
use crate::text::str_eq;

verus! {

pub const MAX_POINTS: usize = 120;

pub const MAX_SWITCHES: usize = 500;

pub const MAX_AGE_MS: i64 = 600_000;

/// A gap between readings after which the earlier context is dropped.
pub const READING_GAP_MS: i64 = 15_000;

/// The tracker's contents: readings, app switches between them, and whether older context
/// was dropped.
pub struct TrackerModel {
    pub points: Seq<ActivityPoint>,
    pub switches: Seq<AppSwitch>,
    pub truncated: bool,
}

pub open spec fn empty_tracker() -> TrackerModel {
    TrackerModel { points: Seq::empty(), switches: Seq::empty(), truncated: false }
}

// ---------------------------------------------------------------- privacy

pub open spec fn is_excluded(excluded: Seq<String>, bundle: Seq<char>) -> bool {
    exists|j: int| 0 <= j < excluded.len() && (#[trigger] excluded[j])@ == bundle
}

/// The front app, or an app switched to since the last reading, is excluded.
pub open spec fn touches_excluded(a: Activity, excluded: Seq<String>) -> bool {
    ||| is_excluded(excluded, a.bundle_id@)
    ||| exists|k: int| 0 <= k < a.switches@.len() && is_excluded(excluded, (#[trigger] a.switches@[k]).bundle_id@)
}

// ---------------------------------------------------------------- switches

/// The switches of `sw` strictly after `since` and no later than `at`, in order.
pub open spec fn within(sw: Seq<AppSwitch>, since: i64, at: i64) -> Seq<AppSwitch>
    decreases sw.len(),
{
    if sw.len() == 0 {
        Seq::empty()
    } else {
        let rest = within(sw.drop_last(), since, at);
        if since < sw.last().at <= at { rest.push(sw.last()) } else { rest }
    }
}

/// The switches of `sw` strictly after `t`, in order.
pub open spec fn after(sw: Seq<AppSwitch>, t: i64) -> Seq<AppSwitch>
    decreases sw.len(),
{
    if sw.len() == 0 {
        Seq::empty()
    } else {
        let rest = after(sw.drop_last(), t);
        if sw.last().at > t { rest.push(sw.last()) } else { rest }
    }
}

/// Where a switch at `t` goes in `sw`: after every switch at `t` or earlier.
pub open spec fn slot(sw: Seq<AppSwitch>, t: i64, j: int) -> int
    decreases j,
{
    if j <= 0 {
        0
    } else if sw[j - 1].at > t {
        slot(sw, t, j - 1)
    } else {
        j
    }
}

/// `sw` with each of `more` inserted, in turn, after every switch no later than it: for a
/// time-ordered `sw`, the stable sort of `sw` followed by `more`.
pub open spec fn insert_all(sw: Seq<AppSwitch>, more: Seq<AppSwitch>) -> Seq<AppSwitch>
    decreases more.len(),
{
    if more.len() == 0 {
        sw
    } else {
        let base = insert_all(sw, more.drop_last());
        base.insert(slot(base, more.last().at, base.len() as int), more.last())
    }
}

pub open spec fn same_event(a: AppSwitch, b: AppSwitch) -> bool {
    a.at == b.at && a.bundle_id@ == b.bundle_id@
}

/// `sw` without a switch that repeats the one kept just before it (same time, same app).
pub open spec fn dedup(sw: Seq<AppSwitch>) -> Seq<AppSwitch>
    decreases sw.len(),
{
    if sw.len() == 0 {
        Seq::empty()
    } else {
        let rest = dedup(sw.drop_last());
        if rest.len() > 0 && same_event(sw.last(), rest.last()) { rest } else { rest.push(sw.last()) }
    }
}

// ---------------------------------------------------------------- readings

/// Drops the oldest readings while more than 120 remain or the oldest is over ten minutes old.
pub open spec fn trim_old(points: Seq<ActivityPoint>, at: i64, truncated: bool) -> (Seq<ActivityPoint>, bool)
    decreases points.len(),
{
    if points.len() > MAX_POINTS || (points.len() > 0 && at - points[0].at > MAX_AGE_MS) {
        trim_old(points.drop_first(), at, true)
    } else {
        (points, truncated)
    }
}

/// While switches exceed their cap, drops the oldest reading and the switches not after the
/// new oldest one, so that omitted switches never become invented dwell time.
pub open spec fn clip(points: Seq<ActivityPoint>, sw: Seq<AppSwitch>, truncated: bool)
    -> (Seq<ActivityPoint>, Seq<AppSwitch>, bool)
    decreases points.len(),
{
    if sw.len() > MAX_SWITCHES && points.len() > 1 {
        let rest = points.drop_first();
        clip(rest, after(sw, rest[0].at), true)
    } else {
        (points, sw, truncated)
    }
}

pub open spec fn reading(at: i64, a: Activity) -> ActivityPoint {
    ActivityPoint {
        at,
        app_name: a.app_name,
        bundle_id: a.bundle_id,
        idle_seconds_bits: finite_non_negative(a.idle_seconds_bits),
    }
}

/// The tracker after the reading `a` at `at`.
///
/// An excluded app clears everything. A reading earlier than the last one, or more than
/// fifteen seconds after it, starts afresh. New switches since the oldest reading join the
/// list in time order, without repeats; a reading at the same instant as the last replaces
/// it; then the bounds on readings and switches apply.
pub open spec fn observe_step(m: TrackerModel, at: i64, a: Activity, excluded: Seq<String>) -> TrackerModel {
    if touches_excluded(a, excluded) {
        empty_tracker()
    } else {
        let m0 = if m.points.len() > 0 && (at < m.points.last().at || at - m.points.last().at > READING_GAP_MS) {
            empty_tracker()
        } else {
            m
        };
        let since = if m0.points.len() > 0 { m0.points[0].at } else { at };
        let sw = dedup(insert_all(m0.switches, within(a.switches@, since, at)));
        let kept = if m0.points.len() > 0 && m0.points.last().at == at { m0.points.drop_last() } else { m0.points };
        let trimmed = trim_old(kept.push(reading(at, a)), at, m0.truncated);
        let clipped = clip(trimmed.0, sw, trimmed.1);
        let left = after(clipped.1, clipped.0[0].at);
        if left.len() > MAX_SWITCHES {
            TrackerModel { points: clipped.0, switches: Seq::empty(), truncated: true }
        } else {
            TrackerModel { points: clipped.0, switches: left, truncated: clipped.2 }
        }
    }
}

// ---------------------------------------------------------------- invariant

pub open spec fn switches_sorted(sw: Seq<AppSwitch>) -> bool {
    forall|j: int, k: int| 0 <= j < k < sw.len() ==> #[trigger] sw[j].at <= #[trigger] sw[k].at
}

pub open spec fn points_increasing(p: Seq<ActivityPoint>) -> bool {
    forall|j: int, k: int| 0 <= j < k < p.len() ==> #[trigger] p[j].at < #[trigger] p[k].at
}

/// What the tracker always keeps: readings in increasing time, at most 120 of them and at
/// most ten minutes apart; switches in time order, at most 500, all after the oldest
/// reading and no later than the newest.
pub open spec fn bounded(m: TrackerModel) -> bool {
    &&& points_increasing(m.points)
    &&& m.points.len() <= MAX_POINTS
    &&& forall|j: int| 0 <= j < m.points.len() ==> time_ok(#[trigger] m.points[j].at)
    &&& m.points.len() > 0 ==> m.points.last().at - m.points[0].at <= MAX_AGE_MS
    &&& switches_sorted(m.switches)
    &&& m.switches.len() <= MAX_SWITCHES
    &&& m.points.len() == 0 ==> m.switches.len() == 0
    &&& forall|j: int| 0 <= j < m.switches.len() ==>
            m.points[0].at < #[trigger] m.switches[j].at <= m.points.last().at
}

} // verus!

verus! {

pub open spec fn all_between(sw: Seq<AppSwitch>, lo: i64, hi: i64) -> bool {
    forall|j: int| 0 <= j < sw.len() ==> lo < #[trigger] sw[j].at <= hi
}

proof fn lemma_within(sw: Seq<AppSwitch>, since: i64, at: i64)
    ensures
        all_between(within(sw, since, at), since, at),
        within(sw, since, at).len() <= sw.len(),
    decreases sw.len(),
{
    if sw.len() > 0 {
        lemma_within(sw.drop_last(), since, at);
    }
}

proof fn lemma_after(sw: Seq<AppSwitch>, t: i64, lo: i64, hi: i64)
    requires
        switches_sorted(sw),
        all_between(sw, lo, hi),
    ensures
        switches_sorted(after(sw, t)),
        all_between(after(sw, t), lo, hi),
        forall|j: int| 0 <= j < after(sw, t).len() ==> #[trigger] after(sw, t)[j].at > t,
        after(sw, t).len() <= sw.len(),
        forall|j: int| 0 <= j < after(sw, t).len() ==> (#[trigger] after(sw, t)[j]).at <= sw.last().at,
    decreases sw.len(),
{
    if sw.len() > 0 {
        let init = sw.drop_last();
        assert(switches_sorted(init)) by {
            assert forall|j: int, k: int| 0 <= j < k < init.len() implies #[trigger] init[j].at <= #[trigger] init[k].at by {
                assert(init[j] == sw[j] && init[k] == sw[k]);
            }
        }
        assert(all_between(init, lo, hi)) by {
            assert forall|j: int| 0 <= j < init.len() implies lo < #[trigger] init[j].at <= hi by {
                assert(init[j] == sw[j]);
            }
        }
        lemma_after(init, t, lo, hi);
        if init.len() > 0 {
            assert(init.last().at <= sw.last().at) by {
                assert(init.last() == sw[sw.len() - 2]);
            }
        }
        assert(sw.last() == sw[sw.len() - 1]);
    }
}

proof fn lemma_slot(sw: Seq<AppSwitch>, t: i64, j: int)
    requires
        0 <= j <= sw.len(),
        switches_sorted(sw),
    ensures
        0 <= slot(sw, t, j) <= j,
        forall|p: int| 0 <= p < slot(sw, t, j) ==> #[trigger] sw[p].at <= t,
        forall|p: int| slot(sw, t, j) <= p < j ==> #[trigger] sw[p].at > t,
    decreases j,
{
    if j > 0 {
        lemma_slot(sw, t, j - 1);
    }
}

proof fn lemma_insert_sorted(sw: Seq<AppSwitch>, x: AppSwitch, lo: i64, hi: i64)
    requires
        switches_sorted(sw),
        all_between(sw, lo, hi),
        lo < x.at <= hi,
    ensures
        ({
            let r = sw.insert(slot(sw, x.at, sw.len() as int), x);
            &&& switches_sorted(r)
            &&& all_between(r, lo, hi)
            &&& r.len() == sw.len() + 1
        }),
{
    lemma_slot(sw, x.at, sw.len() as int);
    let k = slot(sw, x.at, sw.len() as int);
    let r = sw.insert(k, x);
    assert forall|p: int| 0 <= p < r.len() implies
        (p < k ==> r[p] == sw[p]) && (p == k ==> r[p] == x) && (p > k ==> r[p] == sw[p - 1]) by {}
    assert forall|j: int, l: int| 0 <= j < l < r.len() implies #[trigger] r[j].at <= #[trigger] r[l].at by {
        if l < k {
            assert(r[j] == sw[j] && r[l] == sw[l]);
        } else if l == k {
            assert(r[j] == sw[j]);
        } else if j < k {
            assert(r[j] == sw[j] && r[l] == sw[l - 1]);
        } else if j == k {
            assert(r[l] == sw[l - 1]);
        } else {
            assert(r[j] == sw[j - 1] && r[l] == sw[l - 1]);
        }
    }
    assert forall|j: int| 0 <= j < r.len() implies lo < #[trigger] r[j].at <= hi by {
        if j < k {
            assert(r[j] == sw[j]);
        } else if j > k {
            assert(r[j] == sw[j - 1]);
        }
    }
}

proof fn lemma_insert_all(sw: Seq<AppSwitch>, more: Seq<AppSwitch>, lo: i64, hi: i64)
    requires
        switches_sorted(sw),
        all_between(sw, lo, hi),
        all_between(more, lo, hi),
    ensures
        switches_sorted(insert_all(sw, more)),
        all_between(insert_all(sw, more), lo, hi),
        insert_all(sw, more).len() == sw.len() + more.len(),
    decreases more.len(),
{
    if more.len() > 0 {
        let init = more.drop_last();
        assert(all_between(init, lo, hi)) by {
            assert forall|j: int| 0 <= j < init.len() implies lo < #[trigger] init[j].at <= hi by {
                assert(init[j] == more[j]);
            }
        }
        lemma_insert_all(sw, init, lo, hi);
        assert(more.last() == more[more.len() - 1]);
        lemma_insert_sorted(insert_all(sw, init), more.last(), lo, hi);
    }
}

proof fn lemma_dedup(sw: Seq<AppSwitch>, lo: i64, hi: i64)
    requires
        switches_sorted(sw),
        all_between(sw, lo, hi),
    ensures
        switches_sorted(dedup(sw)),
        all_between(dedup(sw), lo, hi),
        dedup(sw).len() <= sw.len(),
        sw.len() > 0 ==> dedup(sw).len() > 0 && dedup(sw).last().at == sw.last().at,
    decreases sw.len(),
{
    if sw.len() > 0 {
        let init = sw.drop_last();
        assert(switches_sorted(init)) by {
            assert forall|j: int, k: int| 0 <= j < k < init.len() implies #[trigger] init[j].at <= #[trigger] init[k].at by {
                assert(init[j] == sw[j] && init[k] == sw[k]);
            }
        }
        assert(all_between(init, lo, hi)) by {
            assert forall|j: int| 0 <= j < init.len() implies lo < #[trigger] init[j].at <= hi by {
                assert(init[j] == sw[j]);
            }
        }
        lemma_dedup(init, lo, hi);
        assert(sw.last() == sw[sw.len() - 1]);
        if init.len() > 0 {
            assert(init.last() == sw[sw.len() - 2]);
        }
    }
}

proof fn lemma_trim_old(points: Seq<ActivityPoint>, at: i64, truncated: bool)
    requires
        points.len() > 0,
        points.last().at == at,
        time_ok(at),
        forall|j: int| 0 <= j < points.len() ==> time_ok(#[trigger] points[j].at),
    ensures
        ({
            let r = trim_old(points, at, truncated).0;
            &&& 0 < r.len() <= MAX_POINTS
            &&& r.len() <= points.len()
            &&& r =~= points.subrange(points.len() - r.len(), points.len() as int)
            &&& at - r[0].at <= MAX_AGE_MS
            &&& (trim_old(points, at, truncated).1 == truncated || trim_old(points, at, truncated).1)
        }),
    decreases points.len(),
{
    if points.len() > MAX_POINTS || (points.len() > 0 && at - points[0].at > MAX_AGE_MS) {
        let rest = points.drop_first();
        assert(rest.len() > 0) by {
            if points.len() == 1 {
                assert(points[0] == points.last());
            }
        }
        assert(rest.last() == points.last());
        assert forall|j: int| 0 <= j < rest.len() implies time_ok(#[trigger] rest[j].at) by {
            assert(rest[j] == points[j + 1]);
        }
        lemma_trim_old(rest, at, true);
        let r = trim_old(rest, at, true).0;
        assert(r =~= points.subrange(points.len() - r.len(), points.len() as int));
    } else {
        assert(points =~= points.subrange(0, points.len() as int));
    }
}

proof fn lemma_clip(points: Seq<ActivityPoint>, sw: Seq<AppSwitch>, truncated: bool, lo: i64, hi: i64)
    requires
        points.len() > 0,
        switches_sorted(sw),
        all_between(sw, lo, hi),
    ensures
        ({
            let r = clip(points, sw, truncated);
            &&& 0 < r.0.len() <= points.len()
            &&& r.0 =~= points.subrange(points.len() - r.0.len(), points.len() as int)
            &&& switches_sorted(r.1)
            &&& all_between(r.1, lo, hi)
        }),
    decreases points.len(),
{
    if sw.len() > MAX_SWITCHES && points.len() > 1 {
        let rest = points.drop_first();
        lemma_after(sw, rest[0].at, lo, hi);
        lemma_clip(rest, after(sw, rest[0].at), true, lo, hi);
        let r = clip(rest, after(sw, rest[0].at), true).0;
        assert(r =~= points.subrange(points.len() - r.len(), points.len() as int));
    } else {
        assert(points =~= points.subrange(0, points.len() as int));
    }
}

/// Observing keeps the tracker's bounds.
#[verifier::spinoff_prover]
#[verifier::rlimit(60)]
pub proof fn lemma_observe_bounded(m: TrackerModel, at: i64, a: Activity, excluded: Seq<String>)
    requires
        bounded(m),
        time_ok(at),
    ensures
        bounded(observe_step(m, at, a, excluded)),
{
    if !touches_excluded(a, excluded) {
        let m0 = if m.points.len() > 0 && (at < m.points.last().at || at - m.points.last().at > READING_GAP_MS) {
            empty_tracker()
        } else {
            m
        };
        let since = if m0.points.len() > 0 { m0.points[0].at } else { at };
        let fresh = within(a.switches@, since, at);
        lemma_within(a.switches@, since, at);
        assert(all_between(m0.switches, since, at)) by {
            if m0.points.len() > 0 {
                assert forall|j: int| 0 <= j < m0.switches.len() implies since < #[trigger] m0.switches[j].at <= at by {}
            }
        }
        lemma_insert_all(m0.switches, fresh, since, at);
        let merged = insert_all(m0.switches, fresh);
        lemma_dedup(merged, since, at);
        let sw = dedup(merged);
        let kept = if m0.points.len() > 0 && m0.points.last().at == at { m0.points.drop_last() } else { m0.points };
        let pushed = kept.push(reading(at, a));
        assert(points_increasing(pushed)) by {
            assert forall|j: int, k: int| 0 <= j < k < pushed.len() implies #[trigger] pushed[j].at < #[trigger] pushed[k].at by {
                if k < kept.len() {
                    assert(pushed[j] == m0.points[j] && pushed[k] == m0.points[k]);
                } else {
                    assert(pushed[j] == m0.points[j]);
                    if m0.points.len() > 0 {
                        if j < m0.points.len() - 1 {
                            assert(m0.points[j].at < m0.points[m0.points.len() - 1].at);
                        }
                        assert(m0.points.last() == m0.points[m0.points.len() - 1]);
                    }
                }
            }
        }
        assert forall|j: int| 0 <= j < pushed.len() implies time_ok(#[trigger] pushed[j].at) by {
            if j < kept.len() {
                assert(pushed[j] == m0.points[j]);
            }
        }
        lemma_trim_old(pushed, at, m0.truncated);
        let trimmed = trim_old(pushed, at, m0.truncated);
        lemma_clip(trimmed.0, sw, trimmed.1, since, at);
        let clipped = clip(trimmed.0, sw, trimmed.1);
        let pts = clipped.0;
        assert(pts.last() == pushed.last());
        assert(pts.len() <= trimmed.0.len());
        assert(points_increasing(pts)) by {
            let off = pushed.len() - pts.len();
            assert forall|j: int, k: int| 0 <= j < k < pts.len() implies #[trigger] pts[j].at < #[trigger] pts[k].at by {
                assert(pts[j] == pushed[j + off] && pts[k] == pushed[k + off]);
            }
        }
        assert forall|j: int| 0 <= j < pts.len() implies time_ok(#[trigger] pts[j].at) by {
            assert(pts[j] == pushed[j + pushed.len() - pts.len()]);
        }
        assert(at - pts[0].at <= MAX_AGE_MS) by {
            let toff = pushed.len() - trimmed.0.len();
            let off = pushed.len() - pts.len();
            assert(trimmed.0[0] == pushed[toff]);
            assert(pts[0] == pushed[off]);
            if off > toff {
                assert(pushed[toff].at < pushed[off].at);
            }
        }
        lemma_after(clipped.1, pts[0].at, since, at);
        let left = after(clipped.1, pts[0].at);
        assert forall|j: int| 0 <= j < left.len() implies pts[0].at < #[trigger] left[j].at <= pts.last().at by {}
    }
}

} // verus!

verus! {

// ---------------------------------------------------------------- exec pieces

fn touches(a: &Activity, excluded: &Vec<String>) -> (r: bool)
    ensures
        r == touches_excluded(*a, excluded@),
{
    let n = excluded.len();
    let mut j: usize = 0;
    while j < n
        invariant
            n == excluded@.len(),
            forall|q: int| 0 <= q < j ==> excluded@[q]@ != a.bundle_id@,
        decreases n - j,
    {
        if excluded[j] == a.bundle_id {
            return true;
        }
        j = j + 1;
    }
    let m = a.switches.len();
    let mut k: usize = 0;
    while k < m
        invariant
            n == excluded@.len(),
            m == a.switches@.len(),
            !is_excluded(excluded@, a.bundle_id@),
            forall|q: int| 0 <= q < k ==> !is_excluded(excluded@, (#[trigger] a.switches@[q]).bundle_id@),
        decreases m - k,
    {
        let mut j: usize = 0;
        while j < n
            invariant
                n == excluded@.len(),
                k < m == a.switches@.len(),
                forall|q: int| 0 <= q < j ==> excluded@[q]@ != a.switches@[k as int].bundle_id@,
            decreases n - j,
        {
            if excluded[j] == a.switches[k].bundle_id {
                assert(is_excluded(excluded@, a.switches@[k as int].bundle_id@));
                return true;
            }
            j = j + 1;
        }
        k = k + 1;
    }
    false
}

fn within_exec(sw: &Vec<AppSwitch>, since: i64, at: i64) -> (r: Vec<AppSwitch>)
    ensures
        r@ == within(sw@, since, at),
{
    let mut r: Vec<AppSwitch> = Vec::new();
    let n = sw.len();
    for i in 0..n
        invariant
            n == sw@.len(),
            r@ == within(sw@.take(i as int), since, at),
    {
        assert(sw@.take(i + 1).drop_last() =~= sw@.take(i as int));
        assert(sw@.take(i + 1).last() == sw@[i as int]);
        if since < sw[i].at && sw[i].at <= at {
            r.push(sw[i].copied());
        }
    }
    assert(sw@.take(n as int) =~= sw@);
    r
}

fn after_exec(sw: &Vec<AppSwitch>, t: i64) -> (r: Vec<AppSwitch>)
    ensures
        r@ == after(sw@, t),
{
    let mut r: Vec<AppSwitch> = Vec::new();
    let n = sw.len();
    for i in 0..n
        invariant
            n == sw@.len(),
            r@ == after(sw@.take(i as int), t),
    {
        assert(sw@.take(i + 1).drop_last() =~= sw@.take(i as int));
        assert(sw@.take(i + 1).last() == sw@[i as int]);
        if sw[i].at > t {
            r.push(sw[i].copied());
        }
    }
    assert(sw@.take(n as int) =~= sw@);
    r
}

fn insert_all_exec(sw: Vec<AppSwitch>, more: &Vec<AppSwitch>) -> (r: Vec<AppSwitch>)
    ensures
        r@ == insert_all(sw@, more@),
{
    let mut cur = sw;
    let ghost base = cur@;
    let n = more.len();
    for k in 0..n
        invariant
            n == more@.len(),
            cur@ == insert_all(base, more@.take(k as int)),
    {
        assert(more@.take(k + 1).drop_last() =~= more@.take(k as int));
        assert(more@.take(k + 1).last() == more@[k as int]);
        let x = more[k].copied();
        let mut j = cur.len();
        while j > 0 && cur[j - 1].at > x.at
            invariant
                j <= cur@.len(),
                slot(cur@, x.at, cur@.len() as int) == slot(cur@, x.at, j as int),
            decreases j,
        {
            j = j - 1;
        }
        proof {
            assert(slot(cur@, x.at, j as int) == j as int);
        }
        cur.insert(j, x);
    }
    assert(more@.take(n as int) =~= more@);
    cur
}

fn dedup_exec(sw: &Vec<AppSwitch>) -> (r: Vec<AppSwitch>)
    ensures
        r@ == dedup(sw@),
{
    let mut r: Vec<AppSwitch> = Vec::new();
    let n = sw.len();
    for i in 0..n
        invariant
            n == sw@.len(),
            r@ == dedup(sw@.take(i as int)),
    {
        assert(sw@.take(i + 1).drop_last() =~= sw@.take(i as int));
        assert(sw@.take(i + 1).last() == sw@[i as int]);
        let repeat = r.len() > 0 && r[r.len() - 1].at == sw[i].at && r[r.len() - 1].bundle_id == sw[i].bundle_id;
        if !repeat {
            r.push(sw[i].copied());
        }
    }
    assert(sw@.take(n as int) =~= sw@);
    r
}

} // verus!

verus! {

/// The context between screenshots: readings and app switches, bounded in count and age.
pub struct ActivityTracker {
    points: Vec<ActivityPoint>,
    switches: Vec<AppSwitch>,
    truncated: bool,
}

impl View for ActivityTracker {
    type V = TrackerModel;

    closed spec fn view(&self) -> TrackerModel {
        TrackerModel { points: self.points@, switches: self.switches@, truncated: self.truncated }
    }
}

impl Default for ActivityTracker {
    fn default() -> (t: Self)
        ensures
            t@ == empty_tracker(),
    {
        ActivityTracker::new()
    }
}

impl ActivityTracker {
    #[verifier::type_invariant]
    closed spec fn keeps_bounds(self) -> bool {
        bounded(self@) && tracker_clean(self@)
    }

    /// What every tracker keeps (see `bounded`).
    pub fn new() -> (t: Self)
        ensures
            t@ == empty_tracker(),
    {
        let t = ActivityTracker { points: Vec::new(), switches: Vec::new(), truncated: false };
        assert(t@.points =~= Seq::<ActivityPoint>::empty());
        assert(t@.switches =~= Seq::<AppSwitch>::empty());
        t
    }

    /// Forgets everything.
    pub fn clear(&mut self)
        ensures
            final(self)@ == empty_tracker(),
    {
        *self = ActivityTracker::new();
    }

    /// Records the reading `activity` taken at `at` (see `observe_step`).
    #[verifier::rlimit(40)]
    pub fn observe(&mut self, at: i64, activity: &Activity, excluded: &Vec<String>)
        requires
            time_ok(at),
        ensures
            final(self)@ == observe_step(old(self)@, at, *activity, excluded@),
            bounded(final(self)@),
            tracker_clean(final(self)@),
    {
        proof {
            use_type_invariant(&*self);
            lemma_observe_bounded(self@, at, *activity, excluded@);
            law_tracker_clean(self@, at, *activity, excluded@);
        }
        let ghost m = self@;
        let mut previous = ActivityTracker::new();
        std::mem::swap(self, &mut previous);
        proof {
            use_type_invariant(&previous);
        }
        assert(previous@ == m);
        let ActivityTracker { points, switches, truncated } = previous;
        if touches(activity, excluded) {
            return;
        }
        let n = points.len();
        let reset = n > 0 && (at < points[n - 1].at || at - points[n - 1].at > READING_GAP_MS);
        let (mut points, switches, mut truncated) = if reset {
            (Vec::new(), Vec::new(), false)
        } else {
            (points, switches, truncated)
        };
        let ghost m0 = TrackerModel { points: points@, switches: switches@, truncated };
        assert(m0.points =~= (if reset { Seq::<ActivityPoint>::empty() } else { m.points }));
        assert(m0.switches =~= (if reset { Seq::<AppSwitch>::empty() } else { m.switches }));
        let since = if points.len() > 0 { points[0].at } else { at };
        let fresh = within_exec(&activity.switches, since, at);
        let merged = insert_all_exec(switches, &fresh);
        let sw = dedup_exec(&merged);
        if points.len() > 0 && points[points.len() - 1].at == at {
            points.pop();
        }
        assert(points@ =~= (if m0.points.len() > 0 && m0.points.last().at == at { m0.points.drop_last() } else { m0.points }));
        let reading_now = ActivityPoint {
            at,
            app_name: activity.app_name.clone(),
            bundle_id: activity.bundle_id.clone(),
            idle_seconds_bits: finite_non_negative_bits(activity.idle_seconds_bits),
        };
        points.push(reading_now);
        let ghost pushed = points@;
        let ghost truncated0 = truncated;
        assert(forall|j: int| 0 <= j < m.points.len() ==> time_ok(#[trigger] m.points[j].at));
        assert(forall|j: int| 0 <= j < points@.len() ==> time_ok(#[trigger] points@[j].at)) by {
            assert forall|j: int| 0 <= j < points@.len() implies time_ok(#[trigger] points@[j].at) by {
                if j < points@.len() - 1 {
                    assert(points@[j] == m.points[j]);
                }
            }
        }
        while points.len() > MAX_POINTS || (points.len() > 0 && at - points[0].at > MAX_AGE_MS)
            invariant
                time_ok(at),
                forall|j: int| 0 <= j < points@.len() ==> time_ok(#[trigger] points@[j].at),
                trim_old(pushed, at, truncated0) == trim_old(points@, at, truncated),
            decreases points@.len(),
        {
            points.remove(0);
            truncated = true;
            assert forall|j: int| 0 <= j < points@.len() implies time_ok(#[trigger] points@[j].at) by {}
        }
        let mut sw = sw;
        let ghost trimmed_points = points@;
        let ghost trimmed_truncated = truncated;
        assert(trim_old(pushed, at, truncated0) == (trimmed_points, trimmed_truncated));
        proof {
            lemma_trim_old(pushed, at, truncated0);
        }
        while sw.len() > MAX_SWITCHES && points.len() > 1
            invariant
                points@.len() > 0,
                clip(trimmed_points, dedup(insert_all(m0.switches, within(activity.switches@, since, at))), trimmed_truncated)
                    == clip(points@, sw@, truncated),
            decreases points@.len(),
        {
            points.remove(0);
            truncated = true;
            sw = after_exec(&sw, points[0].at);
        }
        let left = after_exec(&sw, points[0].at);
        if left.len() > MAX_SWITCHES {
            *self = ActivityTracker { points, switches: Vec::new(), truncated: true };
            assert(self@.switches =~= Seq::<AppSwitch>::empty());
        } else {
            *self = ActivityTracker { points, switches: left, truncated };
        }
    }

    /// Starts afresh at a screenshot: clears, then records the reading.
    pub fn begin_after_capture(&mut self, at: i64, activity: &Activity, excluded: &Vec<String>)
        requires
            time_ok(at),
        ensures
            final(self)@ == observe_step(empty_tracker(), at, *activity, excluded@),
    {
        self.clear();
        self.observe(at, activity, excluded);
    }
}

} // verus!

verus! {

// ---------------------------------------------------------------- history

/// A moment when the front app may have changed: a switch, or a later reading.
pub struct Change {
    pub at: i64,
    pub app_name: String,
    pub bundle_id: String,
}

/// Switches from position `i` and readings from position `j`, merged in time order; at the
/// same instant a switch comes before a reading.
pub open spec fn merge_from(sw: Seq<AppSwitch>, pts: Seq<ActivityPoint>, i: int, j: int) -> Seq<Change>
    decreases (sw.len() - i) + (pts.len() - j),
{
    if i < 0 || j < 0 || i > sw.len() || j > pts.len() || (i == sw.len() && j == pts.len()) {
        Seq::empty()
    } else if j >= pts.len() || (i < sw.len() && sw[i].at <= pts[j].at) {
        seq![Change { at: sw[i].at, app_name: sw[i].app_name, bundle_id: sw[i].bundle_id }]
            + merge_from(sw, pts, i + 1, j)
    } else {
        seq![Change { at: pts[j].at, app_name: pts[j].app_name, bundle_id: pts[j].bundle_id }]
            + merge_from(sw, pts, i, j + 1)
    }
}

/// The changes of a tracker: its switches and every reading after the first.
pub open spec fn changes_of(m: TrackerModel) -> Seq<Change> {
    merge_from(m.switches, m.points, 0, 1)
}

pub struct SpanScan {
    pub start: i64,
    pub name: String,
    pub bundle: String,
    pub spans: Seq<AppDwell>,
}

/// A change to another app ends the current dwell (kept only if it lasted) and starts one.
pub open spec fn span_step(st: SpanScan, c: Change) -> SpanScan {
    if c.bundle_id@ == st.bundle@ {
        st
    } else {
        SpanScan {
            start: c.at,
            name: c.app_name,
            bundle: c.bundle_id,
            spans: if c.at > st.start {
                st.spans.push(AppDwell { start: st.start, end: c.at, app_name: st.name, bundle_id: st.bundle })
            } else {
                st.spans
            },
        }
    }
}

pub open spec fn span_scan(init: SpanScan, changes: Seq<Change>) -> SpanScan
    decreases changes.len(),
{
    if changes.len() == 0 {
        init
    } else {
        span_step(span_scan(init, changes.drop_last()), changes.last())
    }
}

/// The app dwell spans of a tracker with readings: from the first reading, each change to
/// another app closes the current span; the last span runs to the last reading.
pub open spec fn spans_of(m: TrackerModel) -> Seq<AppDwell> {
    let first = m.points[0];
    let st = span_scan(
        SpanScan { start: first.at, name: first.app_name, bundle: first.bundle_id, spans: Seq::empty() },
        changes_of(m),
    );
    if m.points.last().at > st.start {
        st.spans.push(AppDwell { start: st.start, end: m.points.last().at, app_name: st.name, bundle_id: st.bundle })
    } else {
        st.spans
    }
}

pub open spec fn history_matches(h: ActivityHistory, m: TrackerModel) -> bool {
    &&& m.points.len() > 0
    &&& h.start == m.points[0].at
    &&& h.end == m.points.last().at
    &&& h.truncated == m.truncated
    &&& h.switches@ == m.switches
    &&& h.app_spans@ == spans_of(m)
    &&& h.input_checkpoints@ == m.points
}

pub(crate) fn copy_points(p: &Vec<ActivityPoint>) -> (r: Vec<ActivityPoint>)
    ensures
        r@ == p@,
{
    let mut r: Vec<ActivityPoint> = Vec::new();
    let n = p.len();
    for i in 0..n
        invariant
            n == p@.len(),
            r@ == p@.take(i as int),
    {
        r.push(p[i].copied());
        assert(r@ =~= p@.take(i + 1));
    }
    assert(p@.take(n as int) =~= p@);
    r
}

pub(crate) fn copy_switches(p: &Vec<AppSwitch>) -> (r: Vec<AppSwitch>)
    ensures
        r@ == p@,
{
    let mut r: Vec<AppSwitch> = Vec::new();
    let n = p.len();
    for i in 0..n
        invariant
            n == p@.len(),
            r@ == p@.take(i as int),
    {
        r.push(p[i].copied());
        assert(r@ =~= p@.take(i + 1));
    }
    assert(p@.take(n as int) =~= p@);
    r
}

fn merged_changes(sw: &Vec<AppSwitch>, pts: &Vec<ActivityPoint>) -> (r: Vec<Change>)
    requires
        pts@.len() > 0,
    ensures
        r@ == merge_from(sw@, pts@, 0, 1),
{
    let mut r: Vec<Change> = Vec::new();
    let mut i: usize = 0;
    let mut j: usize = 1;
    while i < sw.len() || j < pts.len()
        invariant
            i <= sw@.len(),
            j <= pts@.len(),
            r@ + merge_from(sw@, pts@, i as int, j as int) == merge_from(sw@, pts@, 0, 1),
        decreases (sw@.len() - i) + (pts@.len() - j),
    {
        let ghost before = r@;
        if j >= pts.len() || (i < sw.len() && sw[i].at <= pts[j].at) {
            r.push(Change { at: sw[i].at, app_name: sw[i].app_name.clone(), bundle_id: sw[i].bundle_id.clone() });
            assert(r@ + merge_from(sw@, pts@, i + 1, j as int) =~= before + merge_from(sw@, pts@, i as int, j as int));
            i = i + 1;
        } else {
            r.push(Change { at: pts[j].at, app_name: pts[j].app_name.clone(), bundle_id: pts[j].bundle_id.clone() });
            assert(r@ + merge_from(sw@, pts@, i as int, j + 1) =~= before + merge_from(sw@, pts@, i as int, j as int));
            j = j + 1;
        }
    }
    assert(r@ =~= r@ + merge_from(sw@, pts@, i as int, j as int));
    r
}

} // verus!

verus! {

impl ActivityTracker {
    /// The context since the first reading: the switches, the app dwell spans (see
    /// `spans_of`), and the readings as idle checkpoints; `None` without readings.
    pub fn history(&self) -> (r: Option<ActivityHistory>)
        ensures
            r is None <==> self@.points.len() == 0,
            bounded(self@),
            tracker_clean(self@),
            r matches Some(h) ==> history_matches(h, self@),
            r matches Some(h) ==> dwell_ordered(h.app_spans@, h.start, h.end),
    {
        proof {
            use_type_invariant(self);
            if self@.points.len() > 0 {
                law_spans_ordered(self@);
            }
        }
        let n = self.points.len();
        if n == 0 {
            return None;
        }
        let changes = merged_changes(&self.switches, &self.points);
        let ghost init = SpanScan {
            start: self.points@[0].at,
            name: self.points@[0].app_name,
            bundle: self.points@[0].bundle_id,
            spans: Seq::empty(),
        };
        let mut start = self.points[0].at;
        let mut name = self.points[0].app_name.clone();
        let mut bundle = self.points[0].bundle_id.clone();
        let mut spans: Vec<AppDwell> = Vec::new();
        let m = changes.len();
        for k in 0..m
            invariant
                m == changes@.len(),
                (SpanScan { start, name, bundle, spans: spans@ }) == span_scan(init, changes@.take(k as int)),
        {
            assert(changes@.take(k + 1).drop_last() =~= changes@.take(k as int));
            assert(changes@.take(k + 1).last() == changes@[k as int]);
            let c = &changes[k];
            if c.bundle_id != bundle {
                if c.at > start {
                    spans.push(AppDwell { start, end: c.at, app_name: name, bundle_id: bundle });
                }
                start = c.at;
                name = c.app_name.clone();
                bundle = c.bundle_id.clone();
            }
        }
        assert(changes@.take(m as int) =~= changes@);
        let last_at = self.points[n - 1].at;
        if last_at > start {
            spans.push(AppDwell { start, end: last_at, app_name: name, bundle_id: bundle });
        }
        Some(ActivityHistory {
            start: self.points[0].at,
            end: last_at,
            truncated: self.truncated,
            switches: copy_switches(&self.switches),
            app_spans: spans,
            input_checkpoints: copy_points(&self.points),
        })
    }
}

} // verus!

verus! {

pub open spec fn changes_sorted(cs: Seq<Change>) -> bool {
    forall|a: int, b: int| 0 <= a < b < cs.len() ==> #[trigger] cs[a].at <= #[trigger] cs[b].at
}

pub open spec fn changes_between(cs: Seq<Change>, lo: i64, hi: i64) -> bool {
    forall|a: int| 0 <= a < cs.len() ==> lo <= #[trigger] cs[a].at <= hi
}

/// Dwell spans are non-empty, in time order without overlap, and inside `lo..hi`.
pub open spec fn dwell_ordered(sp: Seq<AppDwell>, lo: i64, hi: i64) -> bool {
    &&& forall|k: int| 0 <= k < sp.len() ==> lo <= #[trigger] sp[k].start < sp[k].end <= hi
    &&& forall|k: int, l: int| 0 <= k < l < sp.len() ==> #[trigger] sp[k].end <= #[trigger] sp[l].start
}

proof fn lemma_merge_sorted(sw: Seq<AppSwitch>, pts: Seq<ActivityPoint>, i: int, j: int, lo: i64, hi: i64)
    requires
        0 <= i <= sw.len(),
        0 <= j <= pts.len(),
        switches_sorted(sw),
        points_increasing(pts),
        forall|a: int| i <= a < sw.len() ==> lo <= #[trigger] sw[a].at <= hi,
        forall|a: int| j <= a < pts.len() ==> lo <= #[trigger] pts[a].at <= hi,
    ensures
        changes_sorted(merge_from(sw, pts, i, j)),
        changes_between(merge_from(sw, pts, i, j), lo, hi),
        i < sw.len() ==> forall|a: int| 0 <= a < merge_from(sw, pts, i, j).len() ==>
            (#[trigger] merge_from(sw, pts, i, j)[a]).at >= sw[i].at || (j < pts.len() && merge_from(sw, pts, i, j)[a].at >= pts[j].at),
        j < pts.len() ==> forall|a: int| 0 <= a < merge_from(sw, pts, i, j).len() ==>
            (#[trigger] merge_from(sw, pts, i, j)[a]).at >= pts[j].at || (i < sw.len() && merge_from(sw, pts, i, j)[a].at >= sw[i].at),
    decreases (sw.len() - i) + (pts.len() - j),
{
    let cs = merge_from(sw, pts, i, j);
    if i == sw.len() && j == pts.len() {
    } else if j >= pts.len() || (i < sw.len() && sw[i].at <= pts[j].at) {
        lemma_merge_sorted(sw, pts, i + 1, j, lo, hi);
        let rest = merge_from(sw, pts, i + 1, j);
        assert forall|a: int| 0 <= a < rest.len() implies #[trigger] rest[a].at >= sw[i].at by {
            if i + 1 < sw.len() {
                assert(sw[i].at <= sw[i + 1].at);
            }
        }
        assert forall|a: int, b: int| 0 <= a < b < cs.len() implies #[trigger] cs[a].at <= #[trigger] cs[b].at by {
            if a > 0 {
                assert(cs[a] == rest[a - 1] && cs[b] == rest[b - 1]);
            } else {
                assert(cs[b] == rest[b - 1]);
            }
        }
        assert forall|a: int| 0 <= a < cs.len() implies lo <= #[trigger] cs[a].at <= hi by {
            if a > 0 {
                assert(cs[a] == rest[a - 1]);
            }
        }
        assert forall|a: int| 0 <= a < cs.len() implies (#[trigger] cs[a]).at >= sw[i].at by {
            if a > 0 {
                assert(cs[a] == rest[a - 1]);
            }
        }
    } else {
        lemma_merge_sorted(sw, pts, i, j + 1, lo, hi);
        let rest = merge_from(sw, pts, i, j + 1);
        assert forall|a: int| 0 <= a < rest.len() implies #[trigger] rest[a].at >= pts[j].at by {
            if j + 1 < pts.len() {
                assert(pts[j].at < pts[j + 1].at);
            }
        }
        assert forall|a: int, b: int| 0 <= a < b < cs.len() implies #[trigger] cs[a].at <= #[trigger] cs[b].at by {
            if a > 0 {
                assert(cs[a] == rest[a - 1] && cs[b] == rest[b - 1]);
            } else {
                assert(cs[b] == rest[b - 1]);
            }
        }
        assert forall|a: int| 0 <= a < cs.len() implies lo <= #[trigger] cs[a].at <= hi by {
            if a > 0 {
                assert(cs[a] == rest[a - 1]);
            }
        }
        assert forall|a: int| 0 <= a < cs.len() implies (#[trigger] cs[a]).at >= pts[j].at by {
            if a > 0 {
                assert(cs[a] == rest[a - 1]);
            }
        }
    }
}

proof fn lemma_span_scan(init: SpanScan, cs: Seq<Change>, lo: i64, hi: i64)
    requires
        changes_sorted(cs),
        changes_between(cs, lo, hi),
        init.spans.len() == 0,
        init.start == lo,
    ensures
        ({
            let st = span_scan(init, cs);
            &&& dwell_ordered(st.spans, lo, st.start)
            &&& lo <= st.start
            &&& cs.len() > 0 ==> st.start <= cs.last().at
            &&& cs.len() == 0 ==> st.start == lo
        }),
    decreases cs.len(),
{
    if cs.len() > 0 {
        let init_cs = cs.drop_last();
        assert(changes_sorted(init_cs)) by {
            assert forall|a: int, b: int| 0 <= a < b < init_cs.len() implies #[trigger] init_cs[a].at <= #[trigger] init_cs[b].at by {
                assert(init_cs[a] == cs[a] && init_cs[b] == cs[b]);
            }
        }
        assert(changes_between(init_cs, lo, hi)) by {
            assert forall|a: int| 0 <= a < init_cs.len() implies lo <= #[trigger] init_cs[a].at <= hi by {
                assert(init_cs[a] == cs[a]);
            }
        }
        lemma_span_scan(init, init_cs, lo, hi);
        let prev = span_scan(init, init_cs);
        let c = cs.last();
        assert(c == cs[cs.len() - 1]);
        assert(lo <= c.at);
        if init_cs.len() > 0 {
            assert(init_cs.last() == cs[cs.len() - 2]);
            assert(prev.start <= c.at);
        }
        let st = span_step(prev, c);
        if c.bundle_id@ != prev.bundle@ && c.at > prev.start {
            let sp = st.spans;
            assert forall|k: int, l: int| 0 <= k < l < sp.len() implies #[trigger] sp[k].end <= #[trigger] sp[l].start by {
                if l == sp.len() - 1 {
                    assert(sp[k] == prev.spans[k]);
                    assert(lo <= prev.spans[k].start);
                } else {
                    assert(sp[k] == prev.spans[k] && sp[l] == prev.spans[l]);
                }
            }
            assert forall|k: int| 0 <= k < sp.len() implies lo <= #[trigger] sp[k].start < sp[k].end <= st.start by {
                if k < sp.len() - 1 {
                    assert(sp[k] == prev.spans[k]);
                }
            }
        }
    }
}

/// The dwell spans of a history are non-empty, in time order without overlap, and inside
/// the history's `start..end`; so their total never exceeds `end - start`.
pub proof fn law_spans_ordered(m: TrackerModel)
    requires
        bounded(m),
        m.points.len() > 0,
    ensures
        dwell_ordered(spans_of(m), m.points[0].at, m.points.last().at),
{
    let lo = m.points[0].at;
    let hi = m.points.last().at;
    assert forall|a: int| 1 <= a < m.points.len() implies lo <= #[trigger] m.points[a].at <= hi by {
        assert(m.points[0].at < m.points[a].at);
        if a < m.points.len() - 1 {
            assert(m.points[a].at < m.points[m.points.len() - 1].at);
        }
    }
    lemma_merge_sorted(m.switches, m.points, 0, 1, lo, hi);
    let cs = changes_of(m);
    let first = m.points[0];
    let init = SpanScan { start: first.at, name: first.app_name, bundle: first.bundle_id, spans: Seq::empty() };
    lemma_span_scan(init, cs, lo, hi);
    let st = span_scan(init, cs);
    assert(st.start <= hi || st.spans.len() == 0 || true);
    if cs.len() > 0 {
        assert(cs.last() == cs[cs.len() - 1]);
    }
    assert(st.start <= hi);
    let sp = spans_of(m);
    if hi > st.start {
        assert forall|k: int, l: int| 0 <= k < l < sp.len() implies #[trigger] sp[k].end <= #[trigger] sp[l].start by {
            if l == sp.len() - 1 {
                assert(sp[k] == st.spans[k]);
                assert(lo <= st.spans[k].start);
            } else {
                assert(sp[k] == st.spans[k] && sp[l] == st.spans[l]);
            }
        }
        assert forall|k: int| 0 <= k < sp.len() implies lo <= #[trigger] sp[k].start < sp[k].end <= hi by {
            if k < sp.len() - 1 {
                assert(sp[k] == st.spans[k]);
            }
        }
    } else {
        assert forall|k: int| 0 <= k < sp.len() implies lo <= #[trigger] sp[k].start < sp[k].end <= hi by {}
    }
}

} // verus!

verus! {

/// Privacy boundary: a reading that shows an excluded app, as the front app or among the
/// switches since the previous reading, discards the whole context.
pub proof fn law_privacy_boundary(m: TrackerModel, at: i64, a: Activity, excluded: Seq<String>)
    requires
        touches_excluded(a, excluded),
    ensures
        observe_step(m, at, a, excluded) == empty_tracker(),
{
}

/// A gap of more than fifteen seconds, or a clock that went back, starts the context afresh:
/// only the new reading is left, with no switches from before.
pub proof fn law_gap_starts_afresh(m: TrackerModel, at: i64, a: Activity, excluded: Seq<String>)
    requires
        !touches_excluded(a, excluded),
        m.points.len() > 0,
        at < m.points.last().at || at - m.points.last().at > READING_GAP_MS,
    ensures
        observe_step(m, at, a, excluded).points == seq![reading(at, a)],
        !observe_step(m, at, a, excluded).truncated,
{
    let one = Seq::<ActivityPoint>::empty().push(reading(at, a));
    assert(one =~= seq![reading(at, a)]);
    assert(trim_old(one, at, false) == (one, false));
    lemma_within_empty(a.switches@, at);
    assert(insert_all(Seq::<AppSwitch>::empty(), within(a.switches@, at, at)) =~= Seq::<AppSwitch>::empty());
    let sw = dedup(insert_all(Seq::<AppSwitch>::empty(), within(a.switches@, at, at)));
    assert(sw =~= Seq::<AppSwitch>::empty());
    assert(clip(one, sw, false) == (one, sw, false));
    assert(after(sw, at) =~= Seq::<AppSwitch>::empty());
}

/// No switch lies strictly after `t` and no later than `t`.
proof fn lemma_within_empty(sw: Seq<AppSwitch>, t: i64)
    ensures
        within(sw, t, t).len() == 0,
    decreases sw.len(),
{
    if sw.len() > 0 {
        lemma_within_empty(sw.drop_last(), t);
    }
}

} // verus!

verus! {

// ---------------------------------------------------------------- what every kept item is

/// The reading's idle time is a finite, non-negative value.
pub open spec fn idle_clean(p: ActivityPoint) -> bool {
    is_finite(p.idle_seconds_bits) && p.idle_seconds_bits < SIGN_BIT
}

/// No switch repeats the event (same time, same app) of the one just before it.
pub open spec fn no_repeats(sw: Seq<AppSwitch>) -> bool {
    forall|k: int| 0 <= k < sw.len() - 1 ==> !same_event(#[trigger] sw[k], sw[k + 1])
}

/// Every kept reading has a clean idle time, and adjacent switches never repeat an event.
pub open spec fn tracker_clean(m: TrackerModel) -> bool {
    &&& forall|j: int| 0 <= j < m.points.len() ==> idle_clean(#[trigger] m.points[j])
    &&& no_repeats(m.switches)
}

proof fn lemma_dedup_no_repeats(sw: Seq<AppSwitch>)
    ensures
        no_repeats(dedup(sw)),
    decreases sw.len(),
{
    if sw.len() > 0 {
        lemma_dedup_no_repeats(sw.drop_last());
        let rest = dedup(sw.drop_last());
        if !(rest.len() > 0 && same_event(sw.last(), rest.last())) {
            let d = rest.push(sw.last());
            assert forall|k: int| 0 <= k < d.len() - 1 implies !same_event(#[trigger] d[k], d[k + 1]) by {
                if k < rest.len() - 1 {
                    assert(d[k] == rest[k] && d[k + 1] == rest[k + 1]);
                } else {
                    assert(d[k] == rest.last());
                }
            }
        }
    }
}

/// Of a time-ordered list, the switches after `t` are a tail of it.
proof fn lemma_after_tail(sw: Seq<AppSwitch>, t: i64)
    requires
        switches_sorted(sw),
    ensures
        after(sw, t).len() <= sw.len(),
        after(sw, t) =~= sw.subrange(sw.len() - after(sw, t).len(), sw.len() as int),
    decreases sw.len(),
{
    if sw.len() > 0 {
        let init = sw.drop_last();
        assert(switches_sorted(init)) by {
            assert forall|j: int, k: int| 0 <= j < k < init.len() implies #[trigger] init[j].at <= #[trigger] init[k].at by {
                assert(init[j] == sw[j] && init[k] == sw[k]);
            }
        }
        lemma_after_tail(init, t);
        let prev = after(init, t);
        if sw.last().at > t {
            let cur = after(sw, t);
            assert(cur == prev.push(sw.last()));
            let off = sw.len() - cur.len();
            assert forall|j: int| 0 <= j < cur.len() implies cur[j] == sw[j + off] by {
                if j < prev.len() {
                    assert(prev[j] == init[j + (init.len() - prev.len())]);
                } else {
                    assert(cur[j] == sw.last());
                }
            }
        } else {
            assert forall|j: int| 0 <= j < init.len() implies (#[trigger] init[j]).at <= sw.last().at by {
                assert(init[j] == sw[j]);
                assert(sw.last() == sw[sw.len() - 1]);
            }
            lemma_after_none(init, t, sw.last().at);
        }
    }
}

proof fn lemma_after_none(sw: Seq<AppSwitch>, t: i64, top: i64)
    requires
        forall|j: int| 0 <= j < sw.len() ==> (#[trigger] sw[j]).at <= top,
        top <= t,
    ensures
        after(sw, t).len() == 0,
    decreases sw.len(),
{
    if sw.len() > 0 {
        let init = sw.drop_last();
        assert forall|j: int| 0 <= j < init.len() implies (#[trigger] init[j]).at <= top by {
            assert(init[j] == sw[j]);
        }
        lemma_after_none(init, t, top);
        assert(sw.last() == sw[sw.len() - 1]);
    }
}

proof fn lemma_tail_no_repeats(sw: Seq<AppSwitch>, from: int)
    requires
        no_repeats(sw),
        0 <= from <= sw.len(),
    ensures
        no_repeats(sw.subrange(from, sw.len() as int)),
{
    let s = sw.subrange(from, sw.len() as int);
    assert forall|k: int| 0 <= k < s.len() - 1 implies !same_event(#[trigger] s[k], s[k + 1]) by {
        assert(s[k] == sw[k + from] && s[k + 1] == sw[k + 1 + from]);
    }
}

proof fn lemma_after_clean(sw: Seq<AppSwitch>, t: i64)
    requires
        switches_sorted(sw),
        no_repeats(sw),
    ensures
        no_repeats(after(sw, t)),
{
    lemma_after_tail(sw, t);
    lemma_tail_no_repeats(sw, sw.len() - after(sw, t).len());
}

proof fn lemma_trim_clean(points: Seq<ActivityPoint>, at: i64, truncated: bool)
    requires
        forall|j: int| 0 <= j < points.len() ==> idle_clean(#[trigger] points[j]),
    ensures
        forall|j: int| 0 <= j < trim_old(points, at, truncated).0.len() ==> idle_clean(#[trigger] trim_old(points, at, truncated).0[j]),
    decreases points.len(),
{
    if points.len() > MAX_POINTS || (points.len() > 0 && at - points[0].at > MAX_AGE_MS) {
        let rest = points.drop_first();
        assert forall|j: int| 0 <= j < rest.len() implies idle_clean(#[trigger] rest[j]) by {
            assert(rest[j] == points[j + 1]);
        }
        lemma_trim_clean(rest, at, true);
        assert(trim_old(points, at, truncated) == trim_old(rest, at, true));
    }
}

#[verifier::spinoff_prover]
proof fn lemma_clip_clean(points: Seq<ActivityPoint>, sw: Seq<AppSwitch>, truncated: bool)
    requires
        forall|j: int| 0 <= j < points.len() ==> idle_clean(#[trigger] points[j]),
        switches_sorted(sw),
        no_repeats(sw),
    ensures
        forall|j: int| 0 <= j < clip(points, sw, truncated).0.len() ==> idle_clean(#[trigger] clip(points, sw, truncated).0[j]),
        switches_sorted(clip(points, sw, truncated).1),
        no_repeats(clip(points, sw, truncated).1),
    decreases points.len(),
{
    if sw.len() > MAX_SWITCHES && points.len() > 1 {
        let rest = points.drop_first();
        assert forall|j: int| 0 <= j < rest.len() implies idle_clean(#[trigger] rest[j]) by {
            assert(rest[j] == points[j + 1]);
        }
        lemma_after_tail(sw, rest[0].at);
        lemma_after_clean(sw, rest[0].at);
        let left = after(sw, rest[0].at);
        assert(switches_sorted(left)) by {
            let off = sw.len() - left.len();
            assert forall|j: int, k: int| 0 <= j < k < left.len() implies #[trigger] left[j].at <= #[trigger] left[k].at by {
                assert(left[j] == sw[j + off] && left[k] == sw[k + off]);
            }
        }
        lemma_clip_clean(rest, left, true);
        assert(clip(points, sw, truncated) == clip(rest, left, true));
    }
}

/// Every reading the tracker keeps has a finite, non-negative idle time, and no two adjacent
/// switches it keeps repeat the same event: an empty tracker is so, and every reading keeps
/// it so (clearing and starting afresh give an empty tracker, then a reading).
pub proof fn law_tracker_clean(m: TrackerModel, at: i64, a: Activity, excluded: Seq<String>)
    requires
        bounded(m),
        tracker_clean(m),
        time_ok(at),
    ensures
        tracker_clean(empty_tracker()),
        tracker_clean(observe_step(m, at, a, excluded)),
{
    if !touches_excluded(a, excluded) {
        let m0 = if m.points.len() > 0 && (at < m.points.last().at || at - m.points.last().at > READING_GAP_MS) {
            empty_tracker()
        } else {
            m
        };
        let since = if m0.points.len() > 0 { m0.points[0].at } else { at };
        let fresh = within(a.switches@, since, at);
        lemma_within(a.switches@, since, at);
        assert(all_between(m0.switches, since, at)) by {
            if m0.points.len() > 0 {
                assert forall|j: int| 0 <= j < m0.switches.len() implies since < #[trigger] m0.switches[j].at <= at by {}
            }
        }
        lemma_insert_all(m0.switches, fresh, since, at);
        let merged = insert_all(m0.switches, fresh);
        lemma_dedup(merged, since, at);
        lemma_dedup_no_repeats(merged);
        let sw = dedup(merged);
        let kept = if m0.points.len() > 0 && m0.points.last().at == at { m0.points.drop_last() } else { m0.points };
        let pushed = kept.push(reading(at, a));
        assert forall|j: int| 0 <= j < pushed.len() implies idle_clean(#[trigger] pushed[j]) by {
            if j < kept.len() {
                assert(pushed[j] == m0.points[j]);
            }
        }
        lemma_trim_clean(pushed, at, m0.truncated);
        let trimmed = trim_old(pushed, at, m0.truncated);
        lemma_clip_clean(trimmed.0, sw, trimmed.1);
        let clipped = clip(trimmed.0, sw, trimmed.1);
        lemma_after_clean(clipped.1, clipped.0[0].at);
    }
}

} // verus!

verus! {

// ---------------------------------------------------------------- dwell adds up

/// Each dwell span ends where the next one starts.
pub open spec fn dwell_contiguous(sp: Seq<AppDwell>) -> bool {
    forall|k: int| 0 <= k < sp.len() - 1 ==> (#[trigger] sp[k]).end == sp[k + 1].start
}

/// The total time of the dwell spans.
pub open spec fn dwell_total(sp: Seq<AppDwell>) -> int
    decreases sp.len(),
{
    if sp.len() == 0 { 0 } else { dwell_total(sp.drop_last()) + (sp.last().end - sp.last().start) }
}

proof fn lemma_scan_contiguous(init: SpanScan, cs: Seq<Change>, lo: i64, hi: i64)
    requires
        changes_sorted(cs),
        changes_between(cs, lo, hi),
        init.spans.len() == 0,
        init.start == lo,
    ensures
        ({
            let st = span_scan(init, cs);
            &&& dwell_contiguous(st.spans)
            &&& st.spans.len() == 0 ==> st.start == lo
            &&& st.spans.len() > 0 ==> st.spans[0].start == lo && st.spans.last().end == st.start
        }),
    decreases cs.len(),
{
    if cs.len() > 0 {
        let init_cs = cs.drop_last();
        assert(changes_sorted(init_cs)) by {
            assert forall|a: int, b: int| 0 <= a < b < init_cs.len() implies #[trigger] init_cs[a].at <= #[trigger] init_cs[b].at by {
                assert(init_cs[a] == cs[a] && init_cs[b] == cs[b]);
            }
        }
        assert(changes_between(init_cs, lo, hi)) by {
            assert forall|a: int| 0 <= a < init_cs.len() implies lo <= #[trigger] init_cs[a].at <= hi by {
                assert(init_cs[a] == cs[a]);
            }
        }
        lemma_scan_contiguous(init, init_cs, lo, hi);
        lemma_span_scan(init, init_cs, lo, hi);
        let prev = span_scan(init, init_cs);
        let c = cs.last();
        assert(c == cs[cs.len() - 1]);
        if init_cs.len() > 0 {
            assert(init_cs.last() == cs[cs.len() - 2]);
        }
        assert(prev.start <= c.at);
        let st = span_step(prev, c);
        if c.bundle_id@ != prev.bundle@ && c.at > prev.start {
            let sp = st.spans;
            assert forall|k: int| 0 <= k < sp.len() - 1 implies (#[trigger] sp[k]).end == sp[k + 1].start by {
                if k < sp.len() - 2 {
                    assert(sp[k] == prev.spans[k] && sp[k + 1] == prev.spans[k + 1]);
                } else {
                    assert(sp[k] == prev.spans.last());
                }
            }
            if prev.spans.len() > 0 {
                assert(sp[0] == prev.spans[0]);
            }
        }
    }
}

proof fn lemma_dwell_total(sp: Seq<AppDwell>)
    requires
        dwell_contiguous(sp),
        sp.len() > 0,
    ensures
        dwell_total(sp) == sp.last().end - sp[0].start,
    decreases sp.len(),
{
    if sp.len() > 1 {
        let init = sp.drop_last();
        assert forall|k: int| 0 <= k < init.len() - 1 implies (#[trigger] init[k]).end == init[k + 1].start by {
            assert(init[k] == sp[k] && init[k + 1] == sp[k + 1]);
        }
        lemma_dwell_total(init);
        assert(init.last() == sp[sp.len() - 2]);
        assert(sp[sp.len() - 2].end == sp[sp.len() - 1].start);
        assert(init[0] == sp[0]);
    } else {
        assert(sp.drop_last().len() == 0);
        assert(dwell_total(sp.drop_last()) == 0);
        assert(sp.last() == sp[0]);
    }
}

/// Dwell adds up: the spans of a history run without gaps from its start to its end (none when
/// it has one instant), so their total is `end - start`; duplicate or missed switch events
/// never count time twice.
pub proof fn law_dwell_adds_up(m: TrackerModel)
    requires
        bounded(m),
        m.points.len() > 0,
    ensures
        ({
            let sp = spans_of(m);
            let lo = m.points[0].at;
            let hi = m.points.last().at;
            &&& dwell_contiguous(sp)
            &&& hi == lo ==> sp.len() == 0
            &&& hi > lo ==> sp.len() > 0 && sp[0].start == lo && sp.last().end == hi
            &&& dwell_total(sp) == hi - lo
        }),
{
    let lo = m.points[0].at;
    let hi = m.points.last().at;
    assert forall|a: int| 1 <= a < m.points.len() implies lo <= #[trigger] m.points[a].at <= hi by {
        assert(m.points[0].at < m.points[a].at);
        if a < m.points.len() - 1 {
            assert(m.points[a].at < m.points[m.points.len() - 1].at);
        }
    }
    lemma_merge_sorted(m.switches, m.points, 0, 1, lo, hi);
    let cs = changes_of(m);
    let first = m.points[0];
    let init = SpanScan { start: first.at, name: first.app_name, bundle: first.bundle_id, spans: Seq::empty() };
    lemma_span_scan(init, cs, lo, hi);
    lemma_scan_contiguous(init, cs, lo, hi);
    let st = span_scan(init, cs);
    if cs.len() > 0 {
        assert(cs.last() == cs[cs.len() - 1]);
    }
    assert(lo <= st.start <= hi);
    let sp = spans_of(m);
    if hi > st.start {
        assert(sp == st.spans.push(AppDwell { start: st.start, end: hi, app_name: st.name, bundle_id: st.bundle }));
        assert forall|k: int| 0 <= k < sp.len() - 1 implies (#[trigger] sp[k]).end == sp[k + 1].start by {
            if k < sp.len() - 2 {
                assert(sp[k] == st.spans[k] && sp[k + 1] == st.spans[k + 1]);
            } else {
                assert(sp[k] == st.spans.last());
            }
        }
        if st.spans.len() > 0 {
            assert(sp[0] == st.spans[0]);
        }
        lemma_dwell_total(sp);
    } else {
        assert(sp == st.spans);
        if sp.len() > 0 {
            lemma_dwell_total(sp);
        }
    }
}

/// Starting afresh (what `begin_after_capture` does) with a reading that touches no excluded
/// app leaves that one reading alone: no switches, nothing dropped, and no dwell span, since
/// the history starts and ends at it.
pub proof fn law_fresh_reading(at: i64, a: Activity, excluded: Seq<String>)
    requires
        !touches_excluded(a, excluded),
    ensures
        observe_step(empty_tracker(), at, a, excluded)
            == (TrackerModel { points: seq![reading(at, a)], switches: Seq::empty(), truncated: false }),
        spans_of(observe_step(empty_tracker(), at, a, excluded)).len() == 0,
{
    let one = Seq::<ActivityPoint>::empty().push(reading(at, a));
    assert(one =~= seq![reading(at, a)]);
    assert(trim_old(one, at, false) == (one, false));
    lemma_within_empty(a.switches@, at);
    assert(insert_all(Seq::<AppSwitch>::empty(), within(a.switches@, at, at)) =~= Seq::<AppSwitch>::empty());
    let sw = dedup(insert_all(Seq::<AppSwitch>::empty(), within(a.switches@, at, at)));
    assert(sw =~= Seq::<AppSwitch>::empty());
    assert(clip(one, sw, false) == (one, sw, false));
    assert(after(sw, at) =~= Seq::<AppSwitch>::empty());
    let m = observe_step(empty_tracker(), at, a, excluded);
    assert(m.points =~= seq![reading(at, a)]);
    assert(m.switches =~= Seq::<AppSwitch>::empty());
    assert(changes_of(m) =~= Seq::<Change>::empty());
}

} // verus!
