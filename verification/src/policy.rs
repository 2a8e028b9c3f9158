//! Fixed sampling cadence. Local evidence can pause sampling, never classify work.
use vstd::prelude::*;
use crate::ieee::{at_least, at_least_bits};
use crate::models::{Activity, Presence, PresenceState};

verus! {

/// How often the recorder checks locally, in seconds.
pub const POLL_SECONDS: u32 = 5;

/// How often a screenshot group is sent to the model, in seconds.
pub const ANALYSIS_INTERVAL_SECONDS: u32 = 60;

/// How long a model judgment may be carried forward, in milliseconds.
pub const JUDGMENT_TTL_MS: i64 = 120_000;

/// The longest pause between observations that still counts as continuous.
pub const OBSERVATION_GAP_MS: i64 = 10_000;

/// How long nobody must be seen before the person counts as away.
pub const AWAY_MS: i64 = 45_000;

/// `5.0` seconds of input idleness, as a bit pattern.
pub const IDLE_FOR_ABSENCE_BITS: u64 = 0x4014_0000_0000_0000;

/// `45.0` seconds of input idleness, as a bit pattern.
pub const IDLE_FOR_AWAY_BITS: u64 = 0x4046_8000_0000_0000;

/// Timestamps (milliseconds) far enough from the ends of `i64` that differences of two stay in range.
pub const TIME_LIMIT: i64 = 0x2000_0000_0000_0000;

pub open spec fn time_ok(t: i64) -> bool {
    -TIME_LIMIT <= t <= TIME_LIMIT
}

/// One local check by the native helper.
#[derive(Clone, Debug)]
pub struct Observation {
    pub captured_at: i64,
    pub activity: Activity,
    pub presence: Presence,
    pub blocked_reason: Option<String>,
    pub camera_active: bool,
    pub camera_device: String,
}

impl Default for Observation {
    fn default() -> (o: Self)
        ensures
            o.captured_at == 0,
            o.activity.switches@.len() == 0 && o.activity.history is None,
            o.presence.state == PresenceState::Unknown,
            o.blocked_reason is None,
            !o.camera_active,
            o.camera_device@.len() == 0,
    {
        Observation {
            captured_at: 0,
            activity: Activity::default(),
            presence: Presence::default(),
            blocked_reason: None,
            camera_active: false,
            camera_device: String::new(),
        }
    }
}

/// What the recorder does after one check.
#[derive(Clone, Debug)]
pub struct Decision {
    pub analyze: bool,
    pub away: bool,
    pub reason: String,
    pub next_check_seconds: u32,
}

impl Decision {
    /// A copy of this decision.
    pub fn copied(&self) -> (r: Self)
        ensures
            r == *self,
    {
        Decision {
            analyze: self.analyze,
            away: self.away,
            reason: self.reason.clone(),
            next_check_seconds: self.next_check_seconds,
        }
    }
}

pub struct DecisionModel {
    pub analyze: bool,
    pub away: bool,
    pub reason: Seq<char>,
    pub next_check_seconds: u32,
}

impl View for Decision {
    type V = DecisionModel;

    open spec fn view(&self) -> DecisionModel {
        DecisionModel {
            analyze: self.analyze,
            away: self.away,
            reason: self.reason@,
            next_check_seconds: self.next_check_seconds,
        }
    }
}

pub open spec fn decision_of(analyze: bool, away: bool, reason: Seq<char>, next: u32) -> DecisionModel {
    DecisionModel { analyze, away, reason, next_check_seconds: next }
}

/// The scheduler's memory: the last check, the last analysis attempt, and since when
/// nobody has been seen.
pub struct PolicyModel {
    pub last_poll: Option<i64>,
    pub last_attempt: Option<i64>,
    pub missing_since: Option<i64>,
}

pub open spec fn model_times_ok(m: PolicyModel) -> bool {
    &&& (m.last_poll matches Some(t) ==> time_ok(t))
    &&& (m.last_attempt matches Some(t) ==> time_ok(t))
    &&& (m.missing_since matches Some(t) ==> time_ok(t))
}

/// Nobody is seen and input has been idle for at least five seconds.
pub open spec fn absence_signal(o: Observation) -> bool {
    o.presence.state == PresenceState::NotDetected
        && at_least(o.activity.idle_seconds_bits, IDLE_FOR_ABSENCE_BITS)
}

/// The wait before the next analysis, in milliseconds (0 when one is due).
pub open spec fn wait_ms(last_attempt: Option<i64>, at: i64) -> int {
    match last_attempt {
        Some(last) => {
            let w = ANALYSIS_INTERVAL_SECONDS * 1000 - (at - last);
            if w > 0 { w } else { 0 }
        },
        None => 0,
    }
}

/// One scheduling step: the new memory and the decision for the check `o`.
///
/// A gap of more than ten seconds, or a clock that went back, forgets since when
/// nobody was seen; a clock that went back also forgets the last attempt. A blocked
/// check pauses. Away needs nobody seen for 45 s while input idles for 45 s. Otherwise
/// an analysis is due once a minute, and the attempt is recorded whatever becomes of it.
pub open spec fn decide_step(m: PolicyModel, o: Observation) -> (PolicyModel, DecisionModel) {
    let at = o.captured_at;
    let ms0 = match m.last_poll {
        Some(last) => if at - last > OBSERVATION_GAP_MS || at < last { None } else { m.missing_since },
        None => m.missing_since,
    };
    let la = match m.last_poll {
        Some(last) => if at < last { None } else { m.last_attempt },
        None => m.last_attempt,
    };
    let lp = Some(at);
    if o.blocked_reason is Some {
        (PolicyModel { last_poll: lp, last_attempt: la, missing_since: None },
         decision_of(false, false, o.blocked_reason->0@, 0))
    } else {
        let ms = if absence_signal(o) {
            Some(match ms0 { Some(s) => s, None => at })
        } else {
            None
        };
        let away = absence_signal(o) && at - ms->0 >= AWAY_MS
            && at_least(o.activity.idle_seconds_bits, IDLE_FOR_AWAY_BITS);
        if away {
            (PolicyModel { last_poll: lp, last_attempt: la, missing_since: ms },
             decision_of(false, true, "away"@, 0))
        } else if wait_ms(la, at) > 0 {
            (PolicyModel { last_poll: lp, last_attempt: la, missing_since: ms },
             decision_of(false, false, "waiting"@, ((wait_ms(la, at) + 999) / 1000) as u32))
        } else {
            (PolicyModel { last_poll: lp, last_attempt: Some(at), missing_since: ms },
             decision_of(true, false, if la is None { "started"@ } else { "periodic"@ },
                ANALYSIS_INTERVAL_SECONDS))
        }
    }
}

/// The fixed-cadence scheduler of the recorder.
pub struct Policy {
    last_poll: Option<i64>,
    last_attempt: Option<i64>,
    missing_since: Option<i64>,
}

impl View for Policy {
    type V = PolicyModel;

    closed spec fn view(&self) -> PolicyModel {
        PolicyModel {
            last_poll: self.last_poll,
            last_attempt: self.last_attempt,
            missing_since: self.missing_since,
        }
    }
}

impl Policy {
    #[verifier::type_invariant]
    closed spec fn times_in_range(self) -> bool {
        model_times_ok(self@) && attempt_before_poll(self@)
    }

    /// Decides what to do after the local check `o`. Every scheduler's memory is consistent
    /// (see `attempt_before_poll`), before and after.
    pub fn decide(&mut self, o: &Observation) -> (d: Decision)
        requires
            time_ok(o.captured_at),
        ensures
            (final(self)@, d@) == decide_step(old(self)@, *o),
            attempt_before_poll(old(self)@),
            attempt_before_poll(final(self)@),
    {
        proof {
            use_type_invariant(&*self);
            law_memory_consistent(self@, *o);
        }
        let at = o.captured_at;
        let mut missing_since = self.missing_since;
        let mut last_attempt = self.last_attempt;
        match self.last_poll {
            Some(last) => {
                if at - last > OBSERVATION_GAP_MS || at < last {
                    missing_since = None;
                }
                if at < last {
                    last_attempt = None;
                }
            },
            None => {},
        }
        let absent = o.presence.state == PresenceState::NotDetected
            && at_least_bits(o.activity.idle_seconds_bits, IDLE_FOR_ABSENCE_BITS);
        match &o.blocked_reason {
            Some(reason) => {
                *self = Policy { last_poll: Some(at), last_attempt, missing_since: None };
                return decision(false, false, reason.clone(), 0);
            },
            None => {},
        }
        let away = if absent {
            let since = match missing_since {
                Some(s) => s,
                None => at,
            };
            missing_since = Some(since);
            at - since >= AWAY_MS && at_least_bits(o.activity.idle_seconds_bits, IDLE_FOR_AWAY_BITS)
        } else {
            missing_since = None;
            false
        };
        if away {
            *self = Policy { last_poll: Some(at), last_attempt, missing_since };
            return decision(false, true, String::from_str("away"), 0);
        }
        let interval: i64 = ANALYSIS_INTERVAL_SECONDS as i64 * 1000;
        let wait: i64 = match last_attempt {
            Some(last) => {
                let w = interval - (at - last);
                if w > 0 { w } else { 0 }
            },
            None => 0,
        };
        if wait > 0 {
            *self = Policy { last_poll: Some(at), last_attempt, missing_since };
            return decision(false, false, String::from_str("waiting"), ((wait + 999) / 1000) as u32);
        }
        let reason = if last_attempt.is_none() {
            String::from_str("started")
        } else {
            String::from_str("periodic")
        };
        *self = Policy { last_poll: Some(at), last_attempt: Some(at), missing_since };
        decision(true, false, reason, ANALYSIS_INTERVAL_SECONDS)
    }
}

impl Default for Policy {
    fn default() -> (p: Self)
        ensures
            p@ == (PolicyModel { last_poll: None, last_attempt: None, missing_since: None }),
    {
        Policy { last_poll: None, last_attempt: None, missing_since: None }
    }
}

fn decision(analyze: bool, away: bool, reason: String, next_check_seconds: u32) -> (d: Decision)
    ensures
        d@ == decision_of(analyze, away, reason@, next_check_seconds),
{
    Decision { analyze, away, reason, next_check_seconds }
}

// ---------------------------------------------------------------- laws

/// The scheduler's memory is consistent: the last attempt was made at a check, so it is not
/// after the last check.
pub open spec fn attempt_before_poll(m: PolicyModel) -> bool {
    m.last_attempt matches Some(a) ==> (m.last_poll matches Some(p) && a <= p)
}

/// A paused check wins: no analysis, not away, the pause's reason shown, the next check at
/// once; and it forgets since when nobody was seen.
pub proof fn law_pause_wins(m: PolicyModel, o: Observation)
    requires
        o.blocked_reason is Some,
    ensures
        decide_step(m, o).1 == decision_of(false, false, o.blocked_reason->0@, 0),
        decide_step(m, o).0.missing_since is None,
{
}

/// Away needs both signals: no pause, nobody detected by the camera, and input idle for at
/// least 45 seconds. An uncertain or disabled camera, or recent input, never means away, and
/// an away check is never analysed.
pub proof fn law_away_needs_both_signals(m: PolicyModel, o: Observation)
    ensures
        decide_step(m, o).1.away ==> {
            &&& o.blocked_reason is None
            &&& o.presence.state == PresenceState::NotDetected
            &&& at_least(o.activity.idle_seconds_bits, IDLE_FOR_AWAY_BITS)
            &&& !decide_step(m, o).1.analyze
        },
{
}

/// Away also needs 45 seconds without anybody seen: the check that first misses a person
/// is never away, whatever the idle time.
pub proof fn law_absence_lasts(m: PolicyModel, o: Observation)
    requires
        m.missing_since is None,
    ensures
        !decide_step(m, o).1.away,
{
}

/// Sampling keeps a fixed cadence: while the clock runs forward, an analysis comes at least
/// a minute after the previous attempt, and every attempt, whatever becomes of it, takes the
/// minute and schedules the next check a minute later.
pub proof fn law_one_analysis_per_minute(m: PolicyModel, o: Observation)
    requires
        m.last_poll matches Some(p) ==> p <= o.captured_at,
        attempt_before_poll(m),
    ensures
        decide_step(m, o).1.analyze ==> (m.last_attempt matches Some(a) ==> o.captured_at - a >= ANALYSIS_INTERVAL_SECONDS * 1000),
        decide_step(m, o).1.analyze ==> decide_step(m, o).0.last_attempt == Some(o.captured_at)
            && decide_step(m, o).1.next_check_seconds == ANALYSIS_INTERVAL_SECONDS,
        decide_step(m, o).1.analyze ==> (decide_step(m, o).1.reason == "started"@ <==> m.last_attempt is None),
{
    reveal_strlit("started");
    reveal_strlit("periodic");
    assert("started"@ != "periodic"@) by {
        assert("started"@.len() == 7);
        assert("periodic"@.len() == 8);
    }
    let la = match m.last_poll {
        Some(last) => if o.captured_at < last { None } else { m.last_attempt },
        None => m.last_attempt,
    };
    assert(la == m.last_attempt);
}

/// While an analysis is not yet due, the next check is due within a minute, and at least a
/// second later.
pub proof fn law_waits_within_a_minute(m: PolicyModel, o: Observation)
    requires
        m.last_poll matches Some(p) ==> p <= o.captured_at,
        attempt_before_poll(m),
    ensures
        (!decide_step(m, o).1.analyze && !decide_step(m, o).1.away && o.blocked_reason is None)
            ==> 1 <= decide_step(m, o).1.next_check_seconds <= ANALYSIS_INTERVAL_SECONDS,
{
    let at = o.captured_at;
    let la = decide_step(m, o).0.last_attempt;
    match la {
        Some(last) => {
            assert(last <= at);
            assert(wait_ms(la, at) <= 60_000);
            if wait_ms(la, at) > 0 {
                assert((wait_ms(la, at) + 999) / 1000 >= 1);
                assert((wait_ms(la, at) + 999) / 1000 <= 60);
            }
        },
        None => {},
    }
}

/// Every step keeps the memory consistent.
pub proof fn law_step_keeps_memory(m: PolicyModel, o: Observation)
    requires
        attempt_before_poll(m),
        m.last_poll matches Some(p) ==> p <= o.captured_at,
    ensures
        attempt_before_poll(decide_step(m, o).0),
        decide_step(m, o).0.last_poll == Some(o.captured_at),
{
}

/// Application, window and switch events never change the schedule: two checks that differ
/// only in them get the same step.
pub proof fn law_schedule_ignores_apps(m: PolicyModel, o1: Observation, o2: Observation)
    requires
        o1.captured_at == o2.captured_at,
        o1.presence.state == o2.presence.state,
        o1.activity.idle_seconds_bits == o2.activity.idle_seconds_bits,
        o1.blocked_reason == o2.blocked_reason,
    ensures
        decide_step(m, o1) == decide_step(m, o2),
{
}


/// The memory after the first `k` checks of `obs`, starting from `m`.
pub open spec fn state_after(m: PolicyModel, obs: Seq<Observation>, k: int) -> PolicyModel
    decreases k,
{
    if k <= 0 { m } else { decide_step(state_after(m, obs, k - 1), obs[k - 1]).0 }
}

/// The decision on check `k` of `obs`, starting from `m`.
pub open spec fn decision_at(m: PolicyModel, obs: Seq<Observation>, k: int) -> DecisionModel {
    decide_step(state_after(m, obs, k), obs[k]).1
}

/// The clock never runs back: not behind the memory's last check, nor from one check of `obs`
/// to a later one.
pub open spec fn clock_forward(m: PolicyModel, obs: Seq<Observation>) -> bool {
    &&& forall|k: int| 0 <= k < obs.len() ==> (m.last_poll matches Some(p) ==> p <= (#[trigger] obs[k]).captured_at)
    &&& forall|a: int, b: int| 0 <= a <= b < obs.len() ==> (#[trigger] obs[a]).captured_at <= (#[trigger] obs[b]).captured_at
}

proof fn lemma_memory_along(m: PolicyModel, obs: Seq<Observation>, k: int)
    requires
        attempt_before_poll(m),
        clock_forward(m, obs),
        0 <= k <= obs.len(),
    ensures
        attempt_before_poll(state_after(m, obs, k)),
        k > 0 ==> state_after(m, obs, k).last_poll == Some(obs[k - 1].captured_at),
        k < obs.len() ==> (state_after(m, obs, k).last_poll matches Some(p) ==> p <= obs[k].captured_at),
    decreases k,
{
    if k > 0 {
        lemma_memory_along(m, obs, k - 1);
        law_step_keeps_memory(state_after(m, obs, k - 1), obs[k - 1]);
        if k < obs.len() {
            assert(obs[k - 1].captured_at <= obs[k].captured_at);
        }
    } else if k < obs.len() {
        assert(m.last_poll matches Some(p) ==> p <= obs[0].captured_at);
    }
}

proof fn lemma_attempt_kept(m: PolicyModel, obs: Seq<Observation>, i: int, k: int)
    requires
        attempt_before_poll(m),
        clock_forward(m, obs),
        0 <= i < k <= obs.len(),
        decision_at(m, obs, i).analyze,
    ensures
        state_after(m, obs, k).last_attempt matches Some(a) && a >= obs[i].captured_at,
    decreases k,
{
    if k > i + 1 {
        lemma_attempt_kept(m, obs, i, k - 1);
        lemma_memory_along(m, obs, k - 1);
        assert(obs[i].captured_at <= obs[k - 1].captured_at);
    }
}

/// Analyses keep their distance over any run of checks: while the clock never runs back,
/// two checks that are both analysed lie at least a minute apart.
pub proof fn law_analyses_spaced(m: PolicyModel, obs: Seq<Observation>, i: int, j: int)
    requires
        attempt_before_poll(m),
        clock_forward(m, obs),
        0 <= i < j < obs.len(),
        decision_at(m, obs, i).analyze,
        decision_at(m, obs, j).analyze,
    ensures
        obs[j].captured_at - obs[i].captured_at >= ANALYSIS_INTERVAL_SECONDS * 1000,
{
    lemma_attempt_kept(m, obs, i, j);
    lemma_memory_along(m, obs, j);
    law_one_analysis_per_minute(state_after(m, obs, j), obs[j]);
}


/// Every scheduler's memory is consistent: a fresh one is, and every step keeps it so,
/// whatever the check and however the clock moved.
pub proof fn law_memory_consistent(m: PolicyModel, o: Observation)
    requires
        attempt_before_poll(m),
    ensures
        attempt_before_poll(PolicyModel { last_poll: None, last_attempt: None, missing_since: None }),
        attempt_before_poll(decide_step(m, o).0),
{
}

/// What every decision of a scheduler with consistent memory says, for any check: it never
/// both analyses and marks away; an analysis is `started` or `periodic` and schedules the
/// next check a minute later; away needs no pause, nobody detected, input idle for 45 s, and
/// checks again at once; a wait without a pause lasts between one second and a minute.
pub proof fn law_every_decision(m: PolicyModel, o: Observation)
    requires
        attempt_before_poll(m),
    ensures
        ({
            let d = decide_step(m, o).1;
            &&& !(d.analyze && d.away)
            &&& d.analyze ==> d.next_check_seconds == ANALYSIS_INTERVAL_SECONDS
                && (d.reason == "started"@ || d.reason == "periodic"@)
            &&& d.away ==> o.blocked_reason is None && o.presence.state == PresenceState::NotDetected
                && at_least(o.activity.idle_seconds_bits, IDLE_FOR_AWAY_BITS) && d.next_check_seconds == 0
            &&& (d.reason == "waiting"@ && o.blocked_reason is None)
                ==> 1 <= d.next_check_seconds <= ANALYSIS_INTERVAL_SECONDS
        }),
{
    reveal_strlit("waiting");
    reveal_strlit("away");
    reveal_strlit("started");
    reveal_strlit("periodic");
    assert("waiting"@ != "away"@) by {
        assert("waiting"@.len() == 7 && "away"@.len() == 4);
    }
    assert("waiting"@ != "started"@) by {
        assert("waiting"@[0] == 'w' && "started"@[0] == 's');
    }
    assert("waiting"@ != "periodic"@) by {
        assert("waiting"@.len() == 7 && "periodic"@.len() == 8);
    }
    let at = o.captured_at;
    let la = match m.last_poll {
        Some(last) => if at < last { None } else { m.last_attempt },
        None => m.last_attempt,
    };
    match la {
        Some(last) => {
            assert(last <= at);
            assert(wait_ms(la, at) <= 60_000);
            if wait_ms(la, at) > 0 {
                assert((wait_ms(la, at) + 999) / 1000 >= 1);
                assert((wait_ms(la, at) + 999) / 1000 <= 60);
            }
        },
        None => {},
    }
}

} // verus!
