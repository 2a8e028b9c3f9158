//! The recorder's decisions: which displays to record, what its status shows, what one local
//! check changes, and the records that a check leaves behind. The loop that waits, asks the
//! native helper and writes the records runs outside the library; it hands every outcome to
//! these functions and performs what they return.
use vstd::prelude::*;
use crate::activity::{copy_switches, empty_tracker, history_matches, observe_step, ActivityTracker};
use crate::ai::backend_access_error;
use crate::capture::{CaptureInput, ScreenInput};
use crate::models::{
    Activity, CaptureEvidence, Presence, PresenceRegion, PresenceState, Sample, SelectedDisplay, Session, Settings,
    MAX_DISPLAYS,
};
use crate::policy::{decide_step, decision_of, time_ok, Decision, DecisionModel, Observation, Policy, PolicyModel, OBSERVATION_GAP_MS, POLL_SECONDS, TIME_LIMIT};
use crate::text::str_eq;

verus! {

// ---------------------------------------------------------------- displays

/// How recording starts: with or without the camera, and on which displays. Without a list
/// and without a single display, every available display is recorded; display 0 stands for
/// the primary display. An explicit empty list is refused.
#[derive(Clone, Debug)]
pub struct StartInput {
    pub camera: bool,
    pub display_id: Option<u32>,
    pub display_ids: Option<Vec<u32>>,
}

pub open spec fn ids_of(displays: Seq<SelectedDisplay>) -> Seq<u32> {
    displays.map_values(|d: SelectedDisplay| d.id)
}

/// The ids asked for, before they are checked.
pub open spec fn requested_ids(input: StartInput, available: Seq<SelectedDisplay>, primary: Option<u32>)
    -> Result<Seq<u32>, Seq<char>>
{
    match input.display_ids {
        Some(ids) => Ok(ids@),
        None => match input.display_id {
            Some(id) => if id == 0 {
                match primary {
                    Some(p) => Ok(seq![p]),
                    None => Err("主显示器不可用"@),
                }
            } else {
                Ok(seq![id])
            },
            None => Ok(ids_of(available)),
        },
    }
}

/// The first available display at or after position `k` with this id.
pub open spec fn find_display_from(available: Seq<SelectedDisplay>, id: u32, k: int) -> Option<SelectedDisplay>
    decreases available.len() - k,
{
    if 0 <= k < available.len() {
        if available[k].id == id {
            Some(available[k])
        } else {
            find_display_from(available, id, k + 1)
        }
    } else {
        None
    }
}

/// The displays for these ids, in order; the first repeated or unavailable id decides the error.
pub open spec fn pick_displays(ids: Seq<u32>, available: Seq<SelectedDisplay>) -> Result<Seq<SelectedDisplay>, Seq<char>>
    decreases ids.len(),
{
    if ids.len() == 0 {
        Ok(Seq::empty())
    } else {
        match pick_displays(ids.drop_last(), available) {
            Err(e) => Err(e),
            Ok(picked) => if ids.drop_last().contains(ids.last()) {
                Err("显示器选择不能重复"@)
            } else {
                match find_display_from(available, ids.last(), 0) {
                    None => Err("所选显示器已断开，请刷新权限与设备状态"@),
                    Some(d) => Ok(picked.push(d)),
                }
            },
        }
    }
}

/// The displays to record, or why none can be.
pub open spec fn display_selection(input: StartInput, available: Seq<SelectedDisplay>, primary: Option<u32>)
    -> Result<Seq<SelectedDisplay>, Seq<char>>
{
    match requested_ids(input, available, primary) {
        Err(e) => Err(e),
        Ok(ids) => if ids.len() == 0 {
            Err("请至少选择一块显示器"@)
        } else if ids.len() > MAX_DISPLAYS {
            Err("一次最多记录 16 块显示器"@)
        } else {
            pick_displays(ids, available)
        },
    }
}

/// The position of the first available display with this id.
fn find_display(available: &Vec<SelectedDisplay>, id: u32) -> (r: Option<usize>)
    ensures
        match r {
            Some(k) => k < available@.len() && find_display_from(available@, id, 0) == Some(available@[k as int]),
            None => find_display_from(available@, id, 0) is None,
        },
{
    let n = available.len();
    for k in 0..n
        invariant
            n == available@.len(),
            find_display_from(available@, id, 0) == find_display_from(available@, id, k as int),
    {
        if available[k].id == id {
            return Some(k);
        }
    }
    None
}

/// The displays to record: those asked for, every available one, or the primary one.
/// `primary` is the id that the helper marks as the primary display, if it marks one.
pub fn select_displays(input: &StartInput, available: &Vec<SelectedDisplay>, primary: Option<u32>)
    -> (r: Result<Vec<SelectedDisplay>, String>)
    ensures
        match r {
            Ok(v) => display_selection(*input, available@, primary) == Ok::<Seq<SelectedDisplay>, Seq<char>>(v@),
            Err(e) => display_selection(*input, available@, primary) == Err::<Seq<SelectedDisplay>, Seq<char>>(e@),
        },
{
    let mut ids: Vec<u32> = Vec::new();
    match &input.display_ids {
        Some(v) => {
            ids = v.clone();
        },
        None => match input.display_id {
            Some(id) => {
                if id == 0 {
                    match primary {
                        Some(p) => ids.push(p),
                        None => {
                            return Err(String::from_str("主显示器不可用"));
                        },
                    }
                } else {
                    ids.push(id);
                }
            },
            None => {
                let n = available.len();
                for k in 0..n
                    invariant
                        n == available@.len(),
                        ids@ == ids_of(available@.take(k as int)),
                {
                    ids.push(available[k].id);
                    assert(ids_of(available@.take(k + 1)) =~= ids_of(available@.take(k as int)).push(available@[k as int].id));
                }
                assert(available@.take(n as int) =~= available@);
            },
        },
    }
    assert(requested_ids(*input, available@, primary) == Ok::<Seq<u32>, Seq<char>>(ids@));
    if ids.len() == 0 {
        return Err(String::from_str("请至少选择一块显示器"));
    }
    if ids.len() > MAX_DISPLAYS {
        return Err(String::from_str("一次最多记录 16 块显示器"));
    }
    let mut selected: Vec<SelectedDisplay> = Vec::new();
    let n = ids.len();
    assert(ids@.take(0) =~= Seq::<u32>::empty());
    assert(display_selection(*input, available@, primary) == pick_displays(ids@, available@));
    for i in 0..n
        invariant
            n == ids@.len(),
            display_selection(*input, available@, primary) == pick_displays(ids@, available@),
            pick_displays(ids@.take(i as int), available@) == Ok::<Seq<SelectedDisplay>, Seq<char>>(selected@),
    {
        assert(ids@.take(i + 1).drop_last() =~= ids@.take(i as int));
        let id = ids[i];
        assert(ids@.take(i + 1).last() == id);
        let mut repeated = false;
        for j in 0..i
            invariant
                i < n == ids@.len(),
                id == ids@[i as int],
                repeated ==> ids@.take(i as int).contains(id),
                !repeated ==> forall|k: int| 0 <= k < j ==> ids@[k] != id,
        {
            if ids[j] == id {
                assert(ids@.take(i as int)[j as int] == id);
                repeated = true;
            }
        }
        if repeated {
            proof {
                lemma_pick_error_sticks(ids@, i + 1, available@);
            }
            return Err(String::from_str("显示器选择不能重复"));
        }
        assert(!ids@.take(i as int).contains(id));
        match find_display(available, id) {
            None => {
                proof {
                    lemma_pick_error_sticks(ids@, i + 1, available@);
                }
                return Err(String::from_str("所选显示器已断开，请刷新权限与设备状态"));
            },
            Some(k) => {
                selected.push(available[k].copied());
            },
        }
    }
    assert(ids@.take(n as int) =~= ids@);
    Ok(selected)
}

/// Once a prefix of the ids fails, the whole list fails the same way.
proof fn lemma_pick_error_sticks(ids: Seq<u32>, k: int, available: Seq<SelectedDisplay>)
    requires
        0 <= k <= ids.len(),
        pick_displays(ids.take(k), available) is Err,
    ensures
        pick_displays(ids, available) == pick_displays(ids.take(k), available),
    decreases ids.len() - k,
{
    if k < ids.len() {
        assert(ids.take(k + 1).drop_last() =~= ids.take(k));
        lemma_pick_error_sticks(ids, k + 1, available);
    } else {
        assert(ids.take(k) =~= ids);
    }
}

/// The permissions the helper can ask the user for: screen recording and the camera.
pub fn permission_kind_valid(kind: &str) -> (r: bool)
    ensures
        r == (kind@ == "screen"@ || kind@ == "camera"@),
{
    str_eq(kind, "screen") || str_eq(kind, "camera")
}

/// Why recording cannot start with these permissions: screen recording must be granted, and
/// the camera too when it is asked for.
pub fn permission_refusal(screen_granted: bool, camera: bool, camera_granted: bool) -> (r: Option<String>)
    ensures
        !screen_granted ==> (r matches Some(m) && m@ == "请先为本地程序授权屏幕录制，再开始记录；无需授权 Chrome"@),
        screen_granted && camera && !camera_granted ==> (r matches Some(m) && m@ == "请先授权本地程序使用摄像头，或取消摄像头选项"@),
        screen_granted && (!camera || camera_granted) ==> r is None,
{
    if !screen_granted {
        return Some(String::from_str("请先为本地程序授权屏幕录制，再开始记录；无需授权 Chrome"));
    }
    if camera && !camera_granted {
        return Some(String::from_str("请先授权本地程序使用摄像头，或取消摄像头选项"));
    }
    None
}

} // verus!

verus! {

// ---------------------------------------------------------------- status

/// What the page is shown of the recorder.
///
/// `camera_active` is whether the helper's camera session runs right now, false whenever the
/// camera is off, paused or failed. `presence_regions` are live only and never stored.
#[derive(Clone, Debug)]
pub struct RecordingStatus {
    pub running: bool,
    pub session: Option<Session>,
    pub camera: bool,
    pub display_id: u32,
    pub display_ids: Vec<u32>,
    pub displays: Vec<SelectedDisplay>,
    pub last_capture: Option<i64>,
    pub error: Option<String>,
    pub presence: Presence,
    pub camera_active: bool,
    pub camera_device: String,
    pub presence_regions: Vec<PresenceRegion>,
    pub scheduling: Option<Decision>,
    pub local_checks: u64,
    pub screen_captures: u64,
    pub analyses_scheduled: u64,
}

/// A presence reading that knows nothing.
pub open spec fn blank_presence(p: Presence) -> bool {
    p.state == PresenceState::Unknown && p.confidence_bits == 0 && p.observed_at == 0 && p.reason@.len() == 0
}

/// The live readings of the camera are cleared.
pub open spec fn camera_cleared(s: RecordingStatus) -> bool {
    !s.camera_active && s.camera_device@.len() == 0 && s.presence_regions@.len() == 0
}

/// The status of a recorder that has never run.
pub open spec fn initial_status(s: RecordingStatus) -> bool {
    &&& !s.running
    &&& s.session is None
    &&& !s.camera
    &&& s.display_id == 0
    &&& s.display_ids@.len() == 0
    &&& s.displays@.len() == 0
    &&& s.last_capture is None
    &&& s.error is None
    &&& blank_presence(s.presence)
    &&& camera_cleared(s)
    &&& s.scheduling is None
    &&& s.local_checks == 0
    &&& s.screen_captures == 0
    &&& s.analyses_scheduled == 0
}

impl Default for RecordingStatus {
    fn default() -> (s: Self)
        ensures
            initial_status(s),
    {
        RecordingStatus {
            running: false,
            session: None,
            camera: false,
            display_id: 0,
            display_ids: Vec::new(),
            displays: Vec::new(),
            last_capture: None,
            error: None,
            presence: Presence::default(),
            camera_active: false,
            camera_device: String::new(),
            presence_regions: Vec::new(),
            scheduling: None,
            local_checks: 0,
            screen_captures: 0,
            analyses_scheduled: 0,
        }
    }
}

pub open spec fn unavailable_message() -> Seq<char> {
    "本地观察暂不可用，未延长任何状态时长；正在重试"@
}

/// The decision shown and recorded when the local check fails.
pub fn unavailable_decision() -> (d: Decision)
    ensures
        d@ == decision_of(false, false, "unavailable"@, POLL_SECONDS),
{
    Decision { analyze: false, away: false, reason: String::from_str("unavailable"), next_check_seconds: POLL_SECONDS }
}

/// A copy of the displays.
fn copy_displays(d: &Vec<SelectedDisplay>) -> (r: Vec<SelectedDisplay>)
    ensures
        r@ == d@,
{
    let mut r: Vec<SelectedDisplay> = Vec::new();
    let n = d.len();
    for i in 0..n
        invariant
            n == d@.len(),
            r@ == d@.take(i as int),
    {
        r.push(d[i].copied());
        assert(r@ =~= d@.take(i + 1));
    }
    assert(d@.take(n as int) =~= d@);
    r
}

impl RecordingStatus {
    /// The status right after recording starts in `session` on `displays`.
    pub fn started(session: Session, camera: bool, displays: Vec<SelectedDisplay>) -> (s: Self)
        requires
            displays@.len() > 0,
        ensures
            s.running,
            s.session == Some(session),
            s.camera == camera,
            s.display_id == displays@[0].id,
            s.display_ids@ == ids_of(displays@),
            s.displays@ == displays@,
            s.last_capture is None,
            s.error is None,
            blank_presence(s.presence),
            camera_cleared(s),
            s.scheduling is None,
            s.local_checks == 0 && s.screen_captures == 0 && s.analyses_scheduled == 0,
    {
        let mut ids: Vec<u32> = Vec::new();
        let n = displays.len();
        for i in 0..n
            invariant
                n == displays@.len(),
                ids@ == ids_of(displays@.take(i as int)),
        {
            ids.push(displays[i].id);
            assert(ids_of(displays@.take(i + 1)) =~= ids_of(displays@.take(i as int)).push(displays@[i as int].id));
        }
        assert(displays@.take(n as int) =~= displays@);
        let first = displays[0].id;
        let mut s = RecordingStatus::default();
        s.running = true;
        s.session = Some(session);
        s.camera = camera;
        s.display_id = first;
        s.display_ids = ids;
        s.displays = displays;
        s
    }

    /// Why recording cannot start now: it already runs.
    pub fn start_refusal(&self) -> (r: Option<String>)
        ensures
            self.running ==> (r matches Some(m) && m@ == "后台已经在记录，请先停止"@),
            !self.running ==> r is None,
    {
        if self.running {
            Some(String::from_str("后台已经在记录，请先停止"))
        } else {
            None
        }
    }

    /// Forgets everything of a stopped recorder; a running one is left alone and refuses.
    pub fn clear_stopped_state(&mut self) -> (r: Result<(), String>)
        ensures
            old(self).running ==> (r matches Err(m) && m@ == "请先暂停记录，再清空数据"@ && *final(self) == *old(self)),
            !old(self).running ==> r is Ok && initial_status(*final(self)),
    {
        if self.running {
            return Err(String::from_str("请先暂停记录，再清空数据"));
        }
        *self = RecordingStatus::default();
        Ok(())
    }

    /// A failed local check: the error is shown, presence and camera readings are cleared,
    /// and the unavailable decision is shown. Nothing else changes.
    pub fn mark_unavailable(&mut self)
        ensures
            final(self).error matches Some(e) && e@ == unavailable_message(),
            blank_presence(final(self).presence),
            camera_cleared(*final(self)),
            final(self).scheduling matches Some(d) && d@ == decision_of(false, false, "unavailable"@, POLL_SECONDS),
            final(self).running == old(self).running,
            final(self).session == old(self).session,
            final(self).camera == old(self).camera,
            final(self).display_id == old(self).display_id,
            final(self).display_ids == old(self).display_ids,
            final(self).displays == old(self).displays,
            final(self).last_capture == old(self).last_capture,
            final(self).local_checks == old(self).local_checks,
            final(self).screen_captures == old(self).screen_captures,
            final(self).analyses_scheduled == old(self).analyses_scheduled,
    {
        self.error = Some(String::from_str("本地观察暂不可用，未延长任何状态时长；正在重试"));
        self.presence = Presence::default();
        self.camera_active = false;
        self.camera_device = String::new();
        self.presence_regions = Vec::new();
        self.scheduling = Some(unavailable_decision());
    }

    /// A successful local check: counted, its presence and camera shown (the device only
    /// while the camera runs, at most eight regions), the error cleared and the decision shown.
    pub fn note_check(&mut self, o: &Observation, d: &Decision, regions: Vec<PresenceRegion>)
        requires
            old(self).local_checks < u64::MAX,
        ensures
            final(self).local_checks == old(self).local_checks + 1,
            final(self).presence == o.presence,
            final(self).camera_active == o.camera_active,
            final(self).camera_device@ == if o.camera_active { o.camera_device@ } else { Seq::empty() },
            final(self).presence_regions@ == if regions@.len() <= 8 { regions@ } else { regions@.take(8) },
            final(self).error is None,
            final(self).scheduling == Some(*d),
            final(self).running == old(self).running,
            final(self).session == old(self).session,
            final(self).camera == old(self).camera,
            final(self).display_id == old(self).display_id,
            final(self).display_ids == old(self).display_ids,
            final(self).displays == old(self).displays,
            final(self).last_capture == old(self).last_capture,
            final(self).screen_captures == old(self).screen_captures,
            final(self).analyses_scheduled == old(self).analyses_scheduled,
    {
        self.local_checks = self.local_checks + 1;
        self.presence = o.presence.copied();
        self.camera_active = o.camera_active;
        self.camera_device = if o.camera_active { o.camera_device.clone() } else { String::new() };
        let mut regions = regions;
        if regions.len() > 8 {
            regions.truncate(8);
        }
        self.presence_regions = regions;
        self.error = None;
        self.scheduling = Some(d.copied());
    }

    /// A screenshot group was stored at `at`: counted as a capture and as a scheduled
    /// analysis, its time shown, and the error of extending the previous record shown.
    pub fn note_capture(&mut self, at: i64, d: Decision, extension_error: Option<String>)
        requires
            old(self).screen_captures < u64::MAX,
            old(self).analyses_scheduled < u64::MAX,
        ensures
            final(self).error == extension_error,
            final(self).last_capture == Some(at),
            final(self).screen_captures == old(self).screen_captures + 1,
            final(self).analyses_scheduled == old(self).analyses_scheduled + 1,
            final(self).scheduling == Some(d),
            final(self).running == old(self).running,
            final(self).session == old(self).session,
            final(self).presence == old(self).presence,
            final(self).camera_active == old(self).camera_active,
            final(self).camera_device == old(self).camera_device,
            final(self).presence_regions == old(self).presence_regions,
            final(self).local_checks == old(self).local_checks,
    {
        self.error = extension_error;
        self.last_capture = Some(at);
        self.screen_captures = self.screen_captures + 1;
        self.analyses_scheduled = self.analyses_scheduled + 1;
        self.scheduling = Some(d);
    }

    /// Recording stopped at `now`: not running, camera readings cleared, and the session
    /// ended if it was not already.
    pub fn stopped(&mut self, now: i64)
        ensures
            !final(self).running,
            camera_cleared(*final(self)),
            final(self).session == match old(self).session {
                Some(s) => Some(Session { ended_at: if s.ended_at is Some { s.ended_at } else { Some(now) }, ..s }),
                None => None,
            },
            final(self).camera == old(self).camera,
            final(self).display_ids == old(self).display_ids,
            final(self).displays == old(self).displays,
            final(self).last_capture == old(self).last_capture,
            final(self).error == old(self).error,
            final(self).presence == old(self).presence,
            final(self).scheduling == old(self).scheduling,
            final(self).local_checks == old(self).local_checks,
            final(self).screen_captures == old(self).screen_captures,
            final(self).analyses_scheduled == old(self).analyses_scheduled,
    {
        self.running = false;
        self.camera_active = false;
        self.camera_device = String::new();
        self.presence_regions = Vec::new();
        let session = self.session.take();
        self.session = match session {
            Some(s) => {
                let mut s = s;
                if s.ended_at.is_none() {
                    s.ended_at = Some(now);
                }
                Some(s)
            },
            None => None,
        };
    }
}

} // verus!

verus! {

// ---------------------------------------------------------------- one local check

/// A check is usable when it was taken at most 3 s in the future and less than 15 s ago.
pub open spec fn fresh_check(captured_at: i64, now: i64) -> bool {
    captured_at <= now + 3000 && now - captured_at < 15_000
}

/// Whether a check taken at `captured_at` is usable at `now`.
pub fn observation_fresh(captured_at: i64, now: i64) -> (r: bool)
    ensures
        r == fresh_check(captured_at, now),
{
    (captured_at as i128) <= (now as i128) + 3000 && (now as i128) - (captured_at as i128) < 15_000
}

/// `o` is the check recorded in place of a failed one at `now`: nothing but its time.
pub open spec fn failed_check(o: Observation, now: i64) -> bool {
    &&& o.captured_at == now
    &&& o.activity.foreground_display_id is None
    &&& o.activity.app_name@.len() == 0 && o.activity.bundle_id@.len() == 0 && o.activity.window_title@.len() == 0
    &&& o.activity.idle_seconds_bits == 0
    &&& o.activity.switches@.len() == 0
    &&& o.activity.observed_since == 0
    &&& o.activity.history is None
    &&& blank_presence(o.presence)
    &&& o.blocked_reason is None
    &&& !o.camera_active
    &&& o.camera_device@.len() == 0
}

/// The check recorded in place of a failed one: nothing but its time.
pub fn failed_observation(now: i64) -> (o: Observation)
    ensures
        failed_check(o, now),
        o.captured_at == now,
        o.activity.foreground_display_id is None,
        o.activity.app_name@.len() == 0 && o.activity.bundle_id@.len() == 0 && o.activity.window_title@.len() == 0,
        o.activity.idle_seconds_bits == 0,
        o.activity.switches@.len() == 0,
        o.activity.observed_since == 0,
        o.activity.history is None,
        blank_presence(o.presence),
        o.blocked_reason is None,
        !o.camera_active,
        o.camera_device@.len() == 0,
{
    Observation {
        captured_at: now,
        activity: Activity::default(),
        presence: Presence::default(),
        blocked_reason: None,
        camera_active: false,
        camera_device: String::new(),
    }
}

/// `r` is `d` after `gate_analysis` with these settings and slot.
pub open spec fn gated(d: Decision, settings: Settings, slot_free: bool, r: Decision) -> bool {
    &&& d.analyze && settings.api_key@.len() == 0 ==> r@ == decision_of(false, d.away, "model_unavailable"@, d.next_check_seconds)
    &&& d.analyze && settings.api_key@.len() > 0 && !slot_free ==> r@ == decision_of(false, d.away, "model_busy"@, d.next_check_seconds)
    &&& !(d.analyze && (settings.api_key@.len() == 0 || !slot_free)) ==> r == d
}

/// An analysis that is due is held back when the model cannot be used (no key) or when the
/// one analysis slot is taken; the reason says which. Other decisions pass unchanged.
pub fn gate_analysis(d: Decision, settings: &Settings, slot_free: bool) -> (r: Decision)
    ensures
        gated(d, *settings, slot_free, r),
        d.analyze && settings.api_key@.len() == 0 ==> r@ == decision_of(false, d.away, "model_unavailable"@, d.next_check_seconds),
        d.analyze && settings.api_key@.len() > 0 && !slot_free ==> r@ == decision_of(false, d.away, "model_busy"@, d.next_check_seconds),
        !(d.analyze && (settings.api_key@.len() == 0 || !slot_free)) ==> r == d,
{
    let mut d = d;
    if d.analyze {
        if backend_access_error(settings).is_some() {
            d.analyze = false;
            d.reason = String::from_str("model_unavailable");
        } else if !slot_free {
            d.analyze = false;
            d.reason = String::from_str("model_busy");
        }
    }
    d
}

/// The context tracker follows the check: a blocked or away check forgets the context,
/// any other check is recorded.
pub fn follow_check(tracker: &mut ActivityTracker, o: &Observation, d: &Decision, excluded: &Vec<String>)
    requires
        time_ok(o.captured_at),
    ensures
        final(tracker)@ == if o.blocked_reason is Some || d.away {
            empty_tracker()
        } else {
            observe_step(old(tracker)@, o.captured_at, o.activity, excluded@)
        },
{
    if o.blocked_reason.is_some() || d.away {
        tracker.clear();
    } else {
        tracker.observe(o.captured_at, &o.activity, excluded);
    }
}

/// The activity of a screenshot: the helper's fresh reading when it sent one, with the
/// check's switches placed before its own and the check's start kept; else the check's.
pub fn reply_activity(observed: Activity, reply: Option<Activity>) -> (r: Activity)
    ensures
        match reply {
            None => r == observed,
            Some(a) => {
                &&& r.foreground_display_id == a.foreground_display_id
                &&& r.app_name == a.app_name
                &&& r.bundle_id == a.bundle_id
                &&& r.window_title == a.window_title
                &&& r.idle_seconds_bits == a.idle_seconds_bits
                &&& r.switches@ == observed.switches@ + a.switches@
                &&& r.observed_since == observed.observed_since
                &&& r.history == a.history
            },
        },
{
    match reply {
        None => observed,
        Some(a) => {
            let mut a = a;
            let mut switches = observed.switches;
            let ghost first = switches@;
            let ghost second = a.switches@;
            switches.append(&mut a.switches);
            assert(switches@ =~= first + second);
            a.switches = switches;
            a.observed_since = observed.observed_since;
            a
        },
    }
}

/// Records the screenshot's reading in the tracker, then replaces the activity's switches
/// and start by the tracked interval, and attaches its history.
pub fn with_history(activity: Activity, at: i64, tracker: &mut ActivityTracker, excluded: &Vec<String>) -> (r: Activity)
    requires
        time_ok(at),
    ensures
        final(tracker)@ == observe_step(old(tracker)@, at, activity, excluded@),
        r.foreground_display_id == activity.foreground_display_id,
        r.app_name == activity.app_name,
        r.bundle_id == activity.bundle_id,
        r.window_title == activity.window_title,
        r.idle_seconds_bits == activity.idle_seconds_bits,
        r.history is None <==> final(tracker)@.points.len() == 0,
        r.history matches Some(h) ==> history_matches(h, final(tracker)@) && r.switches@ == h.switches@
            && r.observed_since == h.start,
        r.history is None ==> r.switches@.len() == 0 && r.observed_since == at,
{
    tracker.observe(at, &activity, excluded);
    let mut activity = activity;
    let history = tracker.history();
    match &history {
        Some(h) => {
            activity.switches = copy_switches(&h.switches);
            activity.observed_since = h.start;
        },
        None => {
            activity.switches = Vec::new();
            activity.observed_since = at;
        },
    }
    activity.history = history;
    activity
}

/// The upload made of a screenshot reply: its displays, activity and warning, under a new id,
/// with the check's presence as evidence for the model, triggered by the decision's reason.
/// A reply without a legacy picture or source gets an empty picture and "本机屏幕".
pub fn capture_frame(
    screens: Vec<ScreenInput>,
    activity: Activity,
    d: &Decision,
    presence: Presence,
    capture_warning: Option<String>,
    id: String,
    session_id: String,
    at: i64,
    screen: Option<String>,
    capture_source: Option<String>,
) -> (r: CaptureInput)
    ensures
        r.screens == screens,
        r.evidence matches Some(e) && e.basis@ == "ai"@ && e.trigger@ == d.reason@ && e.presence == presence && !e.away
            && e.valid_until == at,
        r.activity == activity,
        r.capture_warning == capture_warning,
        r.id == id,
        r.session_id == session_id,
        r.captured_at == at,
        r.screen@ == match screen { Some(s) => s@, None => Seq::empty() },
        r.camera is None,
        r.capture_source@ == match capture_source { Some(s) => s@, None => "本机屏幕"@ },
{
    CaptureInput {
        screens,
        evidence: Some(CaptureEvidence {
            basis: String::from_str("ai"),
            trigger: d.reason.clone(),
            presence,
            away: false,
            valid_until: at,
        }),
        activity,
        capture_warning,
        id,
        session_id,
        captured_at: at,
        screen: match screen {
            Some(s) => s,
            None => String::new(),
        },
        camera: None,
        capture_source: match capture_source {
            Some(s) => s,
            None => String::from_str("本机屏幕"),
        },
    }
}

// ---------------------------------------------------------------- records of local checks

/// The previous record's evidence ends at most ten seconds before `at`: a later check may
/// extend it to `at`.
pub open spec fn extends_to(previous: Option<Sample>, at: i64) -> bool {
    previous matches Some(p) && p.evidence matches Some(e) && 0 <= at - e.valid_until <= OBSERVATION_GAP_MS
}

/// Whether the previous record may be extended to `at`.
pub fn extends_observation(previous: &Option<Sample>, at: i64) -> (r: bool)
    ensures
        r == extends_to(*previous, at),
{
    match previous {
        Some(p) => match &p.evidence {
            Some(e) => {
                let gap = (at as i128) - (e.valid_until as i128);
                0 <= gap && gap <= OBSERVATION_GAP_MS as i128
            },
            None => false,
        },
        None => false,
    }
}

/// The check continues the previous local record: same decision, same presence, contiguous,
/// same app and window, and within a minute of the record's start.
pub open spec fn continues_local(previous: Option<Sample>, o: Observation, d: Decision) -> bool {
    previous matches Some(s) && {
        &&& s.state@ == "local"@
        &&& s.evidence matches Some(e) && e.away == d.away && e.trigger@ == d.reason@
            && e.presence.state == o.presence.state && 0 <= o.captured_at - e.valid_until <= OBSERVATION_GAP_MS
        &&& s.activity.bundle_id@ == o.activity.bundle_id@
        &&& s.activity.window_title@ == o.activity.window_title@
        &&& o.captured_at - s.captured_at < 60_000
    }
}

/// Whether the check `o` with decision `d` continues the previous local record.
pub fn same_local_run(previous: &Option<Sample>, o: &Observation, d: &Decision) -> (r: bool)
    ensures
        r == continues_local(*previous, *o, *d),
{
    match previous {
        None => false,
        Some(s) => {
            if !str_eq(s.state.as_str(), "local") {
                return false;
            }
            let evidence_ok = match &s.evidence {
                Some(e) => {
                    let gap = (o.captured_at as i128) - (e.valid_until as i128);
                    e.away == d.away && str_eq(e.trigger.as_str(), d.reason.as_str())
                        && e.presence.state == o.presence.state && 0 <= gap && gap <= OBSERVATION_GAP_MS as i128
                },
                None => false,
            };
            evidence_ok && str_eq(s.activity.bundle_id.as_str(), o.activity.bundle_id.as_str())
                && str_eq(s.activity.window_title.as_str(), o.activity.window_title.as_str())
                && (o.captured_at as i128) - (s.captured_at as i128) < 60_000
        },
    }
}

/// `r` is the local record `sample` continued by the check `o` (see `continue_local`).
pub open spec fn continued_record(r: Sample, sample: Sample, o: Observation) -> bool {
    &&& r.activity.switches@ == sample.activity.switches@ + o.activity.switches@
    &&& r.activity.idle_seconds_bits == o.activity.idle_seconds_bits
    &&& r.evidence == match sample.evidence {
        Some(e) => Some(CaptureEvidence { valid_until: o.captured_at, presence: o.presence, ..e }),
        None => None,
    }
    &&& r == (Sample { activity: r.activity, evidence: r.evidence, ..sample })
    &&& r.activity == (Activity { switches: r.activity.switches, idle_seconds_bits: r.activity.idle_seconds_bits, ..sample.activity })
}

/// The previous local record continued by check `o`: its switches extended by the check's,
/// its idle reading replaced, and its evidence valid until the check with the check's presence.
pub fn continue_local(sample: Sample, o: Observation) -> (r: Sample)
    ensures
        continued_record(r, sample, o),
        r.activity.switches@ == sample.activity.switches@ + o.activity.switches@,
        r.activity.idle_seconds_bits == o.activity.idle_seconds_bits,
        r.evidence == match sample.evidence {
            Some(e) => Some(CaptureEvidence { valid_until: o.captured_at, presence: o.presence, ..e }),
            None => None,
        },
        r == (Sample { activity: r.activity, evidence: r.evidence, ..sample }),
        r.activity == (Activity { switches: r.activity.switches, idle_seconds_bits: r.activity.idle_seconds_bits, ..sample.activity }),
{
    let mut sample = sample;
    let mut o = o;
    let ghost first = sample.activity.switches@;
    let ghost second = o.activity.switches@;
    sample.activity.switches.append(&mut o.activity.switches);
    assert(sample.activity.switches@ =~= first + second);
    sample.activity.idle_seconds_bits = o.activity.idle_seconds_bits;
    sample.evidence = match sample.evidence {
        Some(e) => {
            let mut e = e;
            e.valid_until = o.captured_at;
            e.presence = o.presence;
            Some(e)
        },
        None => None,
    };
    sample
}

fn later(a: i64, b: i64) -> (r: i64)
    ensures
        r == if a >= b { a } else { b },
{
    if a >= b { a } else { b }
}

/// `r` is the new local record of check `o` with decision `d` in `session` under `id` (see
/// `start_local`).
pub open spec fn local_record(r: Sample, o: Observation, d: DecisionModel, session: Session, id: Seq<char>) -> bool {
    &&& r.screens@.len() == 0
    &&& r.evidence matches Some(e) && e.basis@ == "local"@ && e.trigger@ == d.reason && e.presence == o.presence
        && e.away == d.away && e.valid_until == o.captured_at
    &&& r.activity == o.activity
    &&& r.capture_warning is None
    &&& r.id@ == id
    &&& r.session_id@ == session.id@
    &&& r.captured_at == if o.captured_at >= session.started_at { o.captured_at } else { session.started_at }
    &&& r.interval_seconds == POLL_SECONDS
    &&& r.mode@ == "live"@
    &&& r.task@ == session.task@
    &&& r.screen is None
    &&& r.camera is None
    &&& r.capture_source@ == "本地观察 · 无图片上传"@
    &&& r.state@ == "local"@
    &&& r.analysis is None
    &&& r.error is None
    &&& r.correction is None
    &&& r.correction_note@.len() == 0
}

/// A new local record for check `o` in `session`: no pictures, evidence marked local with the
/// decision's reason and away flag, valid until the check, and nothing for the model.
pub fn start_local(o: Observation, d: &Decision, session: &Session, id: String) -> (r: Sample)
    ensures
        local_record(r, o, d@, *session, id@),
        r.screens@.len() == 0,
        r.evidence matches Some(e) && e.basis@ == "local"@ && e.trigger@ == d.reason@ && e.presence == o.presence
            && e.away == d.away && e.valid_until == o.captured_at,
        r.activity == o.activity,
        r.capture_warning is None,
        r.id == id,
        r.session_id@ == session.id@,
        r.captured_at == if o.captured_at >= session.started_at { o.captured_at } else { session.started_at },
        r.interval_seconds == POLL_SECONDS,
        r.mode@ == "live"@,
        r.task@ == session.task@,
        r.screen is None,
        r.camera is None,
        r.capture_source@ == "本地观察 · 无图片上传"@,
        r.state@ == "local"@,
        r.analysis is None,
        r.error is None,
        r.correction is None,
        r.correction_note@.len() == 0,
{
    let at = o.captured_at;
    Sample {
        screens: Vec::new(),
        evidence: Some(CaptureEvidence {
            basis: String::from_str("local"),
            trigger: d.reason.clone(),
            presence: o.presence,
            away: d.away,
            valid_until: at,
        }),
        activity: o.activity,
        capture_warning: None,
        id,
        session_id: session.id.clone(),
        captured_at: later(at, session.started_at),
        interval_seconds: POLL_SECONDS,
        mode: String::from_str("live"),
        task: session.task.clone(),
        screen: None,
        camera: None,
        capture_source: String::from_str("本地观察 · 无图片上传"),
        state: String::from_str("local"),
        analysis: None,
        error: None,
        correction: None,
        correction_note: String::new(),
    }
}


// ---------------------------------------------------------------- the sampling loop

/// What the sampling loop carries from one check to the next: the scheduler, the activity
/// context, and the record that the last check left behind (which a later check may extend or
/// continue).
pub struct SamplingLoop {
    pub policy: Policy,
    pub tracker: ActivityTracker,
    pub previous: Option<Sample>,
}

/// What to store for a check that gets no screenshot.
pub enum LocalWrite {
    /// The previous record, continued by the check.
    Continue(Sample),
    /// A new record; first extend the previous record to the check's time when `extend` says so.
    Fresh { record: Sample, extend: bool },
}

/// The memory a fresh scheduler starts with.
pub open spec fn fresh_policy() -> PolicyModel {
    PolicyModel { last_poll: None, last_attempt: None, missing_since: None }
}

impl SamplingLoop {
    /// A loop before its first check: a fresh scheduler, no context, no record.
    pub fn new() -> (r: Self)
        ensures
            r.policy@ == fresh_policy(),
            r.tracker@ == empty_tracker(),
            r.previous is None,
    {
        SamplingLoop { policy: Policy::default(), tracker: ActivityTracker::new(), previous: None }
    }

    /// A check that failed or came too late: the context and the previous record are
    /// forgotten, so that a quick recovery cannot revive a judgment from before the failure;
    /// the result is the zero-length fault record to store under `id`, marked unavailable.
    pub fn check_failed(&mut self, session: &Session, now: i64, id: String) -> (fault: Sample)
        ensures
            final(self).policy@ == old(self).policy@,
            final(self).tracker@ == empty_tracker(),
            final(self).previous is None,
            exists|o: Observation| failed_check(o, now)
                && #[trigger] local_record(fault, o, decision_of(false, false, "unavailable"@, POLL_SECONDS), *session, id@),
    {
        self.previous = None;
        self.tracker.clear();
        let o = failed_observation(now);
        let d = unavailable_decision();
        let fault = start_local(o, &d, session, id);
        assert(local_record(fault, o, decision_of(false, false, "unavailable"@, POLL_SECONDS), *session, id@));
        fault
    }

    /// A usable check: the scheduler decides, the context follows the check, and a due analysis
    /// is held back when the model cannot be used or the slot is taken. Returns the scheduler's
    /// decision (which the status shows) and the decision to act on.
    pub fn check(&mut self, o: &Observation, excluded: &Vec<String>, settings: &Settings, slot_free: bool)
        -> (r: (Decision, Decision))
        requires
            time_ok(o.captured_at),
        ensures
            (final(self).policy@, r.0@) == decide_step(old(self).policy@, *o),
            final(self).tracker@ == if o.blocked_reason is Some || r.0.away {
                empty_tracker()
            } else {
                observe_step(old(self).tracker@, o.captured_at, o.activity, excluded@)
            },
            gated(r.0, *settings, slot_free, r.1),
            final(self).previous == old(self).previous,
    {
        let d = self.policy.decide(o);
        follow_check(&mut self.tracker, o, &d, excluded);
        let acted = gate_analysis(d.copied(), settings, slot_free);
        (d, acted)
    }

    /// A screenshot was stored as `sample`: the context starts afresh at it (when its time is
    /// in range) and it becomes the previous record. Returns the former previous record when
    /// it is to be extended to the screenshot's time.
    pub fn captured(&mut self, sample: Sample, excluded: &Vec<String>) -> (extend: Option<Sample>)
        ensures
            final(self).policy@ == old(self).policy@,
            final(self).tracker@ == if time_ok(sample.captured_at) {
                observe_step(empty_tracker(), sample.captured_at, sample.activity, excluded@)
            } else {
                old(self).tracker@
            },
            final(self).previous == Some(sample),
            extend == if extends_to(old(self).previous, sample.captured_at) { old(self).previous } else { None },
    {
        if -TIME_LIMIT <= sample.captured_at && sample.captured_at <= TIME_LIMIT {
            self.tracker.begin_after_capture(sample.captured_at, &sample.activity, excluded);
        }
        let extend = extends_observation(&self.previous, sample.captured_at);
        let former = self.previous.take();
        self.previous = Some(sample);
        if extend { former } else { None }
    }

    /// What to store for check `o` with decision `d` when no screenshot was taken: the previous
    /// record continued (and taken out of the loop until it is stored again) when the check
    /// continues it, else a new record under `id`, after extending the previous one when it
    /// ends within the gap.
    pub fn local_write(&mut self, o: Observation, d: &Decision, session: &Session, id: String) -> (w: LocalWrite)
        ensures
            final(self).policy@ == old(self).policy@,
            final(self).tracker@ == old(self).tracker@,
            continues_local(old(self).previous, o, *d) ==> (w matches LocalWrite::Continue(r)
                && continued_record(r, old(self).previous->0, o) && final(self).previous is None),
            !continues_local(old(self).previous, o, *d) ==> (w matches LocalWrite::Fresh { record, extend }
                && local_record(record, o, d@, *session, id@) && extend == extends_to(old(self).previous, o.captured_at)
                && final(self).previous == old(self).previous),
    {
        if same_local_run(&self.previous, &o, d) {
            let prev = self.previous.take();
            match prev {
                Some(p) => LocalWrite::Continue(continue_local(p, o)),
                None => {
                    assert(false);
                    LocalWrite::Fresh { record: start_local(o, d, session, id), extend: false }
                },
            }
        } else {
            let extend = extends_observation(&self.previous, o.captured_at);
            LocalWrite::Fresh { record: start_local(o, d, session, id), extend }
        }
    }

    /// The record `record` of the last check was stored: it is now the previous record.
    pub fn stored(&mut self, record: Sample)
        ensures
            final(self).policy@ == old(self).policy@,
            final(self).tracker@ == old(self).tracker@,
            final(self).previous == Some(record),
    {
        self.previous = Some(record);
    }
}

/// A decision whose screenshot failed: the same decision, under the reason `capture_failed`.
pub fn capture_failed(d: Decision) -> (r: Decision)
    ensures
        r@ == decision_of(d.analyze, d.away, "capture_failed"@, d.next_check_seconds),
{
    let mut d = d;
    d.reason = String::from_str("capture_failed");
    d
}

} // verus!
