//! The service's decisions: sessions, the analysis queue, daily reports, the scheduler,
//! the camera preview, which requests are let in, and corrections. The HTTP handlers, the
//! store and the model calls run outside the library and act on what these functions return.
use vstd::prelude::*;
use crate::models::{
    is_local, screen_files_of, Analysis, Category, Report, Sample, Session, Settings,
};
use crate::policy::{time_ok, ANALYSIS_INTERVAL_SECONDS};
use crate::recorder::RecordingStatus;
use crate::summary::{Day, StateCount};
use crate::capture::opt_view;
use crate::ai::{origins_match, same_origin, settings_error, validate_settings};
use crate::text::{blank, decimal, decimal_string, is_blank, str_eq, trim_text, trimmed};

verus! {

broadcast use vstd::string::group_string_axioms;

// ---------------------------------------------------------------- sessions

/// Some session has not ended.
pub open spec fn has_open_session(sessions: Seq<Session>) -> bool {
    exists|i: int| 0 <= i < sessions.len() && (#[trigger] sessions[i]).ended_at is None
}

pub open spec fn open_session_message() -> Seq<char> {
    "已有记录会话，请先停止或结束遗留会话"@
}

/// A new live session with id `id` for `task`, started at `now`, analysed once a minute;
/// refused while another session is still open.
pub fn open_session(sessions: &Vec<Session>, task: String, id: String, now: i64) -> (r: Result<Session, String>)
    ensures
        has_open_session(sessions@) ==> (r matches Err(e) && e@ == open_session_message()),
        !has_open_session(sessions@) ==> (r matches Ok(s) && s.id == id && s.started_at == now && s.ended_at is None
            && s.interval_seconds == ANALYSIS_INTERVAL_SECONDS && s.task == task && s.mode@ == "live"@),
{
    let n = sessions.len();
    for i in 0..n
        invariant
            n == sessions@.len(),
            forall|j: int| 0 <= j < i ==> (#[trigger] sessions@[j]).ended_at is Some,
    {
        if sessions[i].ended_at.is_none() {
            return Err(String::from_str("已有记录会话，请先停止或结束遗留会话"));
        }
    }
    Ok(Session {
        id,
        started_at: now,
        ended_at: None,
        interval_seconds: ANALYSIS_INTERVAL_SECONDS,
        task,
        mode: String::from_str("live"),
    })
}

/// The session ended at `now`, unless it had already ended.
pub fn close_session(s: Session, now: i64) -> (r: Session)
    ensures
        r == (Session { ended_at: if s.ended_at is Some { s.ended_at } else { Some(now) }, ..s }),
{
    let mut s = s;
    if s.ended_at.is_none() {
        s.ended_at = Some(now);
    }
    s
}

// ---------------------------------------------------------------- analysis queue

/// Waiting for the model or being analysed.
pub open spec fn is_outstanding(s: Sample) -> bool {
    s.state@ == "queued"@ || s.state@ == "analyzing"@
}

/// How many records wait for the model or are being analysed.
pub open spec fn outstanding_count(samples: Seq<Sample>) -> nat
    decreases samples.len(),
{
    if samples.len() == 0 {
        0
    } else {
        outstanding_count(samples.drop_last()) + if is_outstanding(samples.last()) { 1nat } else { 0nat }
    }
}

fn outstanding(s: &Sample) -> (r: bool)
    ensures
        r == is_outstanding(*s),
{
    str_eq(s.state.as_str(), "queued") || str_eq(s.state.as_str(), "analyzing")
}

/// Counts the records that wait for the model or are being analysed.
pub fn count_outstanding(samples: &Vec<Sample>) -> (r: usize)
    ensures
        r == outstanding_count(samples@),
{
    let mut r: usize = 0;
    let n = samples.len();
    for i in 0..n
        invariant
            n == samples@.len(),
            r == outstanding_count(samples@.take(i as int)),
            r <= i,
    {
        assert(samples@.take(i + 1).drop_last() =~= samples@.take(i as int));
        if outstanding(&samples[i]) {
            r = r + 1;
        }
    }
    assert(samples@.take(n as int) =~= samples@);
    r
}

/// What to do with a request to analyse a record.
#[derive(Clone, Debug)]
pub enum QueueStep {
    /// The record has nothing for the model.
    Refuse(String),
    /// Nothing now: no model key, or eight analyses already wait.
    Leave,
    /// Claim the record for the queue.
    Claim,
}

pub open spec fn local_only_message() -> Seq<char> {
    "这段只有本地观察，没有可交给 AI 的屏幕画面"@
}

/// A record goes to the model only with a picture and not as a local check; it waits when
/// there is no key or when eight records are already outstanding.
pub fn queue_step(candidate: &Sample, settings: &Settings, outstanding: usize) -> (r: QueueStep)
    ensures
        (screen_files_of(*candidate).len() == 0 || is_local(*candidate)) ==> (r matches QueueStep::Refuse(m) && m@ == local_only_message()),
        !(screen_files_of(*candidate).len() == 0 || is_local(*candidate)) && (settings.api_key@.len() == 0 || outstanding >= 8)
            ==> r is Leave,
        !(screen_files_of(*candidate).len() == 0 || is_local(*candidate)) && !(settings.api_key@.len() == 0 || outstanding >= 8)
            ==> r is Claim,
{
    let files = candidate.screen_files();
    assert(files@.len() == screen_files_of(*candidate).len());
    if files.len() == 0 || candidate.is_local() {
        return QueueStep::Refuse(String::from_str("这段只有本地观察，没有可交给 AI 的屏幕画面"));
    }
    if settings.api_key.as_str().is_empty() || outstanding >= 8 {
        return QueueStep::Leave;
    }
    QueueStep::Claim
}

/// Queues a live record that is not already outstanding: state `queued`, error cleared.
/// Returns whether it was claimed; otherwise nothing changes.
pub fn claim_analysis(s: &mut Sample) -> (claimed: bool)
    ensures
        claimed == (!is_outstanding(*old(s)) && old(s).mode@ == "live"@),
        claimed ==> final(s).state@ == "queued"@ && final(s).error is None
            && *final(s) == (Sample { state: final(s).state, error: None, ..*old(s) }),
        !claimed ==> *final(s) == *old(s),
{
    if !outstanding(s) && str_eq(s.mode.as_str(), "live") {
        s.state = String::from_str("queued");
        s.error = None;
        return true;
    }
    false
}

/// A reason of the recorder's decision that pauses queued analyses.
pub open spec fn queue_pause_reason(t: Seq<char>) -> bool {
    t == "locked"@ || t == "excluded"@ || t == "screen_permission"@
}

pub open spec fn paused_by(status: RecordingStatus) -> bool {
    &&& status.running
    &&& status.scheduling matches Some(d) && (d.away || queue_pause_reason(d.reason@))
}

/// While the recorder runs and its last decision is away, locked, excluded or without
/// screen permission, queued analyses are not sent.
pub fn analysis_paused(status: &RecordingStatus) -> (r: bool)
    ensures
        r == paused_by(*status),
{
    if !status.running {
        return false;
    }
    match &status.scheduling {
        Some(d) => d.away || str_eq(d.reason.as_str(), "locked") || str_eq(d.reason.as_str(), "excluded")
            || str_eq(d.reason.as_str(), "screen_permission"),
        None => false,
    }
}

/// A queued analysis that was not sent: `skipped`, with a note that it can be retried.
pub fn mark_skipped(s: &mut Sample)
    ensures
        final(s).state@ == "skipped"@,
        final(s).error matches Some(e) && e@ == "离席或暂停期间未发送排队的分析；可手动重试"@,
        *final(s) == (Sample { state: final(s).state, error: final(s).error, ..*old(s) }),
{
    s.state = String::from_str("skipped");
    s.error = Some(String::from_str("离席或暂停期间未发送排队的分析；可手动重试"));
}

/// The analysis is sent: `analyzing`.
pub fn mark_analyzing(s: &mut Sample)
    ensures
        final(s).state@ == "analyzing"@,
        *final(s) == (Sample { state: final(s).state, ..*old(s) }),
{
    s.state = String::from_str("analyzing");
}

/// The model's answer: `done` with the analysis and no error, or `error` with its message.
pub fn record_analysis(s: &mut Sample, result: Result<Analysis, String>)
    ensures
        match result {
            Ok(a) => final(s).state@ == "done"@ && *final(s) == (Sample { state: final(s).state, analysis: Some(a), error: None, ..*old(s) }),
            Err(e) => final(s).state@ == "error"@ && *final(s) == (Sample { state: final(s).state, error: Some(e), ..*old(s) }),
        },
{
    match result {
        Ok(a) => {
            s.analysis = Some(a);
            s.error = None;
            s.state = String::from_str("done");
        },
        Err(e) => {
            s.state = String::from_str("error");
            s.error = Some(e);
        },
    }
}

} // verus!

verus! {

// ---------------------------------------------------------------- daily reports

/// Why a report cannot be asked for: only live data, and only with a model key.
pub fn report_refusal(mode: &str, settings: &Settings) -> (r: Option<String>)
    ensures
        mode@ != "live"@ ==> (r matches Some(m) && m@ == "无效的数据类型"@),
        mode@ == "live"@ && settings.api_key@.len() == 0 ==> (r matches Some(m) && m@ == crate::ai::missing_key_message()),
        mode@ == "live"@ && settings.api_key@.len() > 0 ==> r is None,
{
    if !str_eq(mode, "live") {
        return Some(String::from_str("无效的数据类型"));
    }
    crate::ai::backend_access_error(settings)
}

/// Some record of the day still waits for, or is in, analysis.
pub open spec fn analysis_pending(counts: Seq<StateCount>) -> bool {
    exists|i: int| 0 <= i < counts.len() && #[trigger] counts[i].count > 0
        && (counts[i].state@ == "pending"@ || counts[i].state@ == "queued"@ || counts[i].state@ == "analyzing"@)
}

/// A report is being written.
pub open spec fn report_running(current: Option<Report>) -> bool {
    current matches Some(c) && c.state@ == "generating"@
}

/// A report request: one is already being written, or a new one begins.
#[derive(Clone, Debug)]
pub enum ReportStart {
    Running,
    Begin(Report),
}

/// A report begins for a day with segments whose records are all analysed, unless one is
/// already being written. The new report is `generating`, empty, stamped `now`, and carries
/// the day's fingerprint.
pub fn begin_report(date: &str, mode: &str, day: &Day, current: &Option<Report>, fingerprint: String, now: i64)
    -> (r: Result<ReportStart, String>)
    ensures
        day.segments@.len() == 0 ==> (r matches Err(m) && m@ == "当天还没有采样记录"@),
        day.segments@.len() > 0 && report_running(*current) ==> r matches Ok(ReportStart::Running),
        day.segments@.len() > 0 && !report_running(*current) && analysis_pending(day.counts@)
            ==> (r matches Err(m) && m@ == "还有片段未完成分析，请先完成或重试分析"@),
        day.segments@.len() > 0 && !report_running(*current) && !analysis_pending(day.counts@)
            ==> (r matches Ok(ReportStart::Begin(rep)) && rep.date@ == date@ && rep.mode@ == mode@ && rep.state@ == "generating"@
                && rep.headline@.len() == 0 && rep.observations@.len() == 0 && rep.suggestions@.len() == 0
                && rep.generated_at == now && rep.fingerprint == fingerprint && rep.error is None),
{
    if day.segments.len() == 0 {
        return Err(String::from_str("当天还没有采样记录"));
    }
    match current {
        Some(c) => {
            if str_eq(c.state.as_str(), "generating") {
                return Ok(ReportStart::Running);
            }
        },
        None => {},
    }
    let n = day.counts.len();
    for i in 0..n
        invariant
            n == day.counts@.len(),
            day.segments@.len() > 0,
            !report_running(*current),
            forall|j: int| 0 <= j < i ==> !(#[trigger] day.counts@[j].count > 0 && (day.counts@[j].state@ == "pending"@
                || day.counts@[j].state@ == "queued"@ || day.counts@[j].state@ == "analyzing"@)),
    {
        let c = &day.counts[i];
        if c.count > 0 && (str_eq(c.state.as_str(), "pending") || str_eq(c.state.as_str(), "queued")
            || str_eq(c.state.as_str(), "analyzing")) {
            assert(day.counts@[i as int].count > 0);
            return Err(String::from_str("还有片段未完成分析，请先完成或重试分析"));
        }
    }
    Ok(ReportStart::Begin(Report {
        date: String::from_str(date),
        mode: String::from_str(mode),
        state: String::from_str("generating"),
        headline: String::new(),
        observations: Vec::new(),
        suggestions: Vec::new(),
        generated_at: now,
        fingerprint,
        error: None,
    }))
}

/// The key a report is stored under: `mode:date`.
pub fn report_key(mode: &str, date: &str) -> (r: String)
    ensures
        r@ == mode@ + ":"@ + date@,
{
    let mut k = String::from_str(mode);
    k.append(":");
    k.append(date);
    proof {
        reveal_strlit(":");
    }
    k
}

/// The model's report as read from its JSON: the headline if it is a string, and for the
/// observations and suggestions each item if it is a string, if they are a list.
#[derive(Clone, Debug)]
pub struct ReportReply {
    pub headline: Option<String>,
    pub observations: Option<Vec<Option<String>>>,
    pub suggestions: Option<Vec<Option<String>>>,
}

/// At most the first three items.
pub open spec fn first_three(v: Seq<Option<String>>) -> Seq<Option<String>> {
    if v.len() <= 3 { v } else { v.take(3) }
}

/// A text of at most 500 characters.
pub open spec fn short_text(o: Option<String>) -> bool {
    o matches Some(t) && t@.len() <= 500
}

/// The first three items, each a text of at most 500 characters; otherwise nothing.
pub open spec fn report_texts(items: Option<Seq<Option<String>>>) -> Option<Seq<Seq<char>>> {
    match items {
        None => None,
        Some(v) => if forall|i: int| 0 <= i < first_three(v).len() ==> short_text(#[trigger] first_three(v)[i]) {
            Some(first_three(v).map_values(|o: Option<String>| match o { Some(t) => t@, None => Seq::empty() }))
        } else {
            None
        },
    }
}

pub open spec fn opt_items(items: Option<Vec<Option<String>>>) -> Option<Seq<Option<String>>> {
    match items {
        Some(v) => Some(v@),
        None => None,
    }
}

fn texts_of(items: Option<Vec<Option<String>>>) -> (r: Option<Vec<String>>)
    ensures
        match r {
            Some(v) => report_texts(opt_items(items)) == Some(v@.map_values(|t: String| t@)),
            None => report_texts(opt_items(items)) is None,
        },
{
    match items {
        None => None,
        Some(v) => {
            let ghost all = v@;
            let n = if v.len() <= 3 { v.len() } else { 3 };
            let ghost first = first_three(all);
            assert(first.len() == n);
            assert(opt_items(items) == Some(all));
            let mut out: Vec<String> = Vec::new();
            for i in 0..n
                invariant
                    opt_items(items) == Some(all),
                    first == first_three(all),
                    n == first.len(),
                    first.len() <= all.len(),
                    all == v@,
                    forall|j: int| 0 <= j < first.len() ==> first[j] == all[j],
                    forall|j: int| 0 <= j < i ==> short_text(#[trigger] first[j]),
                    out@.map_values(|t: String| t@) =~= first.take(i as int).map_values(|o: Option<String>| match o { Some(t) => t@, None => Seq::empty() }),
            {
                match &v[i] {
                    Some(t) => {
                        if t.unicode_len() > 500 {
                            assert(!short_text(first[i as int]));
                            return None;
                        }
                        let ghost prev = out@;
                        out.push(t.clone());
                        assert(first.take(i + 1) =~= first.take(i as int).push(first[i as int]));
                        assert(first[i as int] == all[i as int]);
                        assert(out@.map_values(|t: String| t@) =~= prev.map_values(|t: String| t@).push(t@));
                        assert(first.take(i + 1).map_values(|o: Option<String>| match o { Some(t) => t@, None => Seq::empty() })
                            =~= first.take(i as int).map_values(|o: Option<String>| match o { Some(t) => t@, None => Seq::empty() }).push(t@));
                    },
                    None => {
                        assert(!short_text(first[i as int]));
                        return None;
                    },
                }
            }
            assert(first.take(n as int) =~= first);
            Some(out)
        },
    }
}

/// The report after the model answered: with a headline of at most 300 characters and valid
/// observations and suggestions it is `done`; otherwise, or when the call failed, `error`
/// with the reason. Either way it is stamped `now`.
pub fn finish_report(r: Report, reply: Result<ReportReply, String>, now: i64) -> (out: Report)
    ensures
        out.generated_at == now,
        match reply {
            Err(e) => out == (Report { state: out.state, error: Some(e), generated_at: now, ..r }) && out.state@ == "error"@,
            Ok(p) => {
                let ok = (p.headline matches Some(h) && h@.len() <= 300)
                    && report_texts(opt_items(p.observations)) is Some && report_texts(opt_items(p.suggestions)) is Some;
                &&& ok ==> out.state@ == "done"@ && out.headline@ == p.headline->0@
                    && Some(out.observations@.map_values(|t: String| t@)) == report_texts(opt_items(p.observations))
                    && Some(out.suggestions@.map_values(|t: String| t@)) == report_texts(opt_items(p.suggestions))
                    && out.error == r.error && out.date == r.date && out.mode == r.mode && out.fingerprint == r.fingerprint
                &&& !ok ==> out.state@ == "error"@ && (out.error matches Some(m) && m@ == "AI 日报格式无效，请重试"@)
                    && out == (Report { state: out.state, error: out.error, generated_at: now, ..r })
            },
        },
{
    let mut r = r;
    match reply {
        Err(e) => {
            r.state = String::from_str("error");
            r.error = Some(e);
        },
        Ok(p) => {
            let headline = match p.headline {
                Some(h) => if h.unicode_len() <= 300 { Some(h) } else { None },
                None => None,
            };
            let observations = texts_of(p.observations);
            let suggestions = texts_of(p.suggestions);
            match (headline, observations, suggestions) {
                (Some(h), Some(o), Some(s)) => {
                    r.headline = h;
                    r.observations = o;
                    r.suggestions = s;
                    r.state = String::from_str("done");
                },
                _ => {
                    r.state = String::from_str("error");
                    r.error = Some(String::from_str("AI 日报格式无效，请重试"));
                },
            }
        },
    }
    r.generated_at = now;
    r
}

// ---------------------------------------------------------------- scheduler

/// Up to eight live records that wait for analysis, in order, while the model can be used.
pub fn pending_for_queue(samples: &Vec<Sample>, settings: &Settings) -> (r: Vec<usize>)
    ensures
        settings.api_key@.len() == 0 ==> r@.len() == 0,
        r@.len() <= 8,
        forall|i: int| 0 <= i < r@.len() ==> r@[i] < samples@.len() && (#[trigger] samples@[r@[i] as int]).mode@ == "live"@
            && samples@[r@[i] as int].state@ == "pending"@,
        forall|i: int, j: int| 0 <= i < j < r@.len() ==> r@[i] < r@[j],
        settings.api_key@.len() > 0 ==> forall|k: int| 0 <= k < samples@.len() && (#[trigger] samples@[k]).mode@ == "live"@
            && samples@[k].state@ == "pending"@ ==> r@.contains(k as usize) || (r@.len() == 8 && k > r@[7]),
{
    let mut r: Vec<usize> = Vec::new();
    if settings.api_key.as_str().is_empty() {
        return r;
    }
    let n = samples.len();
    let mut i: usize = 0;
    while i < n && r.len() < 8
        invariant
            n == samples@.len(),
            i <= n,
            settings.api_key@.len() > 0,
            r@.len() <= 8,
            forall|a: int| 0 <= a < r@.len() ==> #[trigger] r@[a] < i,
            forall|a: int| 0 <= a < r@.len() ==> (#[trigger] samples@[r@[a] as int]).mode@ == "live"@
                && samples@[r@[a] as int].state@ == "pending"@,
            forall|a: int, b: int| 0 <= a < b < r@.len() ==> r@[a] < r@[b],
            forall|k: int| 0 <= k < i && (#[trigger] samples@[k]).mode@ == "live"@ && samples@[k].state@ == "pending"@
                ==> r@.contains(k as usize),
        decreases n - i,
    {
        if str_eq(samples[i].mode.as_str(), "live") && str_eq(samples[i].state.as_str(), "pending") {
            let ghost prev = r@;
            r.push(i);
            assert(r@ =~= prev.push(i));
            assert forall|k: int| 0 <= k < i + 1 && (#[trigger] samples@[k]).mode@ == "live"@ && samples@[k].state@ == "pending"@
                implies r@.contains(k as usize) by {
                if k == i {
                    assert(r@[r@.len() - 1] == k as usize);
                } else {
                    assert(prev.contains(k as usize));
                    let w = choose|w: int| 0 <= w < prev.len() && prev[w] == k as usize;
                    assert(r@[w] == k as usize);
                }
            }
        }
        i = i + 1;
    }
    proof {
        if r@.len() == 8 {
            assert forall|k: int| 0 <= k < samples@.len() && (#[trigger] samples@[k]).mode@ == "live"@
                && samples@[k].state@ == "pending"@ implies r@.contains(k as usize) || (r@.len() == 8 && k > r@[7]) by {
                if k >= i {
                    assert(r@[7] < i);
                }
            }
        }
    }
    r
}

/// The retention cut-off when an hourly clean-up is due: an hour since the last one, the
/// recorder stopped, the analysis slot free and nothing outstanding. Records captured
/// before the cut-off (`now` minus the retention days) are erased.
pub fn cleanup_cutoff(now: i64, last_cleanup: i64, running: bool, slot_free: bool, samples: &Vec<Sample>, settings: &Settings)
    -> (r: Option<i64>)
    requires
        time_ok(now),
        time_ok(last_cleanup),
    ensures
        (now - last_cleanup >= 3_600_000 && !running && slot_free && outstanding_count(samples@) == 0)
            ==> r == Some((now - settings.retention_days * 86_400_000) as i64),
        !(now - last_cleanup >= 3_600_000 && !running && slot_free && outstanding_count(samples@) == 0) ==> r is None,
{
    if now - last_cleanup >= 3_600_000 && !running && slot_free && count_outstanding(samples) == 0 {
        Some(now - settings.retention_days as i64 * 86_400_000)
    } else {
        None
    }
}

/// The day's report is written automatically once the report hour is reached, while the
/// model can be used and no report exists for the day.
pub fn report_due(hour: u32, settings: &Settings, report_exists: bool) -> (r: bool)
    ensures
        r == (hour >= settings.report_hour && settings.api_key@.len() > 0 && !report_exists),
{
    hour >= settings.report_hour && !settings.api_key.as_str().is_empty() && !report_exists
}

} // verus!

verus! {

// ---------------------------------------------------------------- camera preview

/// Why no preview can be shown, with its HTTP status: the camera is not part of the
/// recording (409), or it is not running (404).
pub fn preview_refusal(status: &RecordingStatus) -> (r: Option<(u16, String)>)
    ensures
        (!status.running || !status.camera) ==> (r matches Some((c, m)) && c == 409 && m@ == "当前记录没有启用摄像头"@),
        status.running && status.camera && !status.camera_active ==> (r matches Some((c, m)) && c == 404 && m@ == "摄像头未运行"@),
        status.running && status.camera && status.camera_active ==> r is None,
{
    if !status.running || !status.camera {
        return Some((409, String::from_str("当前记录没有启用摄像头")));
    }
    if !status.camera_active {
        return Some((404, String::from_str("摄像头未运行")));
    }
    None
}

/// The preview picture in the helper's reply, as a MIME type and its bytes; or the HTTP
/// status and message: no picture (404, with the helper's reason or "暂无新画面"), not a
/// JPEG or PNG data URL, more than 400 000 bytes of base64, or bad base64 (400 each).
pub fn preview_picture(image: Option<&str>, reason: Option<&str>) -> (r: Result<(&'static str, Vec<u8>), (u16, String)>)
    ensures
        image is None ==> (r matches Err((c, m)) && c == 404 && m@ == match reason { Some(t) => t@, None => "暂无新画面"@ }),
        image matches Some(data) ==> match crate::capture::picture_payload(data@) {
            None => r matches Err((c, m)) && c == 400 && m@ == "预览图片格式无效"@,
            Some(b64) => if crate::text::byte_len(b64) > 400_000 {
                r matches Err((c, m)) && c == 400 && m@ == "预览图片过大"@
            } else {
                match crate::capture::base64_decoded(b64) {
                    None => r matches Err((c, m)) && c == 400 && m@ == "预览图片编码无效"@,
                    Some(bytes) => r matches Ok((mime, out)) && out@ == bytes
                        && mime@ == if crate::capture::after_prefix(data@, "data:image/jpeg;base64,"@) is Some {
                            "image/jpeg"@
                        } else {
                            "image/png"@
                        },
                }
            },
        },
{
    let data = match image {
        None => {
            let m = match reason {
                Some(t) => String::from_str(t),
                None => String::from_str("暂无新画面"),
            };
            return Err((404, m));
        },
        Some(d) => d,
    };
    let (mime, b64) = match crate::capture::strip_prefix(data, "data:image/jpeg;base64,") {
        Some(b) => ("image/jpeg", b),
        None => match crate::capture::strip_prefix(data, "data:image/png;base64,") {
            Some(b) => ("image/png", b),
            None => {
                return Err((400, String::from_str("预览图片格式无效")));
            },
        },
    };
    if crate::text::byte_length(b64) > 400_000 {
        return Err((400, String::from_str("预览图片过大")));
    }
    match crate::capture::base64_decode(b64) {
        None => Err((400, String::from_str("预览图片编码无效"))),
        Some(bytes) => {
            proof {
                reveal_strlit("image/jpeg");
                reveal_strlit("image/png");
            }
            Ok((mime, bytes))
        },
    }
}

// ---------------------------------------------------------------- who may call

/// The two host names the service answers to on `port`.
pub open spec fn local_hosts(port: u16) -> Seq<Seq<char>> {
    seq!["127.0.0.1:"@ + decimal(port as nat), "localhost:"@ + decimal(port as nat)]
}

/// Only this machine may call, only pages of this service may send an origin, and every
/// request but a GET must say it comes from the page. `host`, `origin` and `client` are the
/// headers as text (`None` for a missing or unreadable one; for `origin`, `Some(None)` is
/// present but unreadable). The message is answered with 403.
pub open spec fn request_refusal(port: u16, host: Option<Seq<char>>, origin: Option<Option<Seq<char>>>, is_get: bool, client: Option<Seq<char>>)
    -> Option<Seq<char>>
{
    let hosts = local_hosts(port);
    if !(host matches Some(h) && hosts.contains(h)) {
        Some("只接受本机访问"@)
    } else if origin matches Some(o) && !(o matches Some(t) && (t == "http://"@ + hosts[0] || t == "http://"@ + hosts[1])) {
        Some("跨站请求被拒绝"@)
    } else if !is_get && client != Some("web"@) {
        Some("请求缺少客户端标识"@)
    } else {
        None
    }
}

pub open spec fn opt_str(o: Option<&str>) -> Option<Seq<char>> {
    match o {
        Some(s) => Some(s@),
        None => None,
    }
}

/// Whether a request is let in; the refusal message if not.
pub fn admit_request(port: u16, host: Option<&str>, origin: Option<Option<&str>>, is_get: bool, client: Option<&str>)
    -> (r: Option<String>)
    ensures
        opt_view(r) == request_refusal(port, opt_str(host), match origin { Some(o) => Some(opt_str(o)), None => None },
            is_get, opt_str(client)),
{
    let number = decimal_string(port as u32);
    let mut first = String::from_str("127.0.0.1:");
    first.append(number.as_str());
    let mut second = String::from_str("localhost:");
    second.append(number.as_str());
    proof {
        reveal_strlit("127.0.0.1:");
        reveal_strlit("localhost:");
        reveal_strlit("http://");
        reveal_strlit("web");
    }
    let ghost hosts = local_hosts(port);
    assert(hosts[0] == first@ && hosts[1] == second@);
    let host_ok = match host {
        Some(h) => str_eq(h, first.as_str()) || str_eq(h, second.as_str()),
        None => false,
    };
    assert(host_ok == (opt_str(host) matches Some(h) && hosts.contains(h))) by {
        match opt_str(host) {
            Some(h) => {
                if hosts.contains(h) {
                    let w = choose|w: int| 0 <= w < hosts.len() && hosts[w] == h;
                    assert(w == 0 || w == 1);
                }
            },
            None => {},
        }
    }
    if !host_ok {
        return Some(String::from_str("只接受本机访问"));
    }
    match origin {
        Some(o) => {
            let mut a = String::from_str("http://");
            a.append(first.as_str());
            let mut b = String::from_str("http://");
            b.append(second.as_str());
            let ok = match o {
                Some(t) => str_eq(t, a.as_str()) || str_eq(t, b.as_str()),
                None => false,
            };
            if !ok {
                return Some(String::from_str("跨站请求被拒绝"));
            }
        },
        None => {},
    }
    let from_page = match client {
        Some(c) => str_eq(c, "web"),
        None => false,
    };
    if !is_get && !from_page {
        return Some(String::from_str("请求缺少客户端标识"));
    }
    None
}

} // verus!

verus! {

// ---------------------------------------------------------------- pictures of a record

pub open spec fn is_digit(c: char) -> bool {
    '0' <= c <= '9'
}

/// The number that the decimal digits `d` write.
pub open spec fn digits_value(d: Seq<char>) -> int
    decreases d.len(),
{
    if d.len() == 0 {
        0
    } else {
        digits_value(d.drop_last()) * 10 + (d.last() as int - '0' as int)
    }
}

/// The text after an optional leading `+`.
pub open spec fn unsigned_digits(s: Seq<char>) -> Seq<char> {
    if s.len() > 0 && s[0] == '+' { s.drop_first() } else { s }
}

pub open spec fn all_digits(d: Seq<char>) -> bool {
    forall|i: int| 0 <= i < d.len() ==> is_digit(#[trigger] d[i])
}

/// What `str::parse::<u32>` reads: an optional `+`, then one or more decimal digits whose
/// value fits in a `u32`.
pub open spec fn parsed_u32(s: Seq<char>) -> Option<u32> {
    let d = unsigned_digits(s);
    if d.len() > 0 && all_digits(d) && digits_value(d) <= u32::MAX {
        Some(digits_value(d) as u32)
    } else {
        None
    }
}

proof fn lemma_digits_grow(d: Seq<char>, i: int)
    requires
        0 <= i <= d.len(),
        forall|k: int| 0 <= k < d.len() ==> is_digit(#[trigger] d[k]),
    ensures
        digits_value(d) >= digits_value(d.take(i)),
        digits_value(d.take(i)) >= 0,
    decreases d.len() - i,
{
    if i < d.len() {
        lemma_digits_grow(d, i + 1);
        assert(d.take(i + 1).drop_last() =~= d.take(i));
        assert(is_digit(d[i]));
        lemma_digits_nonneg(d.take(i));
    } else {
        assert(d.take(i) =~= d);
        lemma_digits_nonneg(d);
    }
}

proof fn lemma_digits_nonneg(d: Seq<char>)
    requires
        forall|k: int| 0 <= k < d.len() ==> is_digit(#[trigger] d[k]),
    ensures
        digits_value(d) >= 0,
    decreases d.len(),
{
    if d.len() > 0 {
        assert(is_digit(d.last()));
        lemma_digits_nonneg(d.drop_last());
    }
}

/// Reads a `u32` as `str::parse` does.
pub fn parse_u32(s: &str) -> (r: Option<u32>)
    ensures
        r == parsed_u32(s@),
{
    let cs = crate::text::chars_of(s);
    let n = cs.len();
    let start: usize = if n > 0 && cs[0] == '+' { 1 } else { 0 };
    let ghost d = unsigned_digits(s@);
    assert(d =~= s@.skip(start as int));
    if start == n {
        return None;
    }
    let mut value: u64 = 0;
    let mut i: usize = start;
    while i < n
        invariant
            start <= i <= n == cs@.len(),
            cs@ == s@,
            d == s@.skip(start as int),
            d == unsigned_digits(s@),
            d.len() > 0,
            forall|k: int| 0 <= k < i - start ==> is_digit(#[trigger] d[k]),
            value == digits_value(d.take(i - start)),
            value <= u32::MAX,
        decreases n - i,
    {
        let c = cs[i];
        assert(d[i - start] == c);
        if !('0' <= c && c <= '9') {
            assert(!is_digit(d[i - start]));
            assert(!all_digits(d));
            return None;
        }
        assert(d.take(i - start + 1).drop_last() =~= d.take(i - start));
        let next: u64 = value * 10 + (c as u64 - '0' as u64);
        if next > u32::MAX as u64 {
            proof {
                assert(d.take(i - start + 1).last() == c);
                assert(digits_value(d.take(i - start + 1)) == next);
                if all_digits(d) {
                    lemma_digits_grow(d, i - start + 1);
                }
            }
            return None;
        }
        value = next;
        i = i + 1;
    }
    assert(d.take(n - start) =~= d);
    Some(value as u32)
}

/// The file of a record's picture of kind `kind`: `screen` (the first), `camera`, or
/// `screen-<display>` (the first display with that number); `Ok(None)` when the record has
/// no such picture, `Err` for another kind.
pub open spec fn media_name(s: Sample, kind: Seq<char>) -> Result<Option<Seq<char>>, Seq<char>> {
    if kind == "screen"@ {
        Ok(if screen_files_of(s).len() > 0 { Some(screen_files_of(s)[0]) } else { None })
    } else if kind == "camera"@ {
        Ok(opt_view(s.camera))
    } else {
        match crate::capture::after_prefix(kind, "screen-"@) {
            None => Err("无效的图片类型"@),
            Some(rest) => Ok(match parsed_u32(rest) {
                None => None,
                Some(id) => match first_screen_with(s.screens@, id, 0) {
                    Some(k) => opt_view(s.screens@[k].file),
                    None => None,
                },
            }),
        }
    }
}

/// The position of the first display numbered `id`, from position `k` on.
pub open spec fn first_screen_with(screens: Seq<crate::models::ScreenCapture>, id: u32, k: int) -> Option<int>
    decreases screens.len() - k,
{
    if 0 <= k < screens.len() {
        if screens[k].display_id == id { Some(k) } else { first_screen_with(screens, id, k + 1) }
    } else {
        None
    }
}

proof fn lemma_first_screen_in_range(screens: Seq<crate::models::ScreenCapture>, id: u32, k: int)
    requires
        0 <= k,
    ensures
        first_screen_with(screens, id, k) matches Some(j) ==> k <= j < screens.len() && screens[j].display_id == id,
    decreases screens.len() - k,
{
    if 0 <= k < screens.len() && screens[k].display_id != id {
        lemma_first_screen_in_range(screens, id, k + 1);
    }
}

/// The stored file for picture `kind` of record `s`; `无效的图片类型` for an unknown kind,
/// `该记录没有这张图片` when the record has no such picture.
pub fn media_file(s: &Sample, kind: &str) -> (r: Result<String, String>)
    ensures
        match media_name(*s, kind@) {
            Err(e) => r matches Err(m) && m@ == e,
            Ok(None) => r matches Err(m) && m@ == "该记录没有这张图片"@,
            Ok(Some(f)) => r matches Ok(name) && name@ == f,
        },
{
    proof {
        reveal_strlit("screen");
        reveal_strlit("camera");
    }
    let name: Option<String> = if str_eq(kind, "screen") {
        let files = s.screen_files();
        assert(files@.len() == screen_files_of(*s).len());
        if files.len() > 0 {
            assert(files@[0]@ == screen_files_of(*s)[0]);
            Some(String::from_str(files[0]))
        } else {
            None
        }
    } else if str_eq(kind, "camera") {
        crate::capture::copy_text(&s.camera)
    } else {
        match crate::capture::strip_prefix(kind, "screen-") {
            None => {
                return Err(String::from_str("无效的图片类型"));
            },
            Some(rest) => match parse_u32(rest) {
                None => None,
                Some(id) => {
                    let n = s.screens.len();
                    let mut found: Option<usize> = None;
                    let mut k: usize = 0;
                    while k < n
                        invariant
                            n == s.screens@.len(),
                            k <= n,
                            found is None ==> first_screen_with(s.screens@, id, 0) == first_screen_with(s.screens@, id, k as int),
                            found matches Some(j) ==> first_screen_with(s.screens@, id, 0) == Some(j as int) && j < n,
                        decreases n - k,
                    {
                        if found.is_none() && s.screens[k].display_id == id {
                            found = Some(k);
                        }
                        k = k + 1;
                    }
                    match found {
                        Some(j) => crate::capture::copy_text(&s.screens[j].file),
                        None => None,
                    }
                },
            },
        }
    };
    match name {
        Some(f) => Ok(f),
        None => Err(String::from_str("该记录没有这张图片")),
    }
}

// ---------------------------------------------------------------- corrections

/// A correction note has at most 500 characters.
pub fn correction_refusal(note: &str) -> (r: Option<String>)
    ensures
        note@.len() > 500 ==> (r matches Some(m) && m@ == "纠正说明最多 500 字"@),
        note@.len() <= 500 ==> r is None,
{
    if note.unicode_len() > 500 {
        Some(String::from_str("纠正说明最多 500 字"))
    } else {
        None
    }
}

/// The user's correction replaces the record's category (or clears it) and its note.
pub fn apply_correction(s: &mut Sample, category: Option<Category>, note: String)
    ensures
        *final(s) == (Sample { correction: category, correction_note: note, ..*old(s) }),
{
    s.correction = category;
    s.correction_note = note;
}

} // verus!

verus! {

// ---------------------------------------------------------------- settings

/// Settings as the page sends them. Absent values keep the saved ones; `api_key` replaces
/// the key when it holds more than white space, and `clear_api_key` removes it.
#[derive(Clone, Debug)]
pub struct SettingsInput {
    pub base_url: String,
    pub model: String,
    pub api_key: Option<String>,
    pub clear_api_key: bool,
    pub task: String,
    pub report_hour: u32,
    pub reminders: Option<bool>,
    pub reminder_minutes: Option<u32>,
    pub daily_goal_minutes: Option<u32>,
    pub retention_days: Option<u32>,
    pub excluded_apps: Option<Vec<String>>,
}

pub open spec fn texts_view(v: Seq<String>) -> Seq<Seq<char>> {
    v.map_values(|t: String| t@)
}

pub open spec fn or_saved<T>(v: Option<T>, saved: T) -> T {
    match v {
        Some(x) => x,
        None => saved,
    }
}

/// The exclusion list after the update.
pub open spec fn new_exclusions(saved: Settings, input: SettingsInput) -> Seq<String> {
    match input.excluded_apps {
        Some(v) => v@,
        None => saved.excluded_apps@,
    }
}

/// While recording, the task and the excluded apps cannot change.
pub open spec fn locked_change(saved: Settings, input: SettingsInput, running: bool) -> bool {
    running && (trimmed(input.task@) != saved.task@
        || texts_view(new_exclusions(saved, input)) != texts_view(saved.excluded_apps@))
}

/// A kept key cannot follow the service to another origin.
pub open spec fn key_left_behind(saved: Settings, input: SettingsInput) -> bool {
    !input.clear_api_key && !(input.api_key matches Some(k) && !blank(k@)) && saved.api_key@.len() > 0
        && !same_origin(trimmed(input.base_url@), saved.base_url@)
}

/// The settings that the update asks for, before they are validated.
pub open spec fn merged_fields(c: Settings, saved: Settings, input: SettingsInput) -> bool {
    &&& c.base_url@ == trimmed(input.base_url@)
    &&& c.model@ == trimmed(input.model@)
    &&& c.task@ == trimmed(input.task@)
    &&& c.report_hour == input.report_hour
    &&& c.reminders == or_saved(input.reminders, saved.reminders)
    &&& c.reminder_minutes == or_saved(input.reminder_minutes, saved.reminder_minutes)
    &&& c.daily_goal_minutes == or_saved(input.daily_goal_minutes, saved.daily_goal_minutes)
    &&& c.retention_days == or_saved(input.retention_days, saved.retention_days)
    &&& c.excluded_apps@ == new_exclusions(saved, input)
    &&& c.api_key@ == if input.clear_api_key {
        Seq::empty()
    } else if input.api_key matches Some(k) && !blank(k@) {
        trimmed(input.api_key->0@)
    } else {
        saved.api_key@
    }
}

fn same_texts(a: &Vec<String>, b: &Vec<String>) -> (r: bool)
    ensures
        r == (texts_view(a@) == texts_view(b@)),
{
    if a.len() != b.len() {
        assert(texts_view(a@).len() != texts_view(b@).len());
        return false;
    }
    let n = a.len();
    for i in 0..n
        invariant
            n == a@.len() == b@.len(),
            forall|j: int| 0 <= j < i ==> a@[j]@ == b@[j]@,
    {
        if !str_eq(a[i].as_str(), b[i].as_str()) {
            assert(texts_view(a@)[i as int] != texts_view(b@)[i as int]);
            return false;
        }
    }
    assert(texts_view(a@) =~= texts_view(b@));
    true
}

/// Applies the page's settings to the saved ones. Refused while recording if the task or
/// the exclusions change, and when the address moves to another origin while the old key
/// would be kept; otherwise the result must pass `validate_settings`.
pub fn merge_settings(saved: &Settings, input: SettingsInput, running: bool) -> (r: Result<Settings, String>)
    ensures
        locked_change(*saved, input, running) ==> (r matches Err(m) && m@ == "请先暂停记录，再修改任务描述或排除应用"@),
        !locked_change(*saved, input, running) && key_left_behind(*saved, input)
            ==> (r matches Err(m) && m@ == "更换 API 服务地址时，请填写对应服务的 API Key"@),
        r matches Ok(c) ==> merged_fields(c, *saved, input) && settings_error(c) is None,
        !locked_change(*saved, input, running) && !key_left_behind(*saved, input)
            ==> match r {
                Ok(c) => merged_fields(c, *saved, input),
                Err(m) => exists|c: Settings| merged_fields(c, *saved, input) && settings_error(c) == Some(m@),
            },
{
    let base_url = trim_text(input.base_url.as_str());
    let model = trim_text(input.model.as_str());
    let task = trim_text(input.task.as_str());
    let excluded_apps: Vec<String> = match &input.excluded_apps {
        Some(v) => v.clone(),
        None => saved.excluded_apps.clone(),
    };
    assert(excluded_apps@ == new_exclusions(*saved, input));
    if running && (!str_eq(task.as_str(), saved.task.as_str()) || !same_texts(&excluded_apps, &saved.excluded_apps)) {
        return Err(String::from_str("请先暂停记录，再修改任务描述或排除应用"));
    }
    let fresh_key: Option<String> = match &input.api_key {
        Some(k) => if is_blank(k.as_str()) { None } else { Some(trim_text(k.as_str())) },
        None => None,
    };
    let api_key = if input.clear_api_key {
        String::new()
    } else {
        match fresh_key {
            Some(k) => k,
            None => {
                if !saved.api_key.as_str().is_empty() && !origins_match(base_url.as_str(), saved.base_url.as_str()) {
                    return Err(String::from_str("更换 API 服务地址时，请填写对应服务的 API Key"));
                }
                saved.api_key.clone()
            },
        }
    };
    let c = Settings {
        base_url,
        model,
        api_key,
        task,
        report_hour: input.report_hour,
        reminders: match input.reminders { Some(v) => v, None => saved.reminders },
        reminder_minutes: match input.reminder_minutes { Some(v) => v, None => saved.reminder_minutes },
        daily_goal_minutes: match input.daily_goal_minutes { Some(v) => v, None => saved.daily_goal_minutes },
        retention_days: match input.retention_days { Some(v) => v, None => saved.retention_days },
        excluded_apps,
    };
    match validate_settings(&c) {
        Ok(()) => Ok(c),
        Err(e) => Err(e),
    }
}

} // verus!
