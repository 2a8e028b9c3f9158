//! The records that the recorder, the estimator and the page share.
use vstd::prelude::*;
use crate::text::str_eq;

verus! {

/// At most this many displays are recorded at once.
pub const MAX_DISPLAYS: usize = 16;

/// What one stretch of time was judged to be.
///
/// Older records and model replies that say `break` are read as `Distracted`.
#[derive(Clone, Copy, Debug, PartialEq, Eq, Structural)]
pub enum Category {
    Work,
    Distracted,
    Away,
    Unknown,
}

pub open spec fn category_label(c: Category) -> Seq<char> {
    match c {
        Category::Work => "工作中"@,
        Category::Distracted => "中断"@,
        Category::Away => "离开"@,
        Category::Unknown => "信息不足"@,
    }
}

impl Category {
    /// The label that the page shows for this category.
    pub fn label(&self) -> (r: &'static str)
        ensures
            r@ == category_label(*self),
    {
        match self {
            Category::Work => "工作中",
            Category::Distracted => "中断",
            Category::Away => "离开",
            Category::Unknown => "信息不足",
        }
    }
}

/// User settings. `api_key` is never shown back to the page.
#[derive(Clone, Debug)]
pub struct Settings {
    pub base_url: String,
    pub model: String,
    pub api_key: String,
    pub task: String,
    pub report_hour: u32,
    pub reminders: bool,
    pub reminder_minutes: u32,
    pub daily_goal_minutes: u32,
    pub retention_days: u32,
    pub excluded_apps: Vec<String>,
}

impl Default for Settings {
    fn default() -> (s: Self)
        ensures
            s.base_url@ == "https://dashscope.aliyuncs.com/compatible-mode/v1"@,
            s.model@ == "qwen3.8-flash"@,
            s.api_key@ == Seq::<char>::empty(),
            s.task@ == Seq::<char>::empty(),
            s.report_hour == 20,
            s.reminders,
            s.reminder_minutes == 3,
            s.daily_goal_minutes == 180,
            s.retention_days == 7,
            s.excluded_apps@.len() == 2,
            s.excluded_apps@[0]@ == "com.apple.keychainaccess"@,
            s.excluded_apps@[1]@ == "com.1password.1password"@,
    {
        let mut excluded_apps: Vec<String> = Vec::new();
        excluded_apps.push(String::from_str("com.apple.keychainaccess"));
        excluded_apps.push(String::from_str("com.1password.1password"));
        Settings {
            base_url: String::from_str("https://dashscope.aliyuncs.com/compatible-mode/v1"),
            model: String::from_str("qwen3.8-flash"),
            api_key: String::new(),
            task: String::new(),
            report_hour: 20,
            reminders: true,
            reminder_minutes: 3,
            daily_goal_minutes: 180,
            retention_days: 7,
            excluded_apps,
        }
    }
}

/// The settings as the page sees them: everything but the key itself, which shows only as
/// whether one is set, with the fixed analysis interval and judgment lifetime.
#[derive(Clone, Debug)]
pub struct PublicSettings {
    pub base_url: String,
    pub model: String,
    pub api_key_configured: bool,
    pub interval_seconds: u32,
    pub judgment_ttl_seconds: i64,
    pub task: String,
    pub report_hour: u32,
    pub reminders: bool,
    pub reminder_minutes: u32,
    pub daily_goal_minutes: u32,
    pub retention_days: u32,
    pub excluded_apps: Vec<String>,
}

impl Settings {
    /// The settings as the page sees them: never the key.
    pub fn public(&self) -> (p: PublicSettings)
        ensures
            p.base_url@ == self.base_url@,
            p.model@ == self.model@,
            p.api_key_configured == (self.api_key@.len() > 0),
            p.interval_seconds == crate::policy::ANALYSIS_INTERVAL_SECONDS,
            p.judgment_ttl_seconds == crate::policy::JUDGMENT_TTL_MS / 1000,
            p.task@ == self.task@,
            p.report_hour == self.report_hour,
            p.reminders == self.reminders,
            p.reminder_minutes == self.reminder_minutes,
            p.daily_goal_minutes == self.daily_goal_minutes,
            p.retention_days == self.retention_days,
            p.excluded_apps@ == self.excluded_apps@,
    {
        PublicSettings {
            base_url: self.base_url.clone(),
            model: self.model.clone(),
            api_key_configured: !self.api_key.as_str().is_empty(),
            interval_seconds: crate::policy::ANALYSIS_INTERVAL_SECONDS,
            judgment_ttl_seconds: crate::policy::JUDGMENT_TTL_MS / 1000,
            task: self.task.clone(),
            report_hour: self.report_hour,
            reminders: self.reminders,
            reminder_minutes: self.reminder_minutes,
            daily_goal_minutes: self.daily_goal_minutes,
            retention_days: self.retention_days,
            excluded_apps: self.excluded_apps.clone(),
        }
    }
}

/// A model's judgment of one screenshot group.
///
/// `confidence_bits` is the reported confidence as a binary64 bit pattern.
#[derive(Clone, Debug)]
pub struct Analysis {
    pub category: Category,
    pub confidence_bits: u64,
    pub app_name: String,
    pub screen_activity: String,
    pub camera_state: String,
    pub summary: String,
    pub evidence: Vec<String>,
}

/// One display of one screenshot group.
#[derive(Clone, Debug)]
pub struct ScreenCapture {
    pub display_id: u32,
    pub display_name: String,
    pub captured_at: i64,
    pub file: Option<String>,
    pub error: Option<String>,
}

#[derive(Clone, Debug)]
pub struct SelectedDisplay {
    pub id: u32,
    pub name: String,
}

impl SelectedDisplay {
    /// A copy of this display.
    pub fn copied(&self) -> (r: Self)
        ensures
            r == *self,
    {
        SelectedDisplay { id: self.id, name: self.name.clone() }
    }
}

#[derive(Clone, Debug)]
pub struct Session {
    pub id: String,
    pub started_at: i64,
    pub ended_at: Option<i64>,
    pub interval_seconds: u32,
    pub task: String,
    pub mode: String,
}

impl Session {
    /// A copy of this session.
    pub fn copied(&self) -> (r: Self)
        ensures
            r == *self,
    {
        Session {
            id: self.id.clone(),
            started_at: self.started_at,
            ended_at: self.ended_at,
            interval_seconds: self.interval_seconds,
            task: self.task.clone(),
            mode: self.mode.clone(),
        }
    }
}

#[derive(Clone, Debug)]
pub struct Report {
    pub date: String,
    pub mode: String,
    pub state: String,
    pub headline: String,
    pub observations: Vec<String>,
    pub suggestions: Vec<String>,
    pub generated_at: i64,
    pub fingerprint: String,
    pub error: Option<String>,
}

#[derive(Clone, Debug)]
pub struct AppSwitch {
    pub at: i64,
    pub app_name: String,
    pub bundle_id: String,
}

#[derive(Clone, Debug)]
pub struct AppDwell {
    pub start: i64,
    pub end: i64,
    pub app_name: String,
    pub bundle_id: String,
}

impl AppSwitch {
    /// A copy of this switch.
    pub fn copied(&self) -> (r: Self)
        ensures
            r == *self,
    {
        AppSwitch { at: self.at, app_name: self.app_name.clone(), bundle_id: self.bundle_id.clone() }
    }
}

/// A periodic reading of the front application and of input idleness.
///
/// `idle_seconds_bits` is the idle time in seconds as a binary64 bit pattern.
#[derive(Clone, Debug)]
pub struct ActivityPoint {
    pub at: i64,
    pub app_name: String,
    pub bundle_id: String,
    pub idle_seconds_bits: u64,
}

impl ActivityPoint {
    /// A copy of this reading.
    pub fn copied(&self) -> (r: Self)
        ensures
            r == *self,
    {
        ActivityPoint {
            at: self.at,
            app_name: self.app_name.clone(),
            bundle_id: self.bundle_id.clone(),
            idle_seconds_bits: self.idle_seconds_bits,
        }
    }
}

#[derive(Clone, Debug)]
pub struct ActivityHistory {
    pub start: i64,
    pub end: i64,
    pub truncated: bool,
    pub switches: Vec<AppSwitch>,
    pub app_spans: Vec<AppDwell>,
    pub input_checkpoints: Vec<ActivityPoint>,
}

/// The front application as last seen, and the switches since the previous reading.
///
/// `foreground_display_id` is estimated from the frontmost visible window, never from gaze.
/// `idle_seconds_bits` is the idle time in seconds as a binary64 bit pattern.
#[derive(Clone, Debug)]
pub struct Activity {
    pub foreground_display_id: Option<u32>,
    pub app_name: String,
    pub bundle_id: String,
    pub window_title: String,
    pub idle_seconds_bits: u64,
    pub switches: Vec<AppSwitch>,
    pub observed_since: i64,
    pub history: Option<ActivityHistory>,
}

impl Default for Activity {
    fn default() -> (a: Self)
        ensures
            a.foreground_display_id is None,
            a.app_name@ == Seq::<char>::empty(),
            a.bundle_id@ == Seq::<char>::empty(),
            a.window_title@ == Seq::<char>::empty(),
            a.idle_seconds_bits == 0,
            a.switches@.len() == 0,
            a.observed_since == 0,
            a.history is None,
    {
        Activity {
            foreground_display_id: None,
            app_name: String::new(),
            bundle_id: String::new(),
            window_title: String::new(),
            idle_seconds_bits: 0,
            switches: Vec::new(),
            observed_since: 0,
            history: None,
        }
    }
}

#[derive(Clone, Copy, Debug, PartialEq, Eq, Structural)]
pub enum PresenceState {
    Present,
    NotDetected,
    Unknown,
    Disabled,
}

/// Whether the local camera check saw a person. `confidence_bits` is a binary64 bit pattern.
#[derive(Clone, Debug)]
pub struct Presence {
    pub state: PresenceState,
    pub confidence_bits: u64,
    pub observed_at: i64,
    pub reason: String,
}

impl Default for Presence {
    fn default() -> (p: Self)
        ensures
            p.state == PresenceState::Unknown,
            p.confidence_bits == 0,
            p.observed_at == 0,
            p.reason@ == Seq::<char>::empty(),
    {
        Presence { state: PresenceState::Unknown, confidence_bits: 0, observed_at: 0, reason: String::new() }
    }
}

impl Presence {
    /// A copy of this presence reading.
    pub fn copied(&self) -> (r: Self)
        ensures
            r == *self,
    {
        Presence {
            state: self.state,
            confidence_bits: self.confidence_bits,
            observed_at: self.observed_at,
            reason: self.reason.clone(),
        }
    }
}

/// Where a person appears in the camera frame, as a top-left box in the unit square.
/// Geometry only, never stored with a record. The numbers are binary64 bit patterns.
#[derive(Clone, Debug)]
pub struct PresenceRegion {
    pub kind: String,
    pub x_bits: u64,
    pub y_bits: u64,
    pub w_bits: u64,
    pub h_bits: u64,
    pub confidence_bits: u64,
}

/// What the local observation knew when a record was written.
#[derive(Clone, Debug)]
pub struct CaptureEvidence {
    pub basis: String,
    pub trigger: String,
    pub presence: Presence,
    pub away: bool,
    pub valid_until: i64,
}

/// One observation record: a screenshot group sent to the model, or a local check.
///
/// `screen` is the legacy single-preview name kept for old records.
#[derive(Clone, Debug)]
pub struct Sample {
    pub screens: Vec<ScreenCapture>,
    pub evidence: Option<CaptureEvidence>,
    pub activity: Activity,
    pub capture_warning: Option<String>,
    pub id: String,
    pub session_id: String,
    pub captured_at: i64,
    pub interval_seconds: u32,
    pub mode: String,
    pub task: String,
    pub screen: Option<String>,
    pub camera: Option<String>,
    pub capture_source: String,
    pub state: String,
    pub analysis: Option<Analysis>,
    pub error: Option<String>,
    pub correction: Option<Category>,
    pub correction_note: String,
}

/// The file names of the available screenshots of a list of displays, in order.
pub open spec fn capture_files(screens: Seq<ScreenCapture>) -> Seq<Seq<char>>
    decreases screens.len(),
{
    if screens.len() == 0 {
        Seq::empty()
    } else {
        let rest = capture_files(screens.drop_last());
        match screens.last().file {
            Some(f) => rest.push(f@),
            None => rest,
        }
    }
}

/// The screenshot files of a record: those of its displays, or else its legacy single screen.
pub open spec fn screen_files_of(s: Sample) -> Seq<Seq<char>> {
    if s.screens@.len() == 0 {
        match s.screen {
            Some(f) => seq![f@],
            None => Seq::empty(),
        }
    } else {
        capture_files(s.screens@)
    }
}

/// The evidence says the person was away.
pub open spec fn evidence_away(s: Sample) -> bool {
    s.evidence matches Some(e) && e.away
}

/// The record comes from a local check only, never from the model.
pub open spec fn is_local(s: Sample) -> bool {
    s.evidence matches Some(e) && e.basis@ == "local"@
}

/// The category of a record: away beats everything, a local check is unknown,
/// a user correction beats the model's answer, and no answer is unknown.
pub open spec fn category_of(s: Sample) -> Category {
    if evidence_away(s) {
        Category::Away
    } else if is_local(s) {
        Category::Unknown
    } else if s.correction is Some {
        s.correction->0
    } else if s.analysis is Some {
        s.analysis->0.category
    } else {
        Category::Unknown
    }
}

impl Sample {
    /// The screenshot files of this record.
    pub fn screen_files(&self) -> (r: Vec<&str>)
        ensures
            r@.map_values(|f: &str| f@) == screen_files_of(*self),
    {
        let mut r: Vec<&str> = Vec::new();
        if self.screens.len() == 0 {
            match &self.screen {
                Some(f) => {
                    r.push(f.as_str());
                },
                None => {},
            }
            assert(r@.map_values(|f: &str| f@) =~= screen_files_of(*self));
            return r;
        }
        let n = self.screens.len();
        for i in 0..n
            invariant
                n == self.screens@.len(),
                r@.map_values(|f: &str| f@) =~= capture_files(self.screens@.take(i as int)),
        {
            assert(self.screens@.take(i + 1).drop_last() =~= self.screens@.take(i as int));
            match &self.screens[i].file {
                Some(f) => {
                    r.push(f.as_str());
                },
                None => {},
            }
            assert(r@.map_values(|f: &str| f@) =~= capture_files(self.screens@.take(i + 1)));
        }
        assert(self.screens@.take(n as int) =~= self.screens@);
        r
    }

    /// Whether the evidence says the person was away.
    pub fn is_away(&self) -> (r: bool)
        ensures
            r == evidence_away(*self),
    {
        match &self.evidence {
            Some(e) => e.away,
            None => false,
        }
    }

    /// Whether this record comes from a local check only.
    pub fn is_local(&self) -> (r: bool)
        ensures
            r == is_local(*self),
    {
        match &self.evidence {
            Some(e) => str_eq(e.basis.as_str(), "local"),
            None => false,
        }
    }

    /// The category that counts for this record.
    pub fn category(&self) -> (r: Category)
        ensures
            r == category_of(*self),
    {
        if self.is_away() {
            return Category::Away;
        }
        if self.is_local() {
            return Category::Unknown;
        }
        match self.correction {
            Some(c) => c,
            None => match &self.analysis {
                Some(a) => a.category,
                None => Category::Unknown,
            },
        }
    }
}

/// How much a reset removed.
#[derive(Clone, Copy, Debug, PartialEq, Eq, Structural)]
pub struct DataReset {
    pub samples: usize,
    pub sessions: usize,
    pub reports: usize,
    pub files: usize,
}

/// Local evidence never classifies work: a record of a local check counts as away or as
/// unknown, whatever judgment or correction it carries.
pub proof fn law_local_never_work(s: Sample)
    requires
        is_local(s),
    ensures
        category_of(s) == Category::Away || category_of(s) == Category::Unknown,
        evidence_away(s) <==> category_of(s) == Category::Away,
{
}

} // verus!
