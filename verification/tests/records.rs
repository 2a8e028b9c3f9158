use flow_insight::models::{Activity, CaptureEvidence, Presence, Report, Sample, ScreenCapture, Session};
use flow_insight::native::{reply_failure, reply_timeout_seconds, reply_too_long};
use flow_insight::records::{fail_interrupted, overlapping_days, record_files, recovered_end, reopen_interrupted, reports_to_erase};
use flow_insight::summary;

fn sample(id: &str, session: &str, at: i64, valid_until: Option<i64>) -> Sample {
    Sample {
        screens: vec![],
        evidence: valid_until.map(|v| CaptureEvidence { basis: "ai".into(), trigger: "periodic".into(), presence: Presence::default(), away: false, valid_until: v }),
        activity: Activity::default(),
        capture_warning: None,
        id: id.into(),
        session_id: session.into(),
        captured_at: at,
        interval_seconds: 60,
        mode: "live".into(),
        task: String::new(),
        screen: None,
        camera: None,
        capture_source: "test".into(),
        state: "analyzing".into(),
        analysis: None,
        error: None,
        correction: None,
        correction_note: String::new(),
    }
}

fn session(id: &str, start: i64) -> Session {
    Session { id: id.into(), started_at: start, ended_at: None, interval_seconds: 60, task: String::new(), mode: "live".into() }
}

#[test]
fn restart_closes_orphaned_sessions_at_their_last_coverage() {
    let records = vec![sample("a", "s", 1000, Some(40_000)), sample("b", "s", 50_000, None), sample("c", "t", 90_000, Some(99_000))];
    assert_eq!(recovered_end(&session("s", 0), &records, 1_000_000), 110_000);
    assert_eq!(recovered_end(&session("s", 0), &records, 100_000), 100_000);
    assert_eq!(recovered_end(&session("u", 7), &records, 1_000_000), 7);
}

#[test]
fn restart_reopens_interrupted_analyses_and_fails_interrupted_reports() {
    let mut s = sample("a", "s", 0, None);
    assert!(reopen_interrupted(&mut s));
    assert_eq!(s.state, "pending");
    assert_eq!(s.error.as_deref(), Some("上次分析被中断，可重新分析"));
    assert!(!reopen_interrupted(&mut s));
    let mut r = Report {
        date: "2026-09-06".into(),
        mode: "live".into(),
        state: "generating".into(),
        headline: String::new(),
        observations: vec![],
        suggestions: vec![],
        generated_at: 0,
        fingerprint: String::new(),
        error: None,
    };
    assert!(fail_interrupted(&mut r));
    assert_eq!((r.state.as_str(), r.error.as_deref()), ("error", Some("报告生成被中断，请重试")));
    assert!(!fail_interrupted(&mut r));
}

#[test]
fn deleting_a_day_takes_only_its_own_report_and_all_its_pictures() {
    let (t, end) = summary::bounds("2026-09-06").unwrap();
    let report = |date: &str| Report {
        date: date.into(),
        mode: "live".into(),
        state: "done".into(),
        headline: "x".into(),
        observations: vec![],
        suggestions: vec![],
        generated_at: t,
        fingerprint: "x".into(),
        error: None,
    };
    let reports = vec![report("2026-09-05"), report("2026-09-06"), report("bad date"), report("2026-09-07")];
    assert_eq!(reports_to_erase(&reports, t, end), [1]);
    let mut s = sample("a", "s", t, None);
    s.screens = vec![
        ScreenCapture { display_id: 1, display_name: "a".into(), captured_at: t, file: Some("a-screen-1.jpg".into()), error: None },
        ScreenCapture { display_id: 2, display_name: "b".into(), captured_at: t, file: None, error: Some("x".into()) },
    ];
    s.camera = Some("a-camera.jpg".into());
    assert_eq!(record_files(&s), ["a-screen-1.jpg", "a-camera.jpg"]);
    s.screens.clear();
    s.screen = Some("legacy.jpg".into());
    s.camera = None;
    assert_eq!(record_files(&s), ["legacy.jpg"]);
}

#[test]
fn the_helper_gets_two_minutes_for_permissions_and_its_failures_are_reported() {
    assert_eq!(reply_timeout_seconds("request_permission"), 120);
    assert_eq!(reply_timeout_seconds("observe"), 20);
    assert!(!reply_too_long(49_000_000));
    assert!(reply_too_long(49_000_001));
    assert!(reply_failure(true, Some("x")).is_none());
    assert_eq!(reply_failure(false, Some("没有权限")).unwrap(), "没有权限");
    assert_eq!(reply_failure(false, None).unwrap(), "原生采集失败");
}

#[test]
fn erasing_takes_exactly_the_days_that_overlap_and_never_a_distant_one() {
    let days = vec![Some((0, 10)), None, Some((10, 20)), Some((20, 30)), Some((-5, 5))];
    assert_eq!(overlapping_days(&days, 5, 12), [0, 2]);
    assert_eq!(overlapping_days(&days, 30, 40), Vec::<usize>::new());
    let (t, end) = summary::bounds("2026-09-06").unwrap();
    let day = 86_400_000;
    // The UTC midnight of 2026-09-06 is day 20702 since 1970.
    let midnight = 20_702 * day;
    assert!(midnight - day < t && t < midnight + day);
    assert!(midnight < end && end < midnight + 2 * day);
    let report = |date: &str| Report {
        date: date.into(),
        mode: "live".into(),
        state: "done".into(),
        headline: "x".into(),
        observations: vec![],
        suggestions: vec![],
        generated_at: t,
        fingerprint: "x".into(),
        error: None,
    };
    let reports = vec![report("2026-09-01"), report("2026-09-06"), report("2026-09-12")];
    assert_eq!(reports_to_erase(&reports, midnight - 2 * day, midnight + 3 * day), [1]);
    assert_eq!(reports_to_erase(&reports, midnight - 10 * day, midnight + 10 * day), [0, 1, 2]);
}
