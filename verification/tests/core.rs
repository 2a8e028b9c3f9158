use flow_insight::ai;
use flow_insight::flow;
use flow_insight::models::{Activity, Analysis, Category, Sample, Session, Settings};
use flow_insight::summary;

fn sample(at: i64, category: Category) -> Sample {
    Sample {
        evidence: None,
        activity: Activity::default(),
        capture_warning: None,
        id: at.to_string(),
        session_id: "s".into(),
        captured_at: at,
        interval_seconds: 60,
        mode: "live".into(),
        task: "写脚本".into(),
        screens: vec![],
        screen: None,
        camera: None,
        capture_source: "test".into(),
        state: "done".into(),
        analysis: Some(Analysis {
            category,
            confidence_bits: 0.9f64.to_bits(),
            app_name: "文档".into(),
            screen_activity: "写稿".into(),
            camera_state: "未知".into(),
            summary: "测试".into(),
            evidence: vec![],
        }),
        error: None,
        correction: None,
        correction_note: String::new(),
    }
}

fn session(start: i64, end: i64) -> Session {
    Session {
        id: "s".into(),
        started_at: start,
        ended_at: Some(end),
        interval_seconds: 60,
        task: "写脚本".into(),
        mode: "live".into(),
    }
}

#[test]
fn gaps_are_never_filled_as_work_and_stop_clips_last_sample() {
    let (t, _) = summary::bounds("2026-09-06").unwrap();
    let t = t + 9 * 3_600_000;
    let d = summary::build(
        "2026-09-06",
        "live",
        vec![sample(t, Category::Work), sample(t + 3_600_000, Category::Work)],
        vec![session(t, t + 3_610_000)],
        t + 7_200_000,
    )
    .unwrap();
    assert_eq!(d.work_seconds, 70);
    assert_eq!(d.observed_seconds, 70);
    assert_eq!(d.unobserved_seconds, 3540);
    assert_eq!(d.longest_work_seconds, 60);
}

#[test]
fn midnight_clips_and_user_corrections_take_precedence() {
    let (t, _) = summary::bounds("2026-09-06").unwrap();
    let mut a = sample(t - 20_000, Category::Distracted);
    a.correction = Some(Category::Work);
    let d = summary::build(
        "2026-09-06",
        "live",
        vec![a, sample(t + 40_000, Category::Work)],
        vec![session(t - 20_000, t + 100_000)],
        t + 200_000,
    )
    .unwrap();
    assert_eq!(d.work_seconds, 100);
    assert_eq!(d.distracted_seconds, 0);
    assert_eq!(d.longest_work_seconds, 100);
}

#[test]
fn legacy_break_records_and_corrections_count_as_interruptions_without_rewriting_data() {
    let (t, _) = summary::bounds("2026-09-09").unwrap();
    let t = t + 9 * 3_600_000;
    // A stored `break` is read as `distracted`, in a judgment and in a correction alike.
    let mut samples = vec![
        sample(t, Category::Work),
        sample(t + 60_000, Category::Distracted),
        sample(t + 120_000, Category::Work),
        sample(t + 180_000, Category::Work),
    ];
    samples[2].correction = Some(Category::Distracted);
    let d = summary::build("2026-09-09", "live", samples, vec![session(t, t + 240_000)], t + 240_000).unwrap();
    assert_eq!(d.work_seconds, 120);
    assert_eq!(d.distracted_seconds, 120);
    assert_eq!(d.observed_seconds, 240);
    assert_eq!(d.longest_work_seconds, 60);
    let metrics = flow::derived(&d.segments, &d.records).unwrap();
    assert_eq!(metrics.interruptions, 1);
    let r = &metrics.recoveries[0];
    assert_eq!((r.end - r.start) / 1000, 120);
    assert_eq!(metrics.hourly[9].distracted / 1000, 120);
    let h = metrics.hourly[9];
    assert_eq!((h.work + h.distracted + h.unknown + h.away) / 1000, 240);
    assert_eq!(d.segments[1].category, Category::Distracted);
    assert_eq!(d.records[d.segments[2].sample].correction, Some(Category::Distracted));
}

#[test]
fn small_timer_drift_joins_work_but_never_fills_gaps_or_joins_sessions() {
    let (t, _) = summary::bounds("2026-09-06").unwrap();
    let mut third = sample(t + 121_000, Category::Work);
    third.session_id = "second-session".into();
    let mut second_session = session(t + 121_000, t + 181_000);
    second_session.id = "second-session".into();
    let d = summary::build(
        "2026-09-06",
        "live",
        vec![sample(t, Category::Work), sample(t + 60_500, Category::Work), third],
        vec![session(t, t + 120_500), second_session],
        t + 181_000,
    )
    .unwrap();
    assert_eq!(d.work_seconds, 180);
    assert_eq!(d.longest_work_seconds, 120);
    assert_eq!(d.unobserved_seconds, 1);
}

#[test]
fn no_ai_result_is_unknown() {
    let (t, _) = summary::bounds("2026-09-06").unwrap();
    let mut s = sample(t, Category::Work);
    s.analysis = None;
    s.state = "pending".into();
    let d = summary::build("2026-09-06", "live", vec![s], vec![session(t, t + 120_000)], t + 120_000).unwrap();
    assert_eq!(d.unknown_seconds, 60);
    assert_eq!(d.work_seconds, 0);
    assert_eq!(d.segments.len(), 1);
}

fn reply_analysis(confidence: f64) -> Analysis {
    Analysis {
        category: Category::Work,
        confidence_bits: confidence.to_bits(),
        app_name: "文档".into(),
        screen_activity: "写稿".into(),
        camera_state: "在座".into(),
        summary: "写稿".into(),
        evidence: vec!["文档可见".into()],
    }
}

#[test]
fn malformed_ai_replies_and_unsecure_endpoints_are_rejected() {
    let reply = r#"{"category":"work","confidence":0.3,"app_name":"文档","screen_activity":"写稿","camera_state":"在座","summary":"写稿","evidence":["文档可见"]}"#;
    // The JSON object is found inside a fenced answer; its fields are then reviewed.
    assert!(ai::parse_json(&format!("```json\n{reply}\n```")).is_ok());
    let a = ai::review_analysis(reply_analysis(0.3), false).unwrap();
    assert_eq!(a.category, Category::Unknown);
    assert!(a.camera_state.contains("未启用"));
    assert!(ai::parse_json(&reply.replace("0.3", "1.3")).is_ok());
    assert!(ai::review_analysis(reply_analysis(1.3), true).is_err());
    assert!(ai::parse_json("不是JSON").is_err());
    assert!(ai::parse_json("错误的括号 } 然后 {").is_err());
    let mut s = Settings {
        base_url: "http://example.com/v1".into(),
        ..Settings::default()
    };
    assert!(ai::validate_settings(&s).is_err());
    s.base_url = "http://127.0.0.1:23456/v1".into();
    assert!(ai::validate_settings(&s).is_ok());
    assert!(ai::endpoint(&s).ends_with("/v1/chat/completions"));
}

#[test]
fn the_page_never_sees_the_key() {
    let mut s = Settings::default();
    assert!(!s.public().api_key_configured);
    s.api_key = "SECRET-REDACTED".into();
    let p = s.public();
    assert!(p.api_key_configured);
    assert_eq!((p.interval_seconds, p.judgment_ttl_seconds), (60, 120));
    assert_eq!(p.excluded_apps, s.excluded_apps);
    assert!(!format!("{p:?}").contains("SECRET-REDACTED"));
}

#[test]
fn only_an_unreadable_date_gets_the_format_message() {
    let segments = Vec::new();
    let sessions = Vec::new();
    assert_eq!(summary::build("2026-9-x", "live", segments, sessions, 0).err().unwrap(), "日期格式应为 YYYY-MM-DD");
    assert_eq!(summary::build("2026-02-30", "live", Vec::new(), Vec::new(), 0).err().unwrap(), "日期格式应为 YYYY-MM-DD");
    assert!(summary::build("2026-09-06", "live", Vec::new(), Vec::new(), 0).is_ok());
}
