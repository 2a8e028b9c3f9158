use flow_insight::api::{
    admit_request, analysis_paused, apply_correction, begin_report, claim_analysis, cleanup_cutoff, close_session,
    correction_refusal, count_outstanding, finish_report, mark_analyzing, mark_skipped, media_file, merge_settings,
    open_session, parse_u32, pending_for_queue, preview_picture, preview_refusal, queue_step, record_analysis,
    report_due, report_key, report_refusal, QueueStep, ReportReply, ReportStart, SettingsInput,
};
use flow_insight::models::{Activity, Analysis, CaptureEvidence, Category, Presence, Report, Sample, ScreenCapture, Session, Settings};
use flow_insight::policy::Decision;
use flow_insight::recorder::RecordingStatus;
use flow_insight::summary::{Day, Segment, StateCount};

fn session(id: &str, ended: Option<i64>) -> Session {
    Session { id: id.into(), started_at: 0, ended_at: ended, interval_seconds: 60, task: String::new(), mode: "live".into() }
}

fn record(state: &str) -> Sample {
    Sample {
        screens: vec![],
        evidence: None,
        activity: Activity::default(),
        capture_warning: None,
        id: "r".into(),
        session_id: "s".into(),
        captured_at: 0,
        interval_seconds: 60,
        mode: "live".into(),
        task: String::new(),
        screen: Some("r-screen-0.jpg".into()),
        camera: None,
        capture_source: "test".into(),
        state: state.into(),
        analysis: None,
        error: Some("old".into()),
        correction: None,
        correction_note: String::new(),
    }
}

fn keyed() -> Settings {
    Settings { api_key: "k".into(), ..Default::default() }
}

#[test]
fn only_one_session_may_be_open() {
    let s = open_session(&vec![session("a", Some(5))], "任务".into(), "b".into(), 77).unwrap();
    assert_eq!((s.id.as_str(), s.started_at, s.ended_at, s.interval_seconds, s.mode.as_str()), ("b", 77, None, 60, "live"));
    assert_eq!(
        open_session(&vec![session("a", None)], String::new(), "b".into(), 77).unwrap_err(),
        "已有记录会话，请先停止或结束遗留会话"
    );
    assert_eq!(close_session(session("a", None), 9).ended_at, Some(9));
    assert_eq!(close_session(session("a", Some(3)), 9).ended_at, Some(3));
}

#[test]
fn the_queue_takes_pictures_only_and_at_most_eight() {
    let pending = record("pending");
    match queue_step(&pending, &keyed(), 7) {
        QueueStep::Claim => {}
        other => panic!("{other:?}"),
    }
    assert!(matches!(queue_step(&pending, &keyed(), 8), QueueStep::Leave));
    assert!(matches!(queue_step(&pending, &Settings::default(), 0), QueueStep::Leave));
    let mut local = record("local");
    local.evidence = Some(CaptureEvidence { basis: "local".into(), trigger: "waiting".into(), presence: Presence::default(), away: false, valid_until: 0 });
    match queue_step(&local, &keyed(), 0) {
        QueueStep::Refuse(m) => assert_eq!(m, "这段只有本地观察，没有可交给 AI 的屏幕画面"),
        other => panic!("{other:?}"),
    }
    let mut bare = record("pending");
    bare.screen = None;
    assert!(matches!(queue_step(&bare, &keyed(), 0), QueueStep::Refuse(_)));
    assert_eq!(count_outstanding(&vec![record("queued"), record("analyzing"), record("done"), record("pending")]), 2);
}

#[test]
fn claims_skips_and_answers_change_the_record_state() {
    let mut s = record("pending");
    assert!(claim_analysis(&mut s));
    assert_eq!(s.state, "queued");
    assert!(s.error.is_none());
    assert!(!claim_analysis(&mut s));
    let mut other = record("done");
    other.mode = "demo".into();
    assert!(!claim_analysis(&mut other));
    mark_skipped(&mut s);
    assert_eq!(s.state, "skipped");
    assert_eq!(s.error.as_deref(), Some("离席或暂停期间未发送排队的分析；可手动重试"));
    mark_analyzing(&mut s);
    assert_eq!(s.state, "analyzing");
    record_analysis(&mut s, Err("超时".into()));
    assert_eq!((s.state.as_str(), s.error.as_deref()), ("error", Some("超时")));
    let a = Analysis { category: Category::Work, confidence_bits: 0.9f64.to_bits(), app_name: String::new(), screen_activity: String::new(), camera_state: String::new(), summary: String::new(), evidence: vec![] };
    record_analysis(&mut s, Ok(a));
    assert_eq!(s.state, "done");
    assert!(s.error.is_none() && s.analysis.is_some());
}

#[test]
fn queued_analyses_wait_while_away_or_paused() {
    let mut status = RecordingStatus::default();
    status.scheduling = Some(Decision { analyze: false, away: true, reason: "away".into(), next_check_seconds: 0 });
    assert!(!analysis_paused(&status));
    status.running = true;
    assert!(analysis_paused(&status));
    status.scheduling = Some(Decision { analyze: false, away: false, reason: "locked".into(), next_check_seconds: 0 });
    assert!(analysis_paused(&status));
    status.scheduling = Some(Decision { analyze: false, away: false, reason: "unavailable".into(), next_check_seconds: 0 });
    assert!(!analysis_paused(&status));
}

fn day(segments: usize, counts: Vec<(&str, u32)>) -> Day {
    Day {
        date: "2026-09-06".into(),
        mode: "live".into(),
        records: vec![record("done")],
        segments: (0..segments).map(|i| Segment { start: i as i64, end: i as i64 + 1, category: Category::Work, sample: 0, estimated_from: None }).collect(),
        counts: counts.into_iter().map(|(state, count)| StateCount { state: state.into(), count }).collect(),
        work_seconds: 0,
        distracted_seconds: 0,
        away_seconds: 0,
        local_seconds: 0,
        ai_observed_seconds: 0,
        unknown_seconds: 0,
        observed_seconds: 0,
        unobserved_seconds: 0,
        longest_work_seconds: 0,
    }
}

fn report(state: &str) -> Report {
    Report {
        date: "2026-09-06".into(),
        mode: "live".into(),
        state: state.into(),
        headline: String::new(),
        observations: vec![],
        suggestions: vec![],
        generated_at: 1,
        fingerprint: "f".into(),
        error: None,
    }
}

#[test]
fn reports_need_live_data_a_key_segments_and_finished_analyses() {
    assert_eq!(report_refusal("demo", &keyed()).unwrap(), "无效的数据类型");
    assert_eq!(report_refusal("live", &Settings::default()).unwrap(), "请配置 AI API Key；本地观察仍可使用");
    assert!(report_refusal("live", &keyed()).is_none());
    assert_eq!(begin_report("2026-09-06", "live", &day(0, vec![]), &None, "f".into(), 5).unwrap_err(), "当天还没有采样记录");
    assert!(matches!(begin_report("2026-09-06", "live", &day(1, vec![]), &Some(report("generating")), "f".into(), 5).unwrap(), ReportStart::Running));
    assert_eq!(
        begin_report("2026-09-06", "live", &day(1, vec![("done", 3), ("queued", 1)]), &Some(report("done")), "f".into(), 5).unwrap_err(),
        "还有片段未完成分析，请先完成或重试分析"
    );
    match begin_report("2026-09-06", "live", &day(1, vec![("done", 3), ("pending", 0)]), &None, "fp".into(), 5).unwrap() {
        ReportStart::Begin(r) => {
            assert_eq!((r.state.as_str(), r.generated_at, r.fingerprint.as_str()), ("generating", 5, "fp"));
            assert!(r.headline.is_empty() && r.observations.is_empty());
        }
        ReportStart::Running => panic!("expected a new report"),
    }
    assert_eq!(report_key("live", "2026-09-06"), "live:2026-09-06");
}

#[test]
fn a_report_is_done_only_with_a_valid_answer() {
    let texts = |n: usize, len: usize| Some((0..n).map(|_| Some("字".repeat(len))).collect::<Vec<_>>());
    let ok = finish_report(report("generating"), Ok(ReportReply { headline: Some("好".into()), observations: texts(5, 500), suggestions: texts(1, 10) }), 9);
    assert_eq!(ok.state, "done");
    assert_eq!(ok.observations.len(), 3);
    assert_eq!(ok.suggestions.len(), 1);
    assert_eq!(ok.generated_at, 9);
    let long = finish_report(report("generating"), Ok(ReportReply { headline: Some("好".into()), observations: texts(2, 501), suggestions: texts(1, 1) }), 9);
    assert_eq!(long.state, "error");
    assert_eq!(long.error.as_deref(), Some("AI 日报格式无效，请重试"));
    let late = Some(vec![Some("a".into()), Some("b".into()), Some("c".into()), None]);
    assert_eq!(finish_report(report("generating"), Ok(ReportReply { headline: Some("h".into()), observations: late, suggestions: Some(vec![]) }), 9).state, "done");
    let missing = finish_report(report("generating"), Ok(ReportReply { headline: None, observations: texts(1, 1), suggestions: texts(1, 1) }), 9);
    assert_eq!(missing.state, "error");
    let failed = finish_report(report("generating"), Err("超时".into()), 9);
    assert_eq!((failed.state.as_str(), failed.error.as_deref()), ("error", Some("超时")));
}

#[test]
fn the_scheduler_queues_pending_records_cleans_hourly_and_reports_daily() {
    let mut samples: Vec<Sample> = (0..10).map(|_| record("pending")).collect();
    samples[0].mode = "demo".into();
    samples[1].state = "done".into();
    let picked = pending_for_queue(&samples, &keyed());
    assert_eq!(picked, [2, 3, 4, 5, 6, 7, 8, 9]);
    assert!(pending_for_queue(&samples, &Settings::default()).is_empty());
    let s = keyed();
    assert_eq!(cleanup_cutoff(10_000_000, 0, false, true, &vec![], &s), Some(10_000_000 - 7 * 86_400_000));
    assert_eq!(cleanup_cutoff(3_599_999, 0, false, true, &vec![], &s), None);
    assert_eq!(cleanup_cutoff(10_000_000, 0, true, true, &vec![], &s), None);
    assert_eq!(cleanup_cutoff(10_000_000, 0, false, false, &vec![], &s), None);
    assert_eq!(cleanup_cutoff(10_000_000, 0, false, true, &vec![record("queued")], &s), None);
    assert!(report_due(20, &s, false));
    assert!(!report_due(19, &s, false));
    assert!(!report_due(21, &s, true));
    assert!(!report_due(21, &Settings::default(), false));
}

#[test]
fn the_camera_preview_answers_only_from_a_running_camera() {
    let mut status = RecordingStatus::default();
    assert_eq!(preview_refusal(&status).unwrap(), (409, "当前记录没有启用摄像头".to_string()));
    status.running = true;
    status.camera = true;
    assert_eq!(preview_refusal(&status).unwrap(), (404, "摄像头未运行".to_string()));
    status.camera_active = true;
    assert!(preview_refusal(&status).is_none());
    assert_eq!(preview_picture(None, Some("暂停")).unwrap_err(), (404, "暂停".to_string()));
    assert_eq!(preview_picture(None, None).unwrap_err(), (404, "暂无新画面".to_string()));
    assert_eq!(preview_picture(Some("data:image/gif;base64,AA=="), None).unwrap_err().1, "预览图片格式无效");
    assert_eq!(preview_picture(Some("data:image/png;base64,@@"), None).unwrap_err().1, "预览图片编码无效");
    let big = format!("data:image/jpeg;base64,{}", "A".repeat(400_004));
    assert_eq!(preview_picture(Some(&big), None).unwrap_err().1, "预览图片过大");
    let (mime, bytes) = preview_picture(Some("data:image/jpeg;base64,AAEC"), None).unwrap();
    assert_eq!((mime, bytes), ("image/jpeg", vec![0, 1, 2]));
    assert_eq!(preview_picture(Some("data:image/png;base64,AAEC"), None).unwrap().0, "image/png");
}

#[test]
fn requests_from_elsewhere_are_refused() {
    assert!(admit_request(17901, Some("127.0.0.1:17901"), None, true, None).is_none());
    assert!(admit_request(17901, Some("localhost:17901"), Some(Some("http://localhost:17901")), false, Some("web")).is_none());
    assert_eq!(admit_request(17901, Some("evil.example:17901"), None, true, None).unwrap(), "只接受本机访问");
    assert_eq!(admit_request(17901, None, None, true, None).unwrap(), "只接受本机访问");
    assert_eq!(admit_request(17901, Some("127.0.0.1:17901"), Some(Some("http://evil.example")), true, None).unwrap(), "跨站请求被拒绝");
    assert_eq!(admit_request(17901, Some("127.0.0.1:17901"), Some(None), true, None).unwrap(), "跨站请求被拒绝");
    assert_eq!(admit_request(17901, Some("127.0.0.1:17901"), None, false, None).unwrap(), "请求缺少客户端标识");
    assert_eq!(admit_request(17901, Some("127.0.0.1:17901"), None, false, Some("curl")).unwrap(), "请求缺少客户端标识");
}

#[test]
fn numbers_read_as_str_parse_reads_them() {
    assert_eq!(parse_u32("5"), Some(5));
    assert_eq!(parse_u32("+5"), Some(5));
    assert_eq!(parse_u32("4294967295"), Some(u32::MAX));
    assert_eq!(parse_u32("4294967296"), None);
    assert_eq!(parse_u32("99999999999999999999"), None);
    for bad in ["", "+", "-5", "5a", " 5"] {
        assert_eq!(parse_u32(bad), None, "{bad}");
        assert_eq!(parse_u32(bad), bad.parse::<u32>().ok(), "{bad}");
    }
}

#[test]
fn media_names_each_picture_of_a_record() {
    let mut s = record("done");
    s.screen = None;
    s.screens = vec![
        ScreenCapture { display_id: 1, display_name: "a".into(), captured_at: 0, file: Some("r-screen-1.jpg".into()), error: None },
        ScreenCapture { display_id: 5, display_name: "b".into(), captured_at: 0, file: None, error: Some("断开".into()) },
    ];
    assert_eq!(media_file(&s, "screen").unwrap(), "r-screen-1.jpg");
    assert_eq!(media_file(&s, "screen-1").unwrap(), "r-screen-1.jpg");
    assert_eq!(media_file(&s, "screen-5").unwrap_err(), "该记录没有这张图片");
    assert_eq!(media_file(&s, "screen-x").unwrap_err(), "该记录没有这张图片");
    assert_eq!(media_file(&s, "camera").unwrap_err(), "该记录没有这张图片");
    assert_eq!(media_file(&s, "audio").unwrap_err(), "无效的图片类型");
    let legacy = record("done");
    assert_eq!(media_file(&legacy, "screen").unwrap(), "r-screen-0.jpg");
}

#[test]
fn corrections_replace_category_and_note() {
    assert_eq!(correction_refusal(&"字".repeat(501)).unwrap(), "纠正说明最多 500 字");
    assert!(correction_refusal(&"字".repeat(500)).is_none());
    let mut s = record("done");
    apply_correction(&mut s, Some(Category::Distracted), "看视频".into());
    assert_eq!(s.correction, Some(Category::Distracted));
    assert_eq!(s.correction_note, "看视频");
    apply_correction(&mut s, None, String::new());
    assert!(s.correction.is_none());
}

fn settings_input(base_url: &str) -> SettingsInput {
    SettingsInput {
        base_url: base_url.into(),
        model: " qwen ".into(),
        api_key: None,
        clear_api_key: false,
        task: " 写稿 ".into(),
        report_hour: 20,
        reminders: None,
        reminder_minutes: Some(5),
        daily_goal_minutes: None,
        retention_days: None,
        excluded_apps: None,
    }
}

#[test]
fn a_kept_key_cannot_follow_a_new_provider() {
    let saved = Settings { api_key: "old-key".into(), task: "写稿".into(), ..Default::default() };
    let same = merge_settings(&saved, settings_input(" https://dashscope.aliyuncs.com/other/v1 "), false).unwrap();
    assert_eq!(same.api_key, "old-key");
    assert_eq!(same.base_url, "https://dashscope.aliyuncs.com/other/v1");
    assert_eq!(same.model, "qwen");
    assert_eq!(same.reminder_minutes, 5);
    assert_eq!(
        merge_settings(&saved, settings_input("https://api.deepseek.com"), false).unwrap_err(),
        "更换 API 服务地址时，请填写对应服务的 API Key"
    );
    let mut with_key = settings_input("https://api.deepseek.com");
    with_key.api_key = Some("  new-key ".into());
    assert_eq!(merge_settings(&saved, with_key, false).unwrap().api_key, "new-key");
    let mut cleared = settings_input("https://api.deepseek.com");
    cleared.clear_api_key = true;
    assert_eq!(merge_settings(&saved, cleared, false).unwrap().api_key, "");
    let mut blank_key = settings_input("https://api.deepseek.com");
    blank_key.api_key = Some("   ".into());
    assert!(merge_settings(&saved, blank_key, false).is_err());
    let mut task = settings_input("https://dashscope.aliyuncs.com/compatible-mode/v1");
    task.task = "新任务".into();
    assert_eq!(merge_settings(&saved, task, true).unwrap_err(), "请先暂停记录，再修改任务描述或排除应用");
    let mut apps = settings_input("https://dashscope.aliyuncs.com/compatible-mode/v1");
    apps.excluded_apps = Some(vec!["x".into()]);
    assert_eq!(merge_settings(&saved, apps, true).unwrap_err(), "请先暂停记录，再修改任务描述或排除应用");
    assert!(merge_settings(&saved, settings_input("https://dashscope.aliyuncs.com/compatible-mode/v1"), true).is_ok());
    let mut bad_hour = settings_input("https://dashscope.aliyuncs.com/compatible-mode/v1");
    bad_hour.report_hour = 24;
    assert_eq!(merge_settings(&saved, bad_hour, false).unwrap_err(), "报告时间为 0–23 点；任务描述最多 2000 字");
    let insecure = Settings { api_key: String::new(), ..Default::default() };
    assert_eq!(merge_settings(&insecure, settings_input("http://example.com/v1"), false).unwrap_err(), "远程 API 请使用 HTTPS；本机接口可使用 HTTP");
}
