use flow_insight::activity::ActivityTracker;
use flow_insight::models::{Activity, AppSwitch, Presence, PresenceRegion, PresenceState, SelectedDisplay, Session, Settings};
use flow_insight::policy::{Decision, Observation};
use flow_insight::recorder::{
    capture_frame, continue_local, extends_observation, failed_observation, follow_check, gate_analysis, observation_fresh,
    permission_refusal, reply_activity, same_local_run, select_displays, start_local, unavailable_decision, with_history,
    capture_failed, LocalWrite, RecordingStatus, SamplingLoop, StartInput,
};

fn displays() -> Vec<SelectedDisplay> {
    vec![
        SelectedDisplay { id: 1, name: "内置屏幕".into() },
        SelectedDisplay { id: 5, name: "外接屏幕".into() },
    ]
}

fn start(display_id: Option<u32>, display_ids: Option<Vec<u32>>) -> StartInput {
    StartInput { camera: false, display_id, display_ids }
}

#[test]
fn displays_default_to_all_and_bad_lists_are_refused() {
    let all = select_displays(&start(None, None), &displays(), Some(1)).unwrap();
    assert_eq!(all.iter().map(|d| d.id).collect::<Vec<_>>(), [1, 5]);
    assert_eq!(select_displays(&start(None, Some(vec![])), &displays(), Some(1)).unwrap_err(), "请至少选择一块显示器");
    assert_eq!(select_displays(&start(None, Some(vec![5, 5])), &displays(), Some(1)).unwrap_err(), "显示器选择不能重复");
    assert_eq!(
        select_displays(&start(None, Some(vec![5, 9])), &displays(), Some(1)).unwrap_err(),
        "所选显示器已断开，请刷新权限与设备状态"
    );
    let one = select_displays(&start(None, Some(vec![5])), &displays(), Some(1)).unwrap();
    assert_eq!(one[0].name, "外接屏幕");
    assert_eq!(select_displays(&start(Some(0), None), &displays(), Some(5)).unwrap()[0].id, 5);
    assert_eq!(select_displays(&start(Some(0), None), &displays(), None).unwrap_err(), "主显示器不可用");
    assert_eq!(select_displays(&start(Some(1), None), &displays(), None).unwrap()[0].id, 1);
    let many: Vec<u32> = (1..=17).collect();
    assert_eq!(select_displays(&start(None, Some(many)), &displays(), None).unwrap_err(), "一次最多记录 16 块显示器");
    assert_eq!(select_displays(&start(None, None), &vec![], None).unwrap_err(), "请至少选择一块显示器");
}

#[test]
fn permissions_are_checked_before_recording_starts() {
    assert_eq!(permission_refusal(false, false, true).unwrap(), "请先为本地程序授权屏幕录制，再开始记录；无需授权 Chrome");
    assert_eq!(permission_refusal(true, true, false).unwrap(), "请先授权本地程序使用摄像头，或取消摄像头选项");
    assert!(permission_refusal(true, false, false).is_none());
    assert!(permission_refusal(true, true, true).is_none());
}

fn session() -> Session {
    Session { id: "s".into(), started_at: 1000, ended_at: None, interval_seconds: 60, task: "写稿".into(), mode: "live".into() }
}

fn region() -> PresenceRegion {
    PresenceRegion { kind: "face".into(), x_bits: 0, y_bits: 0, w_bits: 0.5f64.to_bits(), h_bits: 0.5f64.to_bits(), confidence_bits: 0 }
}

fn observation(at: i64, app: &str) -> Observation {
    Observation {
        captured_at: at,
        activity: Activity { bundle_id: app.into(), window_title: "文档".into(), ..Default::default() },
        presence: Presence { state: PresenceState::Present, ..Default::default() },
        ..Default::default()
    }
}

fn decision(analyze: bool, away: bool, reason: &str) -> Decision {
    Decision { analyze, away, reason: reason.into(), next_check_seconds: 5 }
}

#[test]
fn the_status_follows_start_checks_failures_and_stop() {
    let mut s = RecordingStatus::started(session(), true, displays());
    assert!(s.running);
    assert_eq!(s.display_id, 1);
    assert_eq!(s.display_ids, [1, 5]);
    assert_eq!(s.start_refusal().unwrap(), "后台已经在记录，请先停止");
    let mut o = observation(5000, "editor");
    o.camera_active = true;
    o.camera_device = "FaceTime".into();
    s.note_check(&o, &decision(true, false, "started"), (0..10).map(|_| region()).collect());
    assert_eq!(s.local_checks, 1);
    assert_eq!(s.presence_regions.len(), 8);
    assert_eq!(s.camera_device, "FaceTime");
    o.camera_active = false;
    s.note_check(&o, &decision(false, false, "waiting"), vec![]);
    assert_eq!(s.camera_device, "");
    assert_eq!(s.scheduling.as_ref().unwrap().reason, "waiting");
    s.note_capture(6000, decision(true, false, "started"), Some("x".into()));
    assert_eq!((s.last_capture, s.screen_captures, s.analyses_scheduled), (Some(6000), 1, 1));
    assert_eq!(s.error.as_deref(), Some("x"));
    s.mark_unavailable();
    assert_eq!(s.error.as_deref(), Some("本地观察暂不可用，未延长任何状态时长；正在重试"));
    assert_eq!(s.scheduling.as_ref().unwrap().reason, "unavailable");
    assert_eq!(s.presence.state, PresenceState::Unknown);
    assert_eq!(s.clear_stopped_state().unwrap_err(), "请先暂停记录，再清空数据");
    s.stopped(9000);
    assert!(!s.running && !s.camera_active);
    assert_eq!(s.session.as_ref().unwrap().ended_at, Some(9000));
    s.stopped(10_000);
    assert_eq!(s.session.as_ref().unwrap().ended_at, Some(9000));
    s.clear_stopped_state().unwrap();
    assert!(s.session.is_none() && s.displays.is_empty() && s.local_checks == 0);
}

#[test]
fn a_check_is_usable_only_when_recent() {
    assert!(observation_fresh(100_000, 100_000));
    assert!(observation_fresh(103_000, 100_000));
    assert!(!observation_fresh(103_001, 100_000));
    assert!(observation_fresh(85_001, 100_000));
    assert!(!observation_fresh(85_000, 100_000));
    assert!(!observation_fresh(i64::MIN, i64::MAX));
    let f = failed_observation(42);
    assert_eq!(f.captured_at, 42);
    assert!(f.blocked_reason.is_none());
    assert_eq!(unavailable_decision().reason, "unavailable");
}

#[test]
fn a_due_analysis_waits_for_a_key_and_a_free_slot() {
    let with_key = Settings { api_key: "k".into(), ..Default::default() };
    let no_key = Settings::default();
    assert_eq!(gate_analysis(decision(true, false, "started"), &no_key, true).reason, "model_unavailable");
    assert!(!gate_analysis(decision(true, false, "started"), &no_key, true).analyze);
    assert_eq!(gate_analysis(decision(true, false, "started"), &with_key, false).reason, "model_busy");
    let d = gate_analysis(decision(true, false, "periodic"), &with_key, true);
    assert!(d.analyze && d.reason == "periodic");
    assert_eq!(gate_analysis(decision(false, false, "waiting"), &no_key, false).reason, "waiting");
}

#[test]
fn the_context_follows_checks_and_restarts_at_a_screenshot() {
    let mut t = ActivityTracker::default();
    follow_check(&mut t, &observation(0, "editor"), &decision(true, false, "started"), &vec![]);
    follow_check(&mut t, &observation(5000, "editor"), &decision(false, false, "waiting"), &vec![]);
    assert_eq!(t.history().unwrap().input_checkpoints.len(), 2);
    follow_check(&mut t, &observation(10_000, "editor"), &decision(false, true, "away"), &vec![]);
    assert!(t.history().is_none());
    let observed = Activity {
        switches: vec![AppSwitch { at: 1, app_name: "a".into(), bundle_id: "a".into() }],
        observed_since: 7,
        ..Default::default()
    };
    let reply = Activity {
        bundle_id: "b".into(),
        switches: vec![AppSwitch { at: 2, app_name: "b".into(), bundle_id: "b".into() }],
        ..Default::default()
    };
    let merged = reply_activity(observed.clone(), Some(reply));
    assert_eq!(merged.switches.iter().map(|s| s.at).collect::<Vec<_>>(), [1, 2]);
    assert_eq!(merged.observed_since, 7);
    assert_eq!(merged.bundle_id, "b");
    assert_eq!(reply_activity(observed.clone(), None).observed_since, 7);
    let mut t = ActivityTracker::default();
    t.observe(0, &observation(0, "b").activity, &vec![]);
    let a = with_history(merged, 5000, &mut t, &vec![]);
    let h = a.history.as_ref().unwrap();
    assert_eq!(a.observed_since, h.start);
    assert_eq!(a.switches.len(), h.switches.len());
    assert_eq!(h.switches.iter().map(|s| s.at).collect::<Vec<_>>(), [1, 2]);
    let hidden = with_history(observation(6000, "secret").activity, 6000, &mut t, &vec!["secret".to_string()]);
    assert!(hidden.history.is_none() && hidden.switches.is_empty() && hidden.observed_since == 6000);
}

#[test]
fn a_screenshot_reply_becomes_an_upload() {
    let frame = capture_frame(vec![], Activity::default(), &decision(true, false, "periodic"), Presence::default(), None,
        "id".into(), "s".into(), 9000, None, None);
    let e = frame.evidence.unwrap();
    assert_eq!((e.basis.as_str(), e.trigger.as_str(), e.away, e.valid_until), ("ai", "periodic", false, 9000));
    assert_eq!(frame.capture_source, "本机屏幕");
    assert_eq!(frame.screen, "");
    assert!(frame.camera.is_none());
}

#[test]
fn local_checks_extend_one_record_while_nothing_changes() {
    let d = decision(false, false, "waiting");
    let first = start_local(observation(10_000, "editor"), &d, &session(), "a".into());
    assert_eq!(first.state, "local");
    assert_eq!(first.capture_source, "本地观察 · 无图片上传");
    assert_eq!(first.evidence.as_ref().unwrap().valid_until, 10_000);
    assert_eq!(first.interval_seconds, 5);
    let previous = Some(first);
    assert!(same_local_run(&previous, &observation(15_000, "editor"), &d));
    assert!(!same_local_run(&previous, &observation(15_000, "browser"), &d));
    assert!(!same_local_run(&previous, &observation(20_001, "editor"), &d));
    assert!(!same_local_run(&previous, &observation(15_000, "editor"), &decision(false, true, "away")));
    assert!(!same_local_run(&None, &observation(15_000, "editor"), &d));
    assert!(extends_observation(&previous, 20_000));
    assert!(!extends_observation(&previous, 20_001));
    assert!(!extends_observation(&previous, 9_999));
    let mut next = observation(15_000, "editor");
    next.activity.switches = vec![AppSwitch { at: 12_000, app_name: "x".into(), bundle_id: "x".into() }];
    next.activity.idle_seconds_bits = 3.0f64.to_bits();
    let continued = continue_local(previous.unwrap(), next);
    assert_eq!(continued.evidence.as_ref().unwrap().valid_until, 15_000);
    assert_eq!(continued.activity.switches.len(), 1);
    assert_eq!(f64::from_bits(continued.activity.idle_seconds_bits), 3.0);
    assert_eq!(continued.captured_at, 10_000);
    let early = start_local(observation(500, "editor"), &d, &session(), "b".into());
    assert_eq!(early.captured_at, 1000);
    let away = start_local(observation(500, "editor"), &decision(false, true, "away"), &session(), "c".into());
    assert!(away.is_away());
}

#[test]
fn only_screen_and_camera_permissions_can_be_requested() {
    assert!(flow_insight::recorder::permission_kind_valid("screen"));
    assert!(flow_insight::recorder::permission_kind_valid("camera"));
    assert!(!flow_insight::recorder::permission_kind_valid("microphone"));
}

#[test]
fn the_sampling_loop_decides_what_each_check_leaves_behind() {
    let mut settings = Settings::default();
    settings.api_key = "k".into();
    let mut state = SamplingLoop::new();
    // The first check is analysed; the status shows the scheduler's own decision.
    let (seen, acted) = state.check(&observation(2000, "editor"), &vec![], &settings, true);
    assert!(seen.analyze && acted.analyze);
    assert_eq!(acted.reason, "started");
    // No model slot: the analysis is held back.
    let mut busy = SamplingLoop::new();
    let (_, held) = busy.check(&observation(2000, "editor"), &vec![], &settings, false);
    assert!(!held.analyze);
    assert_eq!(held.reason, "model_busy");
    // A failed screenshot keeps the decision under another reason.
    let failed = capture_failed(acted);
    assert_eq!(failed.reason, "capture_failed");
    // A local record is written fresh, then continued by the next matching check.
    let d = decision(false, false, "waiting");
    let first = match state.local_write(observation(7000, "editor"), &d, &session(), "a".into()) {
        LocalWrite::Fresh { record, extend } => {
            assert!(!extend);
            record
        }
        LocalWrite::Continue(_) => panic!("nothing to continue"),
    };
    assert_eq!((first.id.as_str(), first.state.as_str()), ("a", "local"));
    state.stored(first);
    match state.local_write(observation(12000, "editor"), &d, &session(), "b".into()) {
        LocalWrite::Continue(record) => {
            assert_eq!(record.id, "a");
            assert_eq!(record.evidence.unwrap().valid_until, 12000);
        }
        LocalWrite::Fresh { .. } => panic!("the check continues the record"),
    }
    assert!(state.previous.is_none());
    // A failed check forgets the context and the previous record and leaves a fault record.
    state.stored(start_local(observation(12000, "editor"), &d, &session(), "c".into()));
    let fault = state.check_failed(&session(), 15000, "f".into());
    assert!(state.previous.is_none() && state.tracker.history().is_none());
    assert_eq!(fault.evidence.as_ref().unwrap().trigger, "unavailable");
    assert_eq!((fault.captured_at, fault.evidence.unwrap().valid_until), (15000, 15000));
    // A stored screenshot becomes the previous record; the one before it is extended when
    // it ends within the gap.
    state.stored(start_local(observation(16000, "editor"), &d, &session(), "g".into()));
    let mut shot = start_local(observation(20000, "editor"), &d, &session(), "h".into());
    shot.state = "queued".into();
    let former = state.captured(shot, &vec![]);
    assert_eq!(former.unwrap().id, "g");
    assert_eq!(state.previous.as_ref().unwrap().id, "h");
    assert_eq!(state.tracker.history().unwrap().start, 20000);
}
