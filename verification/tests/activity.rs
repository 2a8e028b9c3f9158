use flow_insight::activity::ActivityTracker;
use flow_insight::models::{Activity, AppSwitch};

fn activity(app: &str) -> Activity {
    Activity {
        app_name: app.into(),
        bundle_id: app.into(),
        ..Default::default()
    }
}

fn switched(at: i64, app: &str) -> AppSwitch {
    AppSwitch {
        at,
        app_name: app.into(),
        bundle_id: app.into(),
    }
}

fn none() -> Vec<String> {
    Vec::new()
}

#[test]
fn brief_chat_between_polls_survives_the_whole_minute() {
    let mut tracker = ActivityTracker::default();
    tracker.observe(0, &activity("editor"), &none());
    let mut a = activity("editor");
    a.switches = vec![switched(1000, "wechat"), switched(3000, "editor")];
    tracker.observe(5000, &a, &none());
    for at in (10000..=60000).step_by(5000) {
        tracker.observe(at, &activity("editor"), &none());
    }
    let h = tracker.history().unwrap();
    assert_eq!(h.switches.len(), 2);
    assert_eq!(h.app_spans.len(), 3);
    assert_eq!(h.app_spans[1].bundle_id, "wechat");
    assert_eq!(h.app_spans[1].end - h.app_spans[1].start, 2000);
    assert_eq!(h.start, 0);
    assert_eq!(h.end, 60000);
    let mut captured = activity("editor");
    captured.history = Some(h);
    let kept = captured.clone();
    assert_eq!(kept.history.unwrap().switches.len(), 2);
    tracker.begin_after_capture(60000, &captured, &none());
    assert!(tracker.history().unwrap().switches.is_empty());
}

#[test]
fn privacy_boundaries_and_gaps_discard_old_context() {
    let mut t = ActivityTracker::default();
    t.observe(0, &activity("editor"), &none());
    let mut a = activity("editor");
    a.switches = vec![switched(1000, "private"), switched(2000, "editor")];
    t.observe(5000, &a, &vec!["private".to_string()]);
    assert!(t.history().is_none());
    t.observe(10000, &activity("editor"), &none());
    t.observe(30000, &activity("browser"), &none());
    assert_eq!(t.history().unwrap().start, 30000);
    t.clear();
    assert!(t.history().is_none());
}

#[test]
fn input_is_idle_checkpoints_and_retention_is_bounded() {
    let mut t = ActivityTracker::default();
    for at in (0..=900000).step_by(5000) {
        let mut a = activity("editor");
        a.idle_seconds_bits = (at as f64 / 1000.0).to_bits();
        t.observe(at, &a, &none());
    }
    let h = t.history().unwrap();
    assert!(h.truncated);
    assert!(h.input_checkpoints.len() <= 120);
    assert!(h.end - h.start <= 600000);
    assert_eq!(f64::from_bits(h.input_checkpoints.last().unwrap().idle_seconds_bits), 900.0);
}

#[test]
fn duplicate_events_and_missed_notifications_do_not_double_count_dwell() {
    let mut t = ActivityTracker::default();
    t.observe(0, &activity("editor"), &none());
    let mut a = activity("browser");
    a.switches = vec![switched(2000, "browser"), switched(2000, "browser")];
    t.observe(5000, &a, &none());
    t.observe(10000, &activity("editor"), &none());
    let h = t.history().unwrap();
    assert_eq!(h.switches.len(), 1);
    assert_eq!(h.app_spans.iter().map(|s| s.end - s.start).sum::<i64>(), 10000);
}

#[test]
fn negative_and_unreadable_idle_times_become_zero_checkpoints() {
    let mut t = ActivityTracker::default();
    let mut a = activity("editor");
    a.idle_seconds_bits = (-3.0f64).to_bits();
    t.observe(0, &a, &none());
    a.idle_seconds_bits = f64::NAN.to_bits();
    t.observe(5000, &a, &none());
    let h = t.history().unwrap();
    assert_eq!(h.input_checkpoints.len(), 2);
    assert_eq!(f64::from_bits(h.input_checkpoints[0].idle_seconds_bits), 0.0);
    assert_eq!(f64::from_bits(h.input_checkpoints[1].idle_seconds_bits), 0.0);
}

#[test]
fn a_clock_that_goes_back_starts_the_context_afresh() {
    let mut t = ActivityTracker::default();
    t.observe(10_000, &activity("editor"), &none());
    t.observe(15_000, &activity("browser"), &none());
    t.observe(12_000, &activity("editor"), &none());
    let h = t.history().unwrap();
    assert_eq!(h.start, 12_000);
    assert_eq!(h.input_checkpoints.len(), 1);
    assert!(h.app_spans.is_empty());
}

#[test]
fn kept_readings_are_clean_and_dwell_adds_up_from_start_to_end() {
    let mut tracker = ActivityTracker::default();
    let mut a = activity("editor");
    a.idle_seconds_bits = f64::NAN.to_bits();
    tracker.observe(0, &a, &none());
    let mut b = activity("editor");
    b.idle_seconds_bits = (-3.0f64).to_bits();
    b.switches = vec![switched(1000, "chat"), switched(1000, "chat"), switched(2000, "editor")];
    tracker.observe(5000, &b, &none());
    let h = tracker.history().unwrap();
    assert!(h.input_checkpoints.iter().all(|p| f64::from_bits(p.idle_seconds_bits) == 0.0));
    assert_eq!(h.switches.len(), 2);
    assert_eq!(h.app_spans.first().unwrap().start, h.start);
    assert_eq!(h.app_spans.last().unwrap().end, h.end);
    for w in h.app_spans.windows(2) {
        assert_eq!(w[0].end, w[1].start);
    }
    assert_eq!(h.app_spans.iter().map(|s| s.end - s.start).sum::<i64>(), 5000);
}

#[test]
fn starting_afresh_keeps_one_reading_and_no_dwell() {
    let mut tracker = ActivityTracker::default();
    tracker.observe(0, &activity("editor"), &none());
    let mut a = activity("editor");
    a.switches = vec![switched(1000, "chat"), switched(2000, "editor")];
    tracker.observe(5000, &a, &none());
    tracker.begin_after_capture(6000, &a, &none());
    let h = tracker.history().unwrap();
    assert_eq!((h.start, h.end), (6000, 6000));
    assert!(h.switches.is_empty() && h.app_spans.is_empty());
    assert_eq!(h.input_checkpoints.len(), 1);
}
