use flow_insight::flow::{self, ReminderState};
use flow_insight::models::{Activity, Analysis, Category, Sample};
use flow_insight::summary::{self, Segment};

fn record(start: i64, seconds: u32, c: Category) -> Sample {
    Sample {
        evidence: None,
        id: start.to_string(),
        session_id: "session".into(),
        captured_at: start,
        interval_seconds: seconds,
        mode: "live".into(),
        task: "工作".into(),
        screens: vec![],
        screen: None,
        camera: None,
        capture_source: "合成数据".into(),
        state: "done".into(),
        analysis: Some(Analysis {
            category: c,
            confidence_bits: 0.9f64.to_bits(),
            app_name: "test".into(),
            screen_activity: "test".into(),
            camera_state: "无摄像头".into(),
            summary: "test".into(),
            evidence: vec![],
        }),
        error: None,
        correction: None,
        correction_note: String::new(),
        activity: Activity::default(),
        capture_warning: None,
    }
}

fn segments(parts: &[(i64, u32, Category)]) -> (Vec<Segment>, Vec<Sample>) {
    let mut segs = Vec::new();
    let mut records = Vec::new();
    for (i, &(start, seconds, c)) in parts.iter().enumerate() {
        records.push(record(start, seconds, c));
        segs.push(Segment {
            start,
            end: start + seconds as i64 * 1000,
            category: c,
            sample: i,
            estimated_from: None,
        });
    }
    (segs, records)
}

#[test]
fn interruption_counts_runs_not_frames_and_unknown_breaks_recovery() {
    let t = 1_000_000;
    let (s, r) = segments(&[
        (t, 60, Category::Work),
        (t + 60_000, 60, Category::Distracted),
        (t + 120_000, 60, Category::Distracted),
        (t + 180_000, 60, Category::Work),
        (t + 240_000, 60, Category::Distracted),
        (t + 300_000, 60, Category::Unknown),
        (t + 360_000, 60, Category::Work),
    ]);
    let d = flow::derived(&s, &r).unwrap();
    assert_eq!(d.interruptions, 2);
    assert_eq!(d.recoveries.len(), 1);
    assert_eq!((d.recoveries[0].end - d.recoveries[0].start) / 1000, 120);
}

#[test]
fn gaps_and_sessions_never_count_as_continuous_distraction() {
    let (mut s, mut r) = segments(&[
        (100_000, 60, Category::Distracted),
        (160_000, 60, Category::Distracted),
        (220_000, 60, Category::Distracted),
    ]);
    assert!(flow::should_remind(&s, &r, 280_000, 180));
    assert!(!flow::should_remind(&s, &r, 600_000, 180));
    s[2].start += 10_000;
    assert!(!flow::should_remind(&s, &r, 280_000, 180));
    s[2].start -= 10_000;
    r[2].session_id = "another".into();
    assert!(!flow::should_remind(&s, &r, 280_000, 180));
    r[2].session_id = "session".into();
    r[2].analysis.as_mut().unwrap().confidence_bits = 0.6f64.to_bits();
    assert!(!flow::should_remind(&s, &r, 280_000, 180));
    r[2].analysis.as_mut().unwrap().confidence_bits = 0.9f64.to_bits();
}

#[test]
fn cross_hour_split_and_sparse_data_do_not_invent_high_low_periods() {
    let (t, _) = summary::bounds("2026-09-06").unwrap();
    let (s, r) = segments(&[(t + 9 * 3600000 + 59 * 60000, 120, Category::Work)]);
    let d = flow::derived(&s, &r).unwrap();
    assert_eq!(d.hourly[9].work / 1000, 60);
    assert_eq!(d.hourly[10].work / 1000, 60);
    assert!(d.high_period.is_none());
    assert!(d.low_period.is_none());
}

#[test]
fn trailing_run_stops_at_a_gap_or_another_session() {
    let (s, mut r) = segments(&[
        (0, 60, Category::Work),
        (60_000, 60, Category::Work),
        (125_000, 60, Category::Work),
    ]);
    assert_eq!(flow::trailing_run(&s, &r, Category::Work), 60);
    let (s2, _) = segments(&[(0, 60, Category::Work), (60_000, 60, Category::Work), (121_000, 60, Category::Work)]);
    assert_eq!(flow::trailing_run(&s2, &r, Category::Work), 180);
    r[0].session_id = "other".into();
    assert_eq!(flow::trailing_run(&s2, &r, Category::Work), 120);
    assert_eq!(flow::trailing_run(&s2, &r, Category::Distracted), 0);
    assert_eq!(flow::trailing_run(&Vec::new(), &r, Category::Work), 0);
}

#[test]
fn clear_contrast_names_the_high_and_low_hours() {
    let (t, _) = summary::bounds("2026-09-06").unwrap();
    let (s, r) = segments(&[
        (t + 9 * 3_600_000, 900, Category::Work),
        (t + 10 * 3_600_000, 300, Category::Work),
        (t + 10 * 3_600_000 + 300_000, 600, Category::Distracted),
    ]);
    let d = flow::derived(&s, &r).unwrap();
    assert_eq!(d.high_period, Some(9));
    assert_eq!(d.low_period, Some(10));
    assert_eq!(d.ai_samples, 0);
    assert_eq!(d.local_records, 0);
}

#[test]
fn reminders_wait_fifteen_minutes_and_never_repeat_a_record() {
    let mut r = ReminderState::default();
    assert!(r.claim(1_000_000, "a"));
    assert_eq!(r.last_sent, 1_000_000);
    assert!(!r.claim(1_000_000 + 899_999, "b"));
    assert!(!r.claim(1_000_000 + 900_000, "a"));
    assert!(r.claim(1_000_000 + 900_000, "b"));
    assert!(r.snooze(1441, 2_000_000).is_err());
    r.snooze(30, 2_000_000).unwrap();
    assert_eq!(r.snoozed_until, 2_000_000 + 30 * 60_000);
    assert!(!r.claim(3_000_000, "c"));
    assert!(r.claim(3_800_000, "c"));
}

#[test]
fn the_reminder_card_names_the_task_and_the_interval() {
    assert_eq!(
        flow::reminder_message("  ", 3),
        "近期采样多次显示可能在进行非工作活动，采样相隔至少 3 分钟。中间未连续判断；也可以先休息。"
    );
    assert_eq!(
        flow::reminder_message("写稿", 12),
        "近期采样多次提示可能偏离填写的任务，采样相隔至少 12 分钟。中间未连续判断；也可以先休息。"
    );
    assert!(flow::reset_confirmed(" 清空全部数据\n"));
    assert!(!flow::reset_confirmed("清空数据"));
}

#[test]
fn the_last_judged_segment_is_found_from_the_end() {
    let (s, mut r) = segments(&[(0, 60, Category::Work), (60_000, 60, Category::Work), (120_000, 60, Category::Unknown)]);
    r[2].analysis = None;
    assert_eq!(flow::last_analyzed_segment(&s, &r), Some(1));
    r[0].analysis = None;
    r[1].analysis = None;
    assert_eq!(flow::last_analyzed_segment(&s, &r), None);
}

#[test]
fn a_chunk_runs_to_the_next_local_hour_or_the_segment_end() {
    // At 09:59:00.000 the next hour starts one minute later.
    assert_eq!(flow::hour_chunk(1_000, 1_000_000, (9, 59, 0, 0)), (9, 61_000));
    // A segment that ends first stops the chunk there.
    assert_eq!(flow::hour_chunk(1_000, 31_000, (9, 59, 0, 0)), (9, 31_000));
    // Within a leap second the step is still at least a millisecond.
    assert_eq!(flow::hour_chunk(5, 100, (23, 59, 59, 1_500)), (23, 6));
}

#[test]
fn inputs_are_checked_before_the_rhythm_is_derived() {
    let t = 1_000_000;
    let (s, r) = segments(&[(t, 60, Category::Work), (t + 60_000, 60, Category::Distracted)]);
    assert!(flow::segments_fit_check(&s, &r));
    assert!(flow::derived_inputs_check(&s, &r));
    assert!(!flow::segments_fit_check(&s, &r[..1].to_vec()));
    let mut backwards = s.clone();
    backwards[0].end = backwards[0].start - 1;
    assert!(!flow::segments_fit_check(&backwards, &r));
    assert!(!flow::derived_inputs_check(&backwards, &r));
}

#[test]
fn a_chunk_goes_to_the_hour_its_reading_shows() {
    let zero = flow::HourTotals { work: 0, distracted: 0, unknown: 0, away: 0 };
    let mut hours = vec![zero; 24];
    // At 09:59:00 a two-minute work segment gives its first minute to hour 9 ...
    let t = 1_000_000;
    let stop = flow::place_chunk(&mut hours, Category::Work, t, t + 120_000, (9, 59, 0, 0));
    assert_eq!(stop, t + 60_000);
    // ... and, read at 10:00:00, the rest to hour 10.
    let end = flow::place_chunk(&mut hours, Category::Work, stop, t + 120_000, (10, 0, 0, 0));
    assert_eq!(end, t + 120_000);
    assert_eq!((hours[9].work, hours[10].work), (60_000, 60_000));
    assert!(hours.iter().enumerate().all(|(h, x)| h == 9 || h == 10 || *x == zero));
    assert_eq!(hours[9].distracted + hours[9].unknown + hours[9].away, 0);
}
