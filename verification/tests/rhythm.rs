use flow_insight::flow::{self, HourTotals};
use flow_insight::models::{Activity, Category, Sample, Session};
use flow_insight::rhythm::{comparable_hours, default_days, default_mode, hour_cells, hour_pointers, indices_before, range_dates, range_status, recorded_days, RangeQuery, RangeStatus};
use flow_insight::summary;

fn query(date: &str, days: u32, mode: &str) -> RangeQuery {
    RangeQuery { date: date.into(), days, mode: mode.into() }
}

#[test]
fn ranges_cover_seven_fourteen_or_twenty_one_days() {
    assert_eq!((default_days(), default_mode()), (7, "live".to_string()));
    for days in [7, 14, 21] {
        let r = range_dates(&query("2026-09-09", days, "live")).unwrap();
        assert_eq!(r.dates.len(), days as usize);
        assert_eq!(r.end, "2026-09-09");
        assert_eq!(r.dates.last().unwrap(), "2026-09-09");
        assert_eq!(r.dates[0], r.start);
    }
    let week = range_dates(&query("2026-03-02", 7, "live")).unwrap();
    assert_eq!(week.dates, ["2026-02-24", "2026-02-25", "2026-02-26", "2026-02-27", "2026-02-28", "2026-03-01", "2026-03-02"]);
    assert_eq!(range_dates(&query("2026-09-09", 22, "live")).unwrap_err(), "请选择 7、14 或 21 天");
    assert_eq!(range_dates(&query("2026-09-09", 7, "invalid")).unwrap_err(), "无效的数据类型");
    assert_eq!(range_dates(&query("invalid", 7, "live")).unwrap_err(), "日期格式应为 YYYY-MM-DD");
}

fn corrected(id: &str, start: i64, seconds: u32, category: Category) -> (Sample, Session) {
    let sample = Sample {
        screens: vec![],
        evidence: None,
        activity: Activity::default(),
        capture_warning: None,
        id: id.into(),
        session_id: id.into(),
        captured_at: start,
        interval_seconds: seconds,
        mode: "live".into(),
        task: "private synthetic task".into(),
        screen: None,
        camera: None,
        capture_source: "synthetic test".into(),
        state: "done".into(),
        analysis: None,
        error: None,
        correction: Some(category),
        correction_note: String::new(),
    };
    let session = Session {
        id: id.into(),
        started_at: start,
        ended_at: Some(start + i64::from(seconds) * 1000),
        interval_seconds: seconds,
        task: String::new(),
        mode: "live".into(),
    };
    (sample, session)
}

#[test]
fn an_hour_counts_with_ten_judged_minutes_and_days_split_at_midnight() {
    let (day, end) = summary::bounds("2026-09-09").unwrap();
    let (before, _) = summary::bounds("2026-09-08").unwrap();
    let (a, sa) = corrected("a", before + (23 * 60 + 50) * 60_000, 1800, Category::Work);
    let (b, sb) = corrected("b", day + 9 * 3_600_000, 599, Category::Work);
    let (c, sc) = corrected("c", day + 10 * 3_600_000, 3600, Category::Unknown);
    let samples = vec![a, b, c];
    let sessions = vec![sa, sb, sc];
    let at = end;
    let keep = indices_before(&samples, end);
    assert_eq!(keep, [0, 1, 2]);
    assert_eq!(indices_before(&samples, day), [0]);
    let d = summary::build("2026-09-09", "live", samples.clone(), sessions.clone(), at).unwrap();
    let hours = flow::hourly(&d.segments, &d.records).unwrap();
    assert_eq!(hours[0].work / 1000, 1200);
    let cells = hour_cells(&hours);
    assert_eq!(cells.len(), 24);
    assert!(cells[0].eligible);
    assert_eq!(cells[9].judged_seconds, 599);
    assert!(!cells[9].eligible);
    assert_eq!(cells[10].judged_seconds, 0);
    let previous = summary::build("2026-09-08", "live", samples, sessions, at).unwrap();
    let late = flow::hourly(&previous.segments, &previous.records).unwrap();
    assert_eq!(late[23].work / 1000, 600);
    let pointers = hour_pointers(&d.segments, &d.records).unwrap();
    let (k, t) = pointers[0].unwrap();
    assert_eq!(t, day);
    assert_eq!(d.records[d.segments[k].sample].id, "a");
    assert!(pointers[5].is_none());
}

#[test]
fn hour_cells_count_whole_seconds() {
    let h = HourTotals { work: 599_999, distracted: 1_999, unknown: 5_000_000, away: 0 };
    let cells = hour_cells(&vec![h]);
    assert_eq!((cells[0].work_seconds, cells[0].judged_seconds, cells[0].eligible), (599, 600, true));
}

#[test]
fn a_day_without_segments_reads_as_empty_hours() {
    let segments: Vec<summary::Segment> = vec![];
    let records: Vec<Sample> = vec![];
    let hours = flow::hourly(&segments, &records).unwrap();
    assert_eq!(hours.len(), 24);
    assert!(hours.iter().all(|h| h.work == 0 && h.distracted == 0 && h.unknown == 0 && h.away == 0));
    let pointers = hour_pointers(&segments, &records).unwrap();
    assert_eq!(pointers.len(), 24);
    assert!(pointers.iter().all(|p| p.is_none()));
    let rhythm = flow::derived(&segments, &records).unwrap();
    assert_eq!(rhythm.hourly.len(), 24);
    assert_eq!(rhythm.interruptions, 0);
    assert_eq!(rhythm.high_period, None);
}

#[test]
fn only_hours_seen_on_enough_days_are_compared() {
    let mut counts = vec![0usize; 24];
    counts[9] = 3;
    counts[10] = 2;
    counts[14] = 5;
    assert_eq!(comparable_hours(&counts), [9, 14]);
    assert_eq!(recorded_days(&vec![0, 30, 0, 5, 0, 0, 1]), 3);
    assert_eq!(range_status(1, true), RangeStatus::Insufficient);
    assert_eq!(range_status(2, true).label(), "ready");
    assert_eq!(range_status(3, false).label(), "similar");
    assert_eq!(RangeStatus::Insufficient.label(), "insufficient");
}

#[test]
fn a_valid_range_always_lists_its_days() {
    for days in [7, 14, 21] {
        let r = range_dates(&RangeQuery { date: "2026-09-09".into(), days, mode: "live".into() }).unwrap();
        assert_eq!(r.dates.len(), days as usize);
        assert_eq!(r.end, "2026-09-09");
        assert_eq!(r.dates.last().unwrap(), "2026-09-09");
    }
}
