use base64::Engine;
use flow_insight::capture::{admit_capture, decode_image, prepare_capture, Admission, CaptureInput, ScreenInput};
use flow_insight::models::{Activity, CaptureEvidence, Presence, Sample, Session};

fn png(width: u32, height: u32) -> String {
    let img = image::RgbImage::from_fn(width, height, |x, _| if x % 2 == 0 { image::Rgb([250, 60, 40]) } else { image::Rgb([40, 110, 220]) });
    let mut out = std::io::Cursor::new(Vec::new());
    image::DynamicImage::ImageRgb8(img).write_to(&mut out, image::ImageFormat::Png).unwrap();
    format!("data:image/png;base64,{}", base64::engine::general_purpose::STANDARD.encode(out.into_inner()))
}

const ID: &str = "550e8400-e29b-41d4-a716-446655440000";
const NOW: i64 = 1_800_000_000_000;

fn session() -> Session {
    Session {
        id: "s1".into(),
        started_at: NOW - 600_000,
        ended_at: None,
        interval_seconds: 60,
        task: "写稿".into(),
        mode: "live".into(),
    }
}

fn screen(display_id: u32, name: &str, image: Option<String>, error: Option<&str>) -> ScreenInput {
    ScreenInput { display_id, display_name: name.into(), captured_at: NOW - 1000, image, error: error.map(|e| e.to_string()) }
}

fn input(screens: Vec<ScreenInput>) -> CaptureInput {
    CaptureInput {
        screens,
        evidence: Some(CaptureEvidence {
            basis: "local".into(),
            trigger: "started".into(),
            presence: Presence::default(),
            away: true,
            valid_until: NOW + 30_000,
        }),
        activity: Activity { foreground_display_id: Some(5), ..Default::default() },
        capture_warning: None,
        id: ID.into(),
        session_id: "s1".into(),
        captured_at: NOW - 1000,
        screen: String::new(),
        camera: None,
        capture_source: "多屏合成测试".into(),
    }
}

fn fresh(r: Result<Admission, String>) -> (Sample, Vec<flow_insight::capture::PendingImage>) {
    match r.unwrap() {
        Admission::Fresh { sample, images } => (sample, images),
        Admission::Known(_) => panic!("expected a new record"),
    }
}

#[test]
fn a_picture_is_kept_as_jpeg() {
    let jpeg = decode_image(&png(8, 6)).unwrap();
    assert_eq!(&jpeg[..2], &[0xFF, 0xD8]);
    let from_jpeg = decode_image(&format!("data:image/jpeg;base64,{}", base64::engine::general_purpose::STANDARD.encode(&jpeg))).unwrap();
    assert_eq!(&from_jpeg[..2], &[0xFF, 0xD8]);
}

#[test]
fn each_way_a_picture_can_fail_has_its_message() {
    assert_eq!(decode_image("data:image/gif;base64,AAAA").unwrap_err(), "仅接受 JPEG / PNG 图片");
    assert_eq!(decode_image("data:image/png;base64,@@@").unwrap_err(), "图片编码无效");
    let junk = format!("data:image/png;base64,{}", base64::engine::general_purpose::STANDARD.encode(b"not a picture at all"));
    assert_eq!(decode_image(&junk).unwrap_err(), "图片数据损坏");
    assert_eq!(decode_image(&png(2561, 1)).unwrap_err(), "图片分辨率超出限制");
    let huge = format!("data:image/png;base64,{}", "A".repeat(3_000_004));
    assert_eq!(decode_image(&huge).unwrap_err(), "单张图片过大，请降低采样分辨率");
}

#[test]
fn a_partial_group_keeps_the_missing_display_and_warns() {
    let screens = vec![screen(1, "内置屏幕", Some(png(4, 4)), None), screen(5, "外接屏幕", None, Some("已断开"))];
    let (sample, images) = fresh(admit_capture(input(screens), None, Some(session()), NOW));
    assert_eq!(sample.screens.len(), 2);
    assert_eq!(images.len(), 1);
    assert_eq!(images[0].name, format!("{ID}-screen-1.jpg"));
    assert_eq!(sample.screen.as_deref(), Some(images[0].name.as_str()));
    assert_eq!(sample.screens[1].file, None);
    assert_eq!(sample.screens[1].error.as_deref(), Some("已断开"));
    assert_eq!(
        sample.capture_warning.as_deref(),
        Some("外接屏幕（屏幕 5）：已断开；前台窗口所在屏幕未包含在本次画面中，无法完整观察当前操作")
    );
    let e = sample.evidence.unwrap();
    assert_eq!(e.basis, "ai");
    assert!(!e.away);
    assert_eq!(e.valid_until, NOW);
    assert_eq!(sample.state, "pending");
    assert_eq!(sample.interval_seconds, 60);
    assert_eq!(sample.task, "写稿");
}

#[test]
fn a_whole_group_needs_no_warning() {
    let screens = vec![screen(1, "内置屏幕", Some(png(4, 4)), None), screen(5, "外接屏幕", Some(png(4, 4)), None)];
    let (sample, images) = fresh(admit_capture(input(screens), None, Some(session()), NOW));
    assert_eq!(images.len(), 2);
    assert_eq!(images[1].name, format!("{ID}-screen-5.jpg"));
    assert!(sample.capture_warning.is_none());
}

#[test]
fn a_legacy_single_picture_is_display_zero() {
    let mut i = input(vec![]);
    i.screen = png(4, 4);
    i.activity.foreground_display_id = None;
    let (sample, images) = fresh(admit_capture(i, None, Some(session()), NOW));
    assert!(sample.screens.is_empty());
    assert_eq!(images[0].name, format!("{ID}-screen-0.jpg"));
    assert_eq!(sample.screen, Some(images[0].name.clone()));
}

#[test]
fn refused_groups_say_why() {
    let one = || vec![screen(1, "内置屏幕", Some(png(4, 4)), None)];
    let mut ended = session();
    ended.ended_at = Some(NOW);
    assert_eq!(admit_capture(input(one()), None, Some(ended), NOW).unwrap_err(), "本次记录已停止");
    assert_eq!(admit_capture(input(one()), None, None, NOW).unwrap_err(), "记录会话不存在");
    let mut old = input(one());
    old.captured_at = NOW - 120_001;
    assert_eq!(admit_capture(old, None, Some(session()), NOW).unwrap_err(), "采样时间无效或过期，请检查电脑时间");
    let mut camera = input(one());
    camera.camera = Some("x".into());
    assert_eq!(admit_capture(camera, None, Some(session()), NOW).unwrap_err(), "摄像头画面只允许本地处理，不再接受上传或保存");
    let mut both = input(one());
    both.screen = png(2, 2);
    assert_eq!(admit_capture(both, None, Some(session()), NOW).unwrap_err(), "请使用多屏图片列表，不要重复提交旧版单图");
    let twice = vec![screen(1, "a", Some(png(4, 4)), None), screen(1, "b", Some(png(4, 4)), None)];
    assert_eq!(admit_capture(input(twice), None, Some(session()), NOW).unwrap_err(), "屏幕编号、时间或采集结果无效");
    let neither = vec![screen(1, "a", None, None)];
    assert_eq!(admit_capture(input(neither), None, Some(session()), NOW).unwrap_err(), "屏幕编号、时间或采集结果无效");
    let failed = vec![screen(1, "a", None, Some("黑屏"))];
    assert_eq!(admit_capture(input(failed), None, Some(session()), NOW).unwrap_err(), "所有选中屏幕均采集失败，本次不提交分析");
    let mut idle = input(one());
    idle.activity.idle_seconds_bits = (-1.0f64).to_bits();
    assert_eq!(admit_capture(idle, None, Some(session()), NOW).unwrap_err(), "应用活动信息格式无效");
    let mut zero = input(one());
    zero.activity.idle_seconds_bits = (-0.0f64).to_bits();
    assert!(admit_capture(zero, None, Some(session()), NOW).is_ok());
    let mut long = input(one());
    long.capture_warning = Some("x".repeat(2001));
    assert_eq!(admit_capture(long, None, Some(session()), NOW).unwrap_err(), "采集提示过长");
}

#[test]
fn a_repeated_upload_returns_the_stored_record() {
    let one = vec![screen(1, "内置屏幕", Some(png(4, 4)), None)];
    let (stored, _) = fresh(admit_capture(input(one), None, Some(session()), NOW));
    let again = vec![screen(1, "内置屏幕", Some(png(4, 4)), None)];
    match admit_capture(input(again), Some(stored.clone()), Some(session()), NOW).unwrap() {
        Admission::Known(s) => assert_eq!(s.id, stored.id),
        Admission::Fresh { .. } => panic!("expected the stored record"),
    }
    let mut other = stored;
    other.session_id = "s2".into();
    let third = vec![screen(1, "内置屏幕", Some(png(4, 4)), None)];
    assert_eq!(admit_capture(input(third), Some(other), Some(session()), NOW).unwrap_err(), "采样 ID 冲突");
}

#[test]
fn an_upload_needs_a_uuid() {
    let mut i = input(vec![screen(1, "内置屏幕", Some(png(4, 4)), None)]);
    i.id = "not-an-id".into();
    assert_eq!(prepare_capture(i, None, Some(session()), NOW).unwrap_err(), "采样 ID 无效");
    let ok = input(vec![screen(1, "内置屏幕", Some(png(4, 4)), None)]);
    assert!(prepare_capture(ok, None, Some(session()), NOW).is_ok());
}

#[test]
fn every_written_form_of_a_uuid_is_accepted() {
    for id in [
        "550e8400e29b41d4a716446655440000",
        "550E8400-E29B-41D4-A716-446655440000",
        "{550e8400-e29b-41d4-a716-446655440000}",
        "URN:uuid:550e8400-e29b-41d4-a716-446655440000",
    ] {
        let mut i = input(vec![screen(1, "内置屏幕", Some(png(4, 4)), None)]);
        i.id = id.into();
        assert!(prepare_capture(i, None, Some(session()), NOW).is_ok(), "{id}");
    }
    for id in [
        "550e8400e29b41d4a716446655440g00",
        "550e8400-e29b-41d4-a716_446655440000",
        "[550e8400-e29b-41d4-a716-446655440000]",
        "urn:uid::550e8400-e29b-41d4-a716-446655440000",
    ] {
        let mut i = input(vec![screen(1, "内置屏幕", Some(png(4, 4)), None)]);
        i.id = id.into();
        assert_eq!(prepare_capture(i, None, Some(session()), NOW).unwrap_err(), "采样 ID 无效", "{id}");
    }
}
