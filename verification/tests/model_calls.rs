use flow_insight::ai::{
    camera_note, completion_refusal, http_failure, picture_test_result, recent_history, reply_text, reply_too_large,
    screen_label, thinking_switch, ReplyContent, ThinkingSwitch,
};
use flow_insight::models::{Activity, Analysis, CaptureEvidence, Category, Presence, Sample, ScreenCapture, Settings};

#[test]
fn http_statuses_name_their_cause() {
    assert!(http_failure(200).is_none());
    assert!(http_failure(299).is_none());
    assert_eq!(http_failure(401).unwrap(), "AI 服务拒绝了认证，请检查 API key 与权限");
    assert_eq!(http_failure(403).unwrap(), "AI 服务拒绝了认证，请检查 API key 与权限");
    assert_eq!(http_failure(404).unwrap(), "AI 接口或模型不存在，请检查 API 地址与模型名");
    assert_eq!(http_failure(429).unwrap(), "AI 服务限流或额度不足，请稍后重试");
    assert_eq!(http_failure(502).unwrap(), "AI 服务返回 HTTP 502，请检查模型和接口设置");
    assert!(reply_too_large(2_000_001));
    assert!(!reply_too_large(2_000_000));
}

#[test]
fn an_answer_is_text_or_joined_parts() {
    assert_eq!(reply_text(ReplyContent::Text("你好".into())).unwrap(), "你好");
    assert_eq!(reply_text(ReplyContent::Parts(vec![Some("a".into()), None, Some("b".into())])).unwrap(), "a\nb");
    assert_eq!(reply_text(ReplyContent::Parts(vec![None])).unwrap_err(), "AI 回答为空");
    assert_eq!(reply_text(ReplyContent::Text(String::new())).unwrap_err(), "AI 回答为空");
    assert_eq!(reply_text(ReplyContent::Missing).unwrap_err(), "AI 服务未返回回答内容，请确认兼容 Chat Completions");
    assert_eq!(picture_test_result(" \n").unwrap_err(), "模型未返回图片测试结果");
    assert!(picture_test_result("红色和蓝色").is_ok());
}

#[test]
fn requests_need_valid_settings_and_a_key() {
    assert_eq!(completion_refusal(&Settings::default()).unwrap(), "请配置 AI API Key；本地观察仍可使用");
    let bad = Settings { base_url: "ftp://x".into(), api_key: "k".into(), ..Default::default() };
    assert_eq!(completion_refusal(&bad).unwrap(), "远程 API 请使用 HTTPS；本机接口可使用 HTTP");
    assert!(completion_refusal(&Settings { api_key: "k".into(), ..Default::default() }).is_none());
}

#[test]
fn thinking_is_switched_off_per_provider() {
    let qwen = Settings { api_key: "k".into(), ..Default::default() };
    assert!(matches!(thinking_switch(&qwen), ThinkingSwitch::EnableThinkingFalse));
    let by_model = Settings { model: "deepseek-chat".into(), ..qwen.clone() };
    assert!(matches!(thinking_switch(&by_model), ThinkingSwitch::DisabledThinking));
    let by_host = Settings { base_url: "https://api.deepseek.com/v1".into(), ..qwen };
    assert!(matches!(thinking_switch(&by_host), ThinkingSwitch::DisabledThinking));
}

fn judged(id: &str, session: &str, at: i64, analysed: bool) -> Sample {
    Sample {
        screens: vec![],
        evidence: None,
        activity: Activity::default(),
        capture_warning: None,
        id: id.into(),
        session_id: session.into(),
        captured_at: at,
        interval_seconds: 60,
        mode: "live".into(),
        task: String::new(),
        screen: None,
        camera: None,
        capture_source: "test".into(),
        state: "done".into(),
        analysis: if analysed {
            Some(Analysis { category: Category::Work, confidence_bits: 0.9f64.to_bits(), app_name: String::new(), screen_activity: String::new(), camera_state: String::new(), summary: String::new(), evidence: vec![] })
        } else {
            None
        },
        error: None,
        correction: None,
        correction_note: String::new(),
    }
}

#[test]
fn the_model_sees_the_latest_five_judgments_of_the_session() {
    let mut all: Vec<Sample> = (0..8).map(|i| judged(&i.to_string(), "s", i * 1000, true)).collect();
    all.push(judged("other", "t", 500, true));
    all.push(judged("blank", "s", 500, false));
    let current = judged("now", "s", 7000, false);
    assert_eq!(recent_history(&all, &current), [6, 5, 4, 3, 2]);
    let early = judged("now", "s", 1500, false);
    assert_eq!(recent_history(&all, &early), [1, 0]);
}

#[test]
fn pictures_are_labelled_with_their_display() {
    let mut s = judged("a", "s", 0, false);
    s.screens = vec![ScreenCapture { display_id: 5, display_name: "外接屏幕".into(), captured_at: -12, file: Some("a-screen-5.jpg".into()), error: None }];
    assert_eq!(screen_label(&s, "a-screen-5.jpg"), "屏幕 5 · 外接屏幕 · 截图时间 -12");
    assert_eq!(screen_label(&s, "legacy.jpg"), "屏幕（旧版单屏记录，显示器编号未知）");
    assert_eq!(camera_note(&s), "本次未上传摄像头画面");
    s.evidence = Some(CaptureEvidence {
        basis: "ai".into(),
        trigger: "periodic".into(),
        presence: Presence { reason: "检测到人脸".into(), ..Default::default() },
        away: false,
        valid_until: 0,
    });
    assert_eq!(camera_note(&s), "检测到人脸");
}
