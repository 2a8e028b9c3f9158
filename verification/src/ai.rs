//! Model settings, endpoints and the checks on a model's reply.
use vstd::prelude::*;
use crate::ieee::{at_least, at_least_bits, in_unit_interval, in_unit_interval_bits, is_finite, is_finite_bits};
use crate::models::{Analysis, Category, Sample, ScreenCapture, Settings};
use crate::text::{
    blank, byte_len, byte_length, char_count, chars_of, contains_char, decimal, decimal_i64, decimal_string, ends_with,
    ends_with_str, has_char, is_blank, join_strings, joined, signed_decimal, str_eq, trim_end_slashes,
    without_trailing_slashes,
};

verus! {

// ---------------------------------------------------------------- URLs

/// What `reqwest::Url::parse(s)` reads from `s`: the scheme, the host as written
/// (`host_str`), the user name, whether a password, a query and a fragment are present, and
/// the origin's `ascii_serialization` when it is a (scheme, host, port) tuple (`None` for an
/// opaque origin); `None` where the parse fails.
pub uninterp spec fn url_parts(s: Seq<char>)
    -> Option<(Seq<char>, Option<Seq<char>>, Seq<char>, bool, bool, bool, Option<Seq<char>>)>;

#[derive(Clone, Debug)]
pub struct UrlParts {
    pub scheme: String,
    pub host: Option<String>,
    pub username: String,
    pub has_password: bool,
    pub has_query: bool,
    pub has_fragment: bool,
    pub origin: Option<String>,
}

pub open spec fn parts_view(p: UrlParts) -> (Seq<char>, Option<Seq<char>>, Seq<char>, bool, bool, bool, Option<Seq<char>>) {
    (p.scheme@, match p.host { Some(h) => Some(h@), None => None }, p.username@, p.has_password, p.has_query,
        p.has_fragment, match p.origin { Some(o) => Some(o@), None => None })
}

/// Calls `reqwest::Url::parse` and reads the parts named in `url_parts`; the contract says
/// only that they are the named ones.
#[verifier::external_body]
pub(crate) fn parse_url(s: &str) -> (r: Option<UrlParts>)
    ensures
        match r {
            Some(p) => url_parts(s@) == Some(parts_view(p)),
            None => url_parts(s@) is None,
        },
{
    let u = match reqwest::Url::parse(s) {
        Ok(u) => u,
        Err(_) => return None,
    };
    let (origin, host) = (u.origin(), u.host_str());
    Some(UrlParts {
        scheme: u.scheme().to_string(),
        host: if let Some(h) = host { Some(h.to_string()) } else { None },
        username: u.username().to_string(),
        has_password: u.password().is_some(),
        has_query: u.query().is_some(),
        has_fragment: u.fragment().is_some(),
        origin: if origin.is_tuple() { Some(origin.ascii_serialization()) } else { None },
    })
}

/// Two addresses name the same origin as `Url::origin` compares them: both fail to parse, or
/// both have the same tuple origin. An opaque origin equals no other.
pub open spec fn same_origin(a: Seq<char>, b: Seq<char>) -> bool {
    match (url_parts(a), url_parts(b)) {
        (None, None) => true,
        (Some(x), Some(y)) => x.6 is Some && x.6 == y.6,
        _ => false,
    }
}

/// Whether two addresses name the same origin.
pub fn origins_match(a: &str, b: &str) -> (r: bool)
    ensures
        r == same_origin(a@, b@),
{
    match (parse_url(a), parse_url(b)) {
        (None, None) => true,
        (Some(x), Some(y)) => match (&x.origin, &y.origin) {
            (Some(p), Some(q)) => str_eq(p.as_str(), q.as_str()),
            _ => false,
        },
        _ => false,
    }
}

// ---------------------------------------------------------------- settings

pub open spec fn is_loopback_host(h: Option<Seq<char>>) -> bool {
    h == Some("localhost"@) || h == Some("127.0.0.1"@) || h == Some("[::1]"@)
}

pub open spec fn within(v: u32, lo: u32, hi: u32) -> bool {
    lo <= v <= hi
}

/// The message for each way settings can be invalid, checked in this order.
pub open spec fn settings_error(s: Settings) -> Option<Seq<char>> {
    match url_parts(s.base_url@) {
        None => Some("API 地址无效"@),
        Some(u) => {
            let scheme = u.0;
            if scheme != "https"@ && !(scheme == "http"@ && is_loopback_host(u.1)) {
                Some("远程 API 请使用 HTTPS；本机接口可使用 HTTP"@)
            } else if u.2.len() > 0 || u.3 || u.4 || u.5 {
                Some("API 地址不能包含账号密码、查询参数或片段"@)
            } else if blank(s.model@) || byte_len(s.model@) > 200 || byte_len(s.api_key@) > 2000
                || has_char(s.api_key@, '\r') || has_char(s.api_key@, '\n')
            {
                Some("请填写有效的模型名称和 API key"@)
            } else if s.report_hour > 23 || s.task@.len() > 2000 {
                Some("报告时间为 0–23 点；任务描述最多 2000 字"@)
            } else if !within(s.reminder_minutes, 1, 30) || !within(s.daily_goal_minutes, 15, 720)
                || !within(s.retention_days, 1, 90) || s.excluded_apps@.len() > 100
                || exists|i: int| 0 <= i < s.excluded_apps@.len() && byte_len((#[trigger] s.excluded_apps@[i])@) > 200
            {
                Some("提醒间隔、目标或保留时间不符合范围"@)
            } else {
                None
            }
        },
    }
}

/// Checks settings before they are saved or used: a parseable HTTPS address (HTTP only to
/// this machine) without credentials, query or fragment; a model name and a key within
/// limits; and the report hour, task length, reminder, goal, retention and exclusions in range.
pub fn validate_settings(s: &Settings) -> (r: Result<(), String>)
    ensures
        match settings_error(*s) {
            Some(m) => r matches Err(e) && e@ == m,
            None => r is Ok,
        },
{
    let u = match parse_url(s.base_url.as_str()) {
        Some(u) => u,
        None => return Err(String::from_str("API 地址无效")),
    };
    let local = match &u.host {
        Some(h) => str_eq(h.as_str(), "localhost") || str_eq(h.as_str(), "127.0.0.1") || str_eq(h.as_str(), "[::1]"),
        None => false,
    };
    proof {
        let hv = match u.host { Some(h) => Some(h@), None => None };
        assert(local == is_loopback_host(hv));
    }
    if !str_eq(u.scheme.as_str(), "https") && !(str_eq(u.scheme.as_str(), "http") && local) {
        return Err(String::from_str("远程 API 请使用 HTTPS；本机接口可使用 HTTP"));
    }
    if !u.username.as_str().is_empty() || u.has_password || u.has_query || u.has_fragment {
        return Err(String::from_str("API 地址不能包含账号密码、查询参数或片段"));
    }
    if is_blank(s.model.as_str()) || byte_length(s.model.as_str()) > 200 || byte_length(s.api_key.as_str()) > 2000
        || contains_char(s.api_key.as_str(), '\r') || contains_char(s.api_key.as_str(), '\n') {
        return Err(String::from_str("请填写有效的模型名称和 API key"));
    }
    if s.report_hour > 23 || char_count(s.task.as_str()) > 2000 {
        return Err(String::from_str("报告时间为 0–23 点；任务描述最多 2000 字"));
    }
    let mut long_app = false;
    let n = s.excluded_apps.len();
    for i in 0..n
        invariant
            n == s.excluded_apps@.len(),
            long_app == exists|j: int| 0 <= j < i && byte_len((#[trigger] s.excluded_apps@[j])@) > 200,
    {
        if byte_length(s.excluded_apps[i].as_str()) > 200 {
            long_app = true;
        }
    }
    if !(1 <= s.reminder_minutes && s.reminder_minutes <= 30) || !(15 <= s.daily_goal_minutes && s.daily_goal_minutes <= 720)
        || !(1 <= s.retention_days && s.retention_days <= 90) || n > 100 || long_app {
        return Err(String::from_str("提醒间隔、目标或保留时间不符合范围"));
    }
    Ok(())
}

pub open spec fn missing_key_message() -> Seq<char> {
    "请配置 AI API Key；本地观察仍可使用"@
}

/// Why the model cannot be used: no key. Local observation works without one.
pub fn backend_access_error(s: &Settings) -> (r: Option<String>)
    ensures
        s.api_key@.len() == 0 ==> (r matches Some(e) && e@ == missing_key_message()),
        s.api_key@.len() > 0 ==> r is None,
{
    if s.api_key.as_str().is_empty() {
        return Some(String::from_str("请配置 AI API Key；本地观察仍可使用"));
    }
    None
}

pub open spec fn completions_path() -> Seq<char> {
    "/chat/completions"@
}

/// The chat completions URL of a base address: trailing slashes dropped, and the path added
/// unless the address already ends with it.
pub open spec fn endpoint_of(base: Seq<char>) -> Seq<char> {
    let b = trim_end_slashes(base);
    if ends_with(b, completions_path()) { b } else { b + completions_path() }
}

pub fn endpoint(s: &Settings) -> (r: String)
    ensures
        r@ == endpoint_of(s.base_url@),
{
    let b = without_trailing_slashes(s.base_url.as_str());
    if ends_with_str(b.as_str(), "/chat/completions") {
        b
    } else {
        b.concat("/chat/completions")
    }
}

/// How a provider's "thinking" output is switched off in a request.
#[derive(Clone, Copy, Debug, PartialEq, Eq, Structural)]
pub enum ThinkingSwitch {
    /// `"thinking": {"type": "disabled"}`
    DisabledThinking,
    /// `"enable_thinking": false`
    EnableThinkingFalse,
}

pub open spec fn starts_with(s: Seq<char>, prefix: Seq<char>) -> bool {
    s.len() >= prefix.len() && s.subrange(0, prefix.len() as int) == prefix
}

/// DeepSeek models, or the DeepSeek host, take `thinking`; other providers take `enable_thinking`.
pub open spec fn thinking_switch_of(s: Settings) -> ThinkingSwitch {
    if starts_with(s.model@, "deepseek-"@)
        || (url_parts(s.base_url@) matches Some(u) && u.1 == Some("api.deepseek.com"@))
    {
        ThinkingSwitch::DisabledThinking
    } else {
        ThinkingSwitch::EnableThinkingFalse
    }
}

pub fn thinking_switch(s: &Settings) -> (r: ThinkingSwitch)
    ensures
        r == thinking_switch_of(*s),
{
    let m = chars_of(s.model.as_str());
    let p = chars_of("deepseek-");
    let mut prefixed = m.len() >= p.len();
    if prefixed {
        let n = p.len();
        for i in 0..n
            invariant
                n == p@.len() <= m@.len(),
                m@ == s.model@,
                p@ == "deepseek-"@,
                prefixed == forall|j: int| 0 <= j < i ==> m@[j] == p@[j],
        {
            if m[i] != p[i] {
                prefixed = false;
            }
        }
        assert(prefixed == (s.model@.subrange(0, p@.len() as int) =~= p@));
    }
    if prefixed {
        return ThinkingSwitch::DisabledThinking;
    }
    let on_host = match parse_url(s.base_url.as_str()) {
        Some(u) => match &u.host {
            Some(h) => str_eq(h.as_str(), "api.deepseek.com"),
            None => false,
        },
        None => false,
    };
    if on_host { ThinkingSwitch::DisabledThinking } else { ThinkingSwitch::EnableThinkingFalse }
}

} // verus!

verus! {

// ---------------------------------------------------------------- replies

#[verifier::external_type_specification]
#[verifier::external_body]
pub struct ExJsonValue(serde_json::Value);

/// `serde_json::from_str::<serde_json::Value>(s)` succeeds.
pub uninterp spec fn is_json(s: Seq<char>) -> bool;

/// Calls `serde_json::from_str::<serde_json::Value>`. The contract says when it succeeds (the
/// named `is_json`); the value it returns is opaque here and nothing is said of its content.
#[verifier::external_body]
fn parse_value(s: &str) -> (r: Option<serde_json::Value>)
    ensures
        r is Some <==> is_json(s@),
{
    serde_json::from_str::<serde_json::Value>(s).ok()
}

/// The position of the first `c` in `s`, if any.
pub open spec fn first_index(s: Seq<char>, c: char) -> Option<int> {
    if has_char(s, c) {
        Some(choose|i: int| 0 <= i < s.len() && s[i] == c && forall|j: int| 0 <= j < i ==> s[j] != c)
    } else {
        None
    }
}

pub open spec fn no_json_message() -> Seq<char> {
    "AI 未返回约定的 JSON，请确认模型支持图片与结构化回答"@
}

pub open spec fn cut_json_message() -> Seq<char> {
    "AI 回答不完整，请重试"@
}

pub open spec fn bad_json_message() -> Seq<char> {
    "AI 返回的 JSON 无法解析，请重试"@
}

/// The span from the first `{` to the last `}` of a reply: `None` without a `{`, and the
/// start alone where no `}` follows it.
#[verifier::opaque]
pub open spec fn json_span_of(s: Seq<char>) -> Result<(int, int), Seq<char>> {
    if !has_char(s, '{') {
        Err(no_json_message())
    } else {
        let start = choose|i: int| 0 <= i < s.len() && s[i] == '{' && forall|j: int| 0 <= j < i ==> s[j] != '{';
        if exists|e: int| start <= e < s.len() && s[e] == '}' {
            let end = choose|e: int| start <= e < s.len() && s[e] == '}' && forall|j: int| e < j < s.len() ==> s[j] != '}';
            Ok((start, end))
        } else {
            Err(cut_json_message())
        }
    }
}

/// The character positions of the first `{` and the last `}` of `text`.
pub fn json_span(text: &str) -> (r: Result<(usize, usize), String>)
    ensures
        match json_span_of(text@) {
            Ok(p) => r matches Ok(q) && q.0 == p.0 && q.1 == p.1,
            Err(m) => r matches Err(e) && e@ == m,
        },
        r matches Ok(q) ==> q.0 <= q.1 < text@.len() && text@[q.0 as int] == '{' && text@[q.1 as int] == '}',
        text@.len() <= usize::MAX,
{
    reveal(json_span_of);
    let cs = chars_of(text);
    let n = cs.len();
    let mut start: usize = 0;
    while start < n && cs[start] != '{'
        invariant
            start <= n == cs@.len(),
            cs@ == text@,
            forall|j: int| 0 <= j < start ==> cs@[j] != '{',
        decreases n - start,
    {
        start = start + 1;
    }
    if start == n {
        return Err(String::from_str("AI 未返回约定的 JSON，请确认模型支持图片与结构化回答"));
    }
    proof {
        let s = text@;
        assert(has_char(s, '{'));
        let c = choose|i: int| 0 <= i < s.len() && s[i] == '{' && forall|j: int| 0 <= j < i ==> s[j] != '{';
        assert(c == start) by {
            if c < start {
            } else if c > start {
                assert(s[start as int] == '{');
            }
        }
    }
    let mut end = n;
    while end > start && cs[end - 1] != '}'
        invariant
            start < n == cs@.len(),
            start <= end <= n,
            cs@ == text@,
            forall|j: int| end <= j < n ==> cs@[j] != '}',
        decreases end,
    {
        end = end - 1;
    }
    if end == start {
        proof {
            let s = text@;
            assert(s[start as int] == '{');
            assert(!exists|e: int| start <= e < s.len() && s[e] == '}');
        }
        return Err(String::from_str("AI 回答不完整，请重试"));
    }
    proof {
        let s = text@;
        assert(s[end - 1] == '}');
        let e = choose|e: int| start <= e < s.len() && s[e] == '}' && forall|j: int| e < j < s.len() ==> s[j] != '}';
        assert(e == end - 1) by {
            if e < end - 1 {
            } else if e > end - 1 {
            }
        }
    }
    Ok((start, end - 1))
}

/// The JSON object that a reply carries: the text from its first `{` to its last `}`, parsed.
/// A reply without `{`, without a later `}`, or whose span is not JSON is refused.
pub fn parse_json(text: &str) -> (r: Result<serde_json::Value, String>)
    ensures
        match json_span_of(text@) {
            Err(m) => r matches Err(e) && e@ == m,
            Ok(p) => {
                let inner = text@.subrange(p.0, p.1 + 1);
                &&& is_json(inner) ==> r is Ok
                &&& !is_json(inner) ==> (r matches Err(e) && e@ == bad_json_message())
            },
        },
{
    let (start, end) = match json_span(text) {
        Ok(p) => p,
        Err(e) => return Err(e),
    };
    let inner = text.substring_char(start, end + 1);
    match parse_value(inner) {
        Some(v) => Ok(v),
        None => Err(String::from_str("AI 返回的 JSON 无法解析，请重试")),
    }
}

/// `0.55`: below this confidence a judgment counts as unknown.
pub const MIN_CONFIDENCE_BITS: u64 = 0x3FE1_9999_9999_999A;

pub open spec fn analysis_in_limits(a: Analysis) -> bool {
    &&& is_finite(a.confidence_bits)
    &&& in_unit_interval(a.confidence_bits)
    &&& a.evidence@.len() <= 8
    &&& a.summary@.len() <= 300
    &&& a.app_name@.len() <= 300
    &&& a.screen_activity@.len() <= 300
    &&& a.camera_state@.len() <= 300
    &&& forall|i: int| 0 <= i < a.evidence@.len() ==> (#[trigger] a.evidence@[i])@.len() <= 500
}

pub open spec fn bad_fields_message() -> Seq<char> {
    "AI 返回的分析字段不符合要求"@
}

pub open spec fn no_camera_note() -> Seq<char> {
    "未启用摄像头，无法判断人的状态"@
}

/// A reply's judgment as the library keeps it: refused unless its confidence lies in
/// `0..=1` and its texts are within limits; without a camera the camera note says so; a
/// confidence below 0.55 makes the category unknown.
pub fn review_analysis(a: Analysis, has_camera: bool) -> (r: Result<Analysis, String>)
    ensures
        !analysis_in_limits(a) ==> (r matches Err(e) && e@ == bad_fields_message()),
        analysis_in_limits(a) ==> (r matches Ok(b) && {
            &&& b.category == (if at_least(a.confidence_bits, MIN_CONFIDENCE_BITS) { a.category } else { Category::Unknown })
            &&& b.camera_state@ == (if has_camera { a.camera_state@ } else { no_camera_note() })
            &&& b.confidence_bits == a.confidence_bits
            &&& b.app_name == a.app_name
            &&& b.screen_activity == a.screen_activity
            &&& b.summary == a.summary
            &&& b.evidence == a.evidence
        }),
{
    let mut long_evidence = false;
    let n = a.evidence.len();
    for i in 0..n
        invariant
            n == a.evidence@.len(),
            long_evidence == exists|j: int| 0 <= j < i && (#[trigger] a.evidence@[j])@.len() > 500,
    {
        if char_count(a.evidence[i].as_str()) > 500 {
            long_evidence = true;
        }
    }
    if !is_finite_bits(a.confidence_bits) || !in_unit_interval_bits(a.confidence_bits) || n > 8
        || char_count(a.summary.as_str()) > 300 || char_count(a.app_name.as_str()) > 300
        || char_count(a.screen_activity.as_str()) > 300 || char_count(a.camera_state.as_str()) > 300
        || long_evidence {
        return Err(String::from_str("AI 返回的分析字段不符合要求"));
    }
    let mut b = a;
    if !has_camera {
        b.camera_state = String::from_str("未启用摄像头，无法判断人的状态");
    }
    if !at_least_bits(b.confidence_bits, MIN_CONFIDENCE_BITS) {
        b.category = Category::Unknown;
    }
    Ok(b)
}

pub open spec fn open_task_criteria() -> Seq<char> {
    "未填写任务：按活动性质判断。work 表示有可见证据的工作类活动，例如开发、写作、设计、整理表格或有明确学习内容的资料阅读；不表示正在推进某项既定目标。distracted 表示有明确证据的娱乐或其他非工作活动。聊天、视频、浏览网页要结合具体内容，用途不清楚则 unknown，不能仅凭应用名称分类，也不能声称用户偏离了未填写的目标。"@
}

pub open spec fn task_bound_criteria() -> Seq<char> {
    "已填写任务：结合任务相关性判断。work 需要可见活动与当前任务直接相关，包括为任务查资料、看教程或沟通；不能只因为属于办公内容就判 work。distracted 需要明确的非任务活动证据；相关性不明确则 unknown，不得臆测用户意图。"@
}

/// The judging criteria for the model: by the kind of activity when no task is given,
/// by relevance to the task otherwise.
pub fn task_criteria(task: &str) -> (r: &'static str)
    ensures
        r@ == (if blank(task@) { open_task_criteria() } else { task_bound_criteria() }),
{
    if is_blank(task) {
        "未填写任务：按活动性质判断。work 表示有可见证据的工作类活动，例如开发、写作、设计、整理表格或有明确学习内容的资料阅读；不表示正在推进某项既定目标。distracted 表示有明确证据的娱乐或其他非工作活动。聊天、视频、浏览网页要结合具体内容，用途不清楚则 unknown，不能仅凭应用名称分类，也不能声称用户偏离了未填写的目标。"
    } else {
        "已填写任务：结合任务相关性判断。work 需要可见活动与当前任务直接相关，包括为任务查资料、看教程或沟通；不能只因为属于办公内容就判 work。distracted 需要明确的非任务活动证据；相关性不明确则 unknown，不得臆测用户意图。"
    }
}

} // verus!

verus! {

// ---------------------------------------------------------------- calls to the model

/// Why no request may be sent: invalid settings, or no key.
pub fn completion_refusal(s: &Settings) -> (r: Option<String>)
    ensures
        settings_error(*s) matches Some(e) ==> (r matches Some(m) && m@ == e),
        settings_error(*s) is None && s.api_key@.len() == 0 ==> (r matches Some(m) && m@ == missing_key_message()),
        settings_error(*s) is None && s.api_key@.len() > 0 ==> r is None,
{
    match validate_settings(s) {
        Err(e) => Some(e),
        Ok(()) => backend_access_error(s),
    }
}

/// The message for an HTTP status that is not a success (outside 200–299).
pub open spec fn http_failure_message(code: u16) -> Option<Seq<char>> {
    if 200 <= code <= 299 {
        None
    } else if code == 401 || code == 403 {
        Some("AI 服务拒绝了认证，请检查 API key 与权限"@)
    } else if code == 404 {
        Some("AI 接口或模型不存在，请检查 API 地址与模型名"@)
    } else if code == 429 {
        Some("AI 服务限流或额度不足，请稍后重试"@)
    } else {
        Some("AI 服务返回 HTTP "@ + decimal(code as nat) + "，请检查模型和接口设置"@)
    }
}

/// The failure that an HTTP status stands for, if any.
pub fn http_failure(code: u16) -> (r: Option<String>)
    ensures
        match http_failure_message(code) {
            Some(m) => r matches Some(x) && x@ == m,
            None => r is None,
        },
{
    if 200 <= code && code <= 299 {
        None
    } else if code == 401 || code == 403 {
        Some(String::from_str("AI 服务拒绝了认证，请检查 API key 与权限"))
    } else if code == 404 {
        Some(String::from_str("AI 接口或模型不存在，请检查 API 地址与模型名"))
    } else if code == 429 {
        Some(String::from_str("AI 服务限流或额度不足，请稍后重试"))
    } else {
        let mut m = String::from_str("AI 服务返回 HTTP ");
        let number = decimal_string(code as u32);
        m.append(number.as_str());
        m.append("，请检查模型和接口设置");
        Some(m)
    }
}

/// A reply body may hold at most two million bytes.
pub fn reply_too_large(len: u64) -> (r: bool)
    ensures
        r == (len > 2_000_000),
{
    len > 2_000_000
}

/// The answer's content as the reply holds it: a text, a list of parts (each with its text
/// if it has one), or neither.
#[derive(Clone, Debug)]
pub enum ReplyContent {
    Text(String),
    Parts(Vec<Option<String>>),
    Missing,
}

/// The texts of the parts that have one.
pub open spec fn part_texts(parts: Seq<Option<String>>) -> Seq<Seq<char>>
    decreases parts.len(),
{
    if parts.len() == 0 {
        Seq::empty()
    } else {
        let rest = part_texts(parts.drop_last());
        match parts.last() {
            Some(t) => rest.push(t@),
            None => rest,
        }
    }
}

/// The answer's text: the text itself, or the part texts joined by line breaks; an error
/// when there is no content or the text is empty.
pub open spec fn answer_text(c: ReplyContent) -> Result<Seq<char>, Seq<char>> {
    let text = match c {
        ReplyContent::Text(s) => Some(s@),
        ReplyContent::Parts(p) => Some(joined(part_texts(p@), "\n"@)),
        ReplyContent::Missing => None,
    };
    match text {
        None => Err("AI 服务未返回回答内容，请确认兼容 Chat Completions"@),
        Some(t) => if t.len() == 0 { Err("AI 回答为空"@) } else { Ok(t) },
    }
}

/// The text of the model's answer.
pub fn reply_text(c: ReplyContent) -> (r: Result<String, String>)
    ensures
        match answer_text(c) {
            Ok(t) => r matches Ok(x) && x@ == t,
            Err(e) => r matches Err(x) && x@ == e,
        },
{
    let text = match c {
        ReplyContent::Text(s) => s,
        ReplyContent::Parts(p) => {
            let mut texts: Vec<String> = Vec::new();
            let n = p.len();
            for i in 0..n
                invariant
                    n == p@.len(),
                    texts@.map_values(|t: String| t@) =~= part_texts(p@.take(i as int)),
            {
                assert(p@.take(i + 1).drop_last() =~= p@.take(i as int));
                match &p[i] {
                    Some(t) => {
                        let ghost before = texts@.map_values(|t: String| t@);
                        texts.push(t.clone());
                        assert(texts@.map_values(|t: String| t@) =~= before.push(t@));
                    },
                    None => {},
                }
            }
            assert(p@.take(n as int) =~= p@);
            join_strings(&texts, "\n")
        },
        ReplyContent::Missing => {
            return Err(String::from_str("AI 服务未返回回答内容，请确认兼容 Chat Completions"));
        },
    };
    if text.as_str().is_empty() {
        return Err(String::from_str("AI 回答为空"));
    }
    Ok(text)
}

/// The picture test passes when the model answered something besides white space.
pub fn picture_test_result(text: &str) -> (r: Result<(), String>)
    ensures
        blank(text@) ==> (r matches Err(m) && m@ == "模型未返回图片测试结果"@),
        !blank(text@) ==> r is Ok,
{
    if is_blank(text) {
        Err(String::from_str("模型未返回图片测试结果"))
    } else {
        Ok(())
    }
}

// ---------------------------------------------------------------- context for an analysis

/// An earlier judged live record of the same session.
pub open spec fn earlier_judgment(x: Sample, s: Sample) -> bool {
    x.mode@ == "live"@ && x.session_id@ == s.session_id@ && x.captured_at < s.captured_at && x.analysis is Some
}

/// The positions of up to five earlier judgments of the record's session, latest first.
pub fn recent_history(samples: &Vec<Sample>, s: &Sample) -> (r: Vec<usize>)
    ensures
        r@.len() <= 5,
        forall|k: int| 0 <= k < r@.len() ==> (#[trigger] r@[k]) < samples@.len() && earlier_judgment(samples@[r@[k] as int], *s),
        forall|a: int, b: int| 0 <= a < b < r@.len() ==> r@[a] > r@[b],
        forall|j: int| 0 <= j < samples@.len() && earlier_judgment(#[trigger] samples@[j], *s)
            ==> r@.contains(j as usize) || (r@.len() == 5 && j < r@[4]),
{
    let mut r: Vec<usize> = Vec::new();
    let mut i = samples.len();
    while i > 0 && r.len() < 5
        invariant
            i <= samples@.len(),
            r@.len() <= 5,
            forall|k: int| 0 <= k < r@.len() ==> #[trigger] r@[k] >= i,
            forall|k: int| 0 <= k < r@.len() ==> (#[trigger] r@[k]) < samples@.len() && earlier_judgment(samples@[r@[k] as int], *s),
            forall|a: int, b: int| 0 <= a < b < r@.len() ==> r@[a] > r@[b],
            forall|j: int| i <= j < samples@.len() && earlier_judgment(#[trigger] samples@[j], *s) ==> r@.contains(j as usize),
        decreases i,
    {
        i = i - 1;
        let x = &samples[i];
        if str_eq(x.mode.as_str(), "live") && str_eq(x.session_id.as_str(), s.session_id.as_str())
            && x.captured_at < s.captured_at && x.analysis.is_some() {
            let ghost prev = r@;
            r.push(i);
            assert(r@ =~= prev.push(i));
            assert forall|j: int| i <= j < samples@.len() && earlier_judgment(#[trigger] samples@[j], *s)
                implies r@.contains(j as usize) by {
                if j == i {
                    assert(r@[r@.len() - 1] == i);
                } else {
                    assert(prev.contains(j as usize));
                    let w = choose|w: int| 0 <= w < prev.len() && prev[w] == j as usize;
                    assert(r@[w] == j as usize);
                }
            }
        }
    }
    proof {
        assert forall|j: int| 0 <= j < samples@.len() && earlier_judgment(#[trigger] samples@[j], *s)
            implies r@.contains(j as usize) || (r@.len() == 5 && j < r@[4]) by {
            if j < i {
                assert(r@.len() == 5);
                assert(r@[4] >= i);
            }
        }
    }
    r
}

/// The label put before a picture: its display's number, name and time, or a note that
/// it is a legacy single-screen picture.
pub open spec fn picture_label(screens: Seq<ScreenCapture>, file: Seq<char>) -> Seq<char> {
    match first_with_file(screens, file, 0) {
        Some(k) => "屏幕 "@ + decimal(screens[k].display_id as nat) + " · "@ + screens[k].display_name@
            + " · 截图时间 "@ + signed_decimal(screens[k].captured_at as int),
        None => "屏幕（旧版单屏记录，显示器编号未知）"@,
    }
}

/// The position of the first display stored under `file`, from position `k` on.
pub open spec fn first_with_file(screens: Seq<ScreenCapture>, file: Seq<char>, k: int) -> Option<int>
    decreases screens.len() - k,
{
    if 0 <= k < screens.len() {
        if screens[k].file matches Some(f) && f@ == file { Some(k) } else { first_with_file(screens, file, k + 1) }
    } else {
        None
    }
}

/// The label for picture `file` of record `s`.
pub fn screen_label(s: &Sample, file: &str) -> (r: String)
    ensures
        r@ == picture_label(s.screens@, file@),
{
    let n = s.screens.len();
    let mut k: usize = 0;
    while k < n
        invariant
            n == s.screens@.len(),
            k <= n,
            first_with_file(s.screens@, file@, 0) == first_with_file(s.screens@, file@, k as int),
        decreases n - k,
    {
        let hit = match &s.screens[k].file {
            Some(f) => str_eq(f.as_str(), file),
            None => false,
        };
        if hit {
            let sc = &s.screens[k];
            let mut r = String::from_str("屏幕 ");
            let number = decimal_string(sc.display_id);
            r.append(number.as_str());
            r.append(" · ");
            r.append(sc.display_name.as_str());
            r.append(" · 截图时间 ");
            let time = decimal_i64(sc.captured_at);
            r.append(time.as_str());
            return r;
        }
        k = k + 1;
    }
    String::from_str("屏幕（旧版单屏记录，显示器编号未知）")
}

/// What the analysis says of the camera: the local presence note, or that no camera picture
/// was sent.
pub fn camera_note(s: &Sample) -> (r: String)
    ensures
        r@ == match s.evidence {
            Some(e) => e.presence.reason@,
            None => "本次未上传摄像头画面"@,
        },
{
    match &s.evidence {
        Some(e) => e.presence.reason.clone(),
        None => String::from_str("本次未上传摄像头画面"),
    }
}

} // verus!
