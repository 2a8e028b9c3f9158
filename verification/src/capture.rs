//! Screenshot groups as the recorder hands them over: the checks they pass, the decoding of
//! each picture, and the pending record they become.
use vstd::prelude::*;
use base64::Engine;
use crate::ieee::{is_finite, is_finite_bits, SIGN_BIT};
use crate::text::{byte_len, byte_length, decimal, decimal_string, joined, join_strings, str_eq};
use crate::models::{Activity, CaptureEvidence, MAX_DISPLAYS, Sample, ScreenCapture, Session};

verus! {

broadcast use vstd::string::group_string_axioms;

// ---------------------------------------------------------------- outside calls

/// What `base64::engine::general_purpose::STANDARD.decode` makes of `s` (`None` where it
/// reports an error).
pub uninterp spec fn base64_decoded(s: Seq<char>) -> Option<Seq<u8>>;

/// What `image::ImageReader::new(Cursor::new(bytes)).with_guessed_format()` and then
/// `into_dimensions()` give: `None` where the format guess fails, `Some(None)` where the
/// dimensions cannot be read, else the width and height.
pub uninterp spec fn probed_size(bytes: Seq<u8>) -> Option<Option<(u32, u32)>>;

/// `image::load_from_memory(bytes)` succeeds.
pub uninterp spec fn picture_decodes(bytes: Seq<u8>) -> bool;

/// The bytes that `DynamicImage::write_to(.., ImageFormat::Jpeg)` writes for the picture that
/// `image::load_from_memory(bytes)` decodes (`None` where writing fails).
pub uninterp spec fn jpeg_copy(bytes: Seq<u8>) -> Option<Seq<u8>>;

/// Calls `STANDARD.decode` (standard alphabet, padding required). The contract only ties the
/// result to the named `base64_decoded`.
#[verifier::external_body]
pub(crate) fn base64_decode(s: &str) -> (r: Option<Vec<u8>>)
    ensures
        match r {
            Some(b) => base64_decoded(s@) == Some(b@),
            None => base64_decoded(s@) is None,
        },
{
    base64::engine::general_purpose::STANDARD.decode(s).ok()
}

/// Guesses the picture format from its first bytes and reads the dimensions from its header.
/// The program registers no format hooks, so the guess depends on the bytes alone.
#[verifier::external_body]
fn probe_size(bytes: &Vec<u8>) -> (r: Option<Option<(u32, u32)>>)
    ensures
        r == probed_size(bytes@),
{
    match image::ImageReader::new(std::io::Cursor::new(bytes)).with_guessed_format() {
        Ok(reader) => Some(reader.into_dimensions().ok()),
        Err(_) => None,
    }
}

/// Why a picture could not be turned into a JPEG copy.
#[derive(Clone, Copy, Debug, PartialEq, Eq, Structural)]
pub enum PictureFault {
    Undecodable,
    Unwritable,
}

/// Decodes the picture with `image::load_from_memory` and writes it again as JPEG. The
/// contract only ties the outcome to the named `picture_decodes` and `jpeg_copy`.
#[verifier::external_body]
fn jpeg_reencode(bytes: &Vec<u8>) -> (r: Result<Vec<u8>, PictureFault>)
    ensures
        match r {
            Ok(out) => picture_decodes(bytes@) && jpeg_copy(bytes@) == Some(out@),
            Err(PictureFault::Undecodable) => !picture_decodes(bytes@),
            Err(PictureFault::Unwritable) => picture_decodes(bytes@) && jpeg_copy(bytes@) is None,
        },
{
    match image::load_from_memory(bytes) {
        Err(_) => Err(PictureFault::Undecodable),
        Ok(picture) => {
            let mut out = std::io::Cursor::new(Vec::new());
            match picture.write_to(&mut out, image::ImageFormat::Jpeg) {
                Ok(()) => Ok(out.into_inner()),
                Err(_) => Err(PictureFault::Unwritable),
            }
        },
    }
}

// ---------------------------------------------------------------- pictures

/// The part of `s` after `prefix`, if `s` starts with it.
pub open spec fn after_prefix(s: Seq<char>, prefix: Seq<char>) -> Option<Seq<char>> {
    if s.len() >= prefix.len() && s.take(prefix.len() as int) == prefix {
        Some(s.skip(prefix.len() as int))
    } else {
        None
    }
}

/// The base64 text of a JPEG or PNG data URL.
pub open spec fn picture_payload(data: Seq<char>) -> Option<Seq<char>> {
    match after_prefix(data, "data:image/jpeg;base64,"@) {
        Some(b) => Some(b),
        None => after_prefix(data, "data:image/png;base64,"@),
    }
}

/// At most 2560 pixels each way and five million in all, none of them empty.
pub open spec fn size_allowed(w: u32, h: u32) -> bool {
    w != 0 && h != 0 && w <= 2560 && h <= 2560 && w * h <= 5_000_000
}

/// The JPEG bytes kept for one uploaded picture, or the reason it is refused.
pub open spec fn decoded_picture(data: Seq<char>) -> Result<Seq<u8>, Seq<char>> {
    match picture_payload(data) {
        None => Err("仅接受 JPEG / PNG 图片"@),
        Some(b64) => if byte_len(b64) > 3_000_000 {
            Err("单张图片过大，请降低采样分辨率"@)
        } else {
            match base64_decoded(b64) {
                None => Err("图片编码无效"@),
                Some(bytes) => match probed_size(bytes) {
                    None => Err("图片格式无效"@),
                    Some(None) => Err("图片数据损坏"@),
                    Some(Some((w, h))) => if !size_allowed(w, h) {
                        Err("图片分辨率超出限制"@)
                    } else if !picture_decodes(bytes) {
                        Err("图片数据无法解码"@)
                    } else {
                        match jpeg_copy(bytes) {
                            None => Err("图片保存失败"@),
                            Some(out) => Ok(out),
                        }
                    },
                },
            }
        },
    }
}

/// Whether a picture of `w` by `h` pixels is within the limits.
pub fn allowed_size(w: u32, h: u32) -> (r: bool)
    ensures
        r == size_allowed(w, h),
{
    if w == 0 || h == 0 || w > 2560 || h > 2560 {
        return false;
    }
    assert((w as u64) * (h as u64) <= 2560 * 2560) by (nonlinear_arith)
        requires
            w <= 2560,
            h <= 2560,
    ;
    (w as u64) * (h as u64) <= 5_000_000
}

/// The rest of `s` after `prefix`, if `s` starts with it.
pub(crate) fn strip_prefix<'a>(s: &'a str, prefix: &str) -> (r: Option<&'a str>)
    ensures
        match r {
            Some(rest) => after_prefix(s@, prefix@) == Some(rest@),
            None => after_prefix(s@, prefix@) is None,
        },
{
    let n = prefix.unicode_len();
    let len = s.unicode_len();
    if len < n {
        return None;
    }
    let head = s.substring_char(0, n);
    if !str_eq(head, prefix) {
        return None;
    }
    Some(s.substring_char(n, len))
}

/// Decodes a JPEG or PNG data URL and keeps the picture as JPEG bytes.
pub fn decode_image(data: &str) -> (r: Result<Vec<u8>, String>)
    ensures
        match r {
            Ok(out) => decoded_picture(data@) == Ok::<Seq<u8>, Seq<char>>(out@),
            Err(e) => decoded_picture(data@) == Err::<Seq<u8>, Seq<char>>(e@),
        },
{
    let b64 = match strip_prefix(data, "data:image/jpeg;base64,") {
        Some(b) => b,
        None => match strip_prefix(data, "data:image/png;base64,") {
            Some(b) => b,
            None => return Err(String::from_str("仅接受 JPEG / PNG 图片")),
        },
    };
    if byte_length(b64) > 3_000_000 {
        return Err(String::from_str("单张图片过大，请降低采样分辨率"));
    }
    let bytes = match base64_decode(b64) {
        Some(b) => b,
        None => return Err(String::from_str("图片编码无效")),
    };
    let (w, h) = match probe_size(&bytes) {
        None => return Err(String::from_str("图片格式无效")),
        Some(None) => return Err(String::from_str("图片数据损坏")),
        Some(Some(size)) => size,
    };
    if !allowed_size(w, h) {
        return Err(String::from_str("图片分辨率超出限制"));
    }
    match jpeg_reencode(&bytes) {
        Ok(out) => Ok(out),
        Err(PictureFault::Undecodable) => Err(String::from_str("图片数据无法解码")),
        Err(PictureFault::Unwritable) => Err(String::from_str("图片保存失败")),
    }
}

} // verus!

verus! {

// ---------------------------------------------------------------- screenshot groups

/// One display of an uploaded group: a picture as a data URL, or the reason it is missing.
#[derive(Clone, Debug)]
pub struct ScreenInput {
    pub display_id: u32,
    pub display_name: String,
    pub captured_at: i64,
    pub image: Option<String>,
    pub error: Option<String>,
}

/// A screenshot group as the recorder uploads it. `screen` is the legacy single picture.
#[derive(Clone, Debug)]
pub struct CaptureInput {
    pub screens: Vec<ScreenInput>,
    pub evidence: Option<CaptureEvidence>,
    pub activity: Activity,
    pub capture_warning: Option<String>,
    pub id: String,
    pub session_id: String,
    pub captured_at: i64,
    pub screen: String,
    pub camera: Option<String>,
    pub capture_source: String,
}

/// A JPEG to be written under `captures/` with the record.
#[derive(Clone, Debug)]
pub struct PendingImage {
    pub name: String,
    pub bytes: Vec<u8>,
}

/// What an upload comes to: the record already stored under its id, or a new pending record
/// with the pictures to write first.
#[derive(Clone, Debug)]
pub enum Admission {
    Known(Sample),
    Fresh { sample: Sample, images: Vec<PendingImage> },
}

/// A frame as plain values: display, name, time, picture and error.
pub struct FrameModel {
    pub display_id: u32,
    pub display_name: Seq<char>,
    pub captured_at: i64,
    pub image: Option<Seq<char>>,
    pub error: Option<Seq<char>>,
}

pub open spec fn opt_view(o: Option<String>) -> Option<Seq<char>> {
    match o {
        Some(s) => Some(s@),
        None => None,
    }
}

pub open spec fn frame_view(f: ScreenInput) -> FrameModel {
    FrameModel {
        display_id: f.display_id,
        display_name: f.display_name@,
        captured_at: f.captured_at,
        image: opt_view(f.image),
        error: opt_view(f.error),
    }
}

/// A stored display as plain values: id, name, time, file and error.
pub open spec fn screen_view(s: ScreenCapture) -> (u32, Seq<char>, i64, Option<Seq<char>>, Option<Seq<char>>) {
    (s.display_id, s.display_name@, s.captured_at, opt_view(s.file), opt_view(s.error))
}

pub open spec fn legacy_name() -> Seq<char> {
    "屏幕（旧版记录）"@
}

/// An upload without a display list is a legacy single-screen upload.
pub open spec fn is_legacy(input: CaptureInput) -> bool {
    input.screens@.len() == 0
}

/// The frames of an upload: its displays, or the legacy picture as display 0.
pub open spec fn frames_of(input: CaptureInput) -> Seq<FrameModel> {
    if is_legacy(input) {
        seq![FrameModel {
            display_id: 0,
            display_name: legacy_name(),
            captured_at: input.captured_at,
            image: Some(input.screen@),
            error: None,
        }]
    } else {
        input.screens@.map_values(|f: ScreenInput| frame_view(f))
    }
}

/// A frame is refused for a bad or repeated display, a bad name, a time outside the window
/// of the group, a bad error text, or for holding both or neither of picture and error.
pub open spec fn frame_refused(f: FrameModel, earlier: Seq<FrameModel>, legacy: bool, at: i64, now: i64) -> bool {
    ||| !legacy && f.display_id == 0
    ||| (exists|j: int| 0 <= j < earlier.len() && #[trigger] earlier[j].display_id == f.display_id)
    ||| f.display_name.len() == 0
    ||| byte_len(f.display_name) > 300
    ||| f.captured_at < at - 3000
    ||| f.captured_at > at + 30_000
    ||| f.captured_at > now + 3000
    ||| (f.error matches Some(e) && (e.len() == 0 || byte_len(e) > 1000))
    ||| (f.image is Some) == (f.error is Some)
}

/// The file a display's picture is stored under.
pub open spec fn picture_file(id: Seq<char>, display_id: u32) -> Seq<char> {
    id + "-screen-"@ + decimal(display_id as nat) + ".jpg"@
}

pub open spec fn frame_refused_message() -> Seq<char> {
    "屏幕编号、时间或采集结果无效"@
}

/// The frames in order: the stored displays and pictures, or the error of the first frame
/// that is refused or whose picture does not decode.
pub open spec fn frames_outcome(frames: Seq<FrameModel>, legacy: bool, at: i64, now: i64, id: Seq<char>)
    -> Result<(Seq<(u32, Seq<char>, i64, Option<Seq<char>>, Option<Seq<char>>)>, Seq<(Seq<char>, Seq<u8>)>), Seq<char>>
    decreases frames.len(),
{
    if frames.len() == 0 {
        Ok((Seq::empty(), Seq::empty()))
    } else {
        match frames_outcome(frames.drop_last(), legacy, at, now, id) {
            Err(e) => Err(e),
            Ok((screens, images)) => {
                let f = frames.last();
                if frame_refused(f, frames.drop_last(), legacy, at, now) {
                    Err(frame_refused_message())
                } else {
                    match f.image {
                        Some(data) => match decoded_picture(data) {
                            Err(e) => Err(e),
                            Ok(bytes) => {
                                let name = picture_file(id, f.display_id);
                                Ok((screens.push((f.display_id, f.display_name, f.captured_at, Some(name), f.error)),
                                    images.push((name, bytes))))
                            },
                        },
                        None => Ok((screens.push((f.display_id, f.display_name, f.captured_at, None, f.error)), images)),
                    }
                }
            },
        }
    }
}

} // verus!

verus! {

/// What a group's pictures, warnings and stored displays come to.
pub struct CaptureModel {
    pub screens: Seq<(u32, Seq<char>, i64, Option<Seq<char>>, Option<Seq<char>>)>,
    pub images: Seq<(Seq<char>, Seq<u8>)>,
    pub warnings: Seq<Seq<char>>,
}

/// One line per display that failed: its name, number and error.
pub open spec fn screen_warnings(screens: Seq<(u32, Seq<char>, i64, Option<Seq<char>>, Option<Seq<char>>)>) -> Seq<Seq<char>>
    decreases screens.len(),
{
    if screens.len() == 0 {
        Seq::empty()
    } else {
        let rest = screen_warnings(screens.drop_last());
        let s = screens.last();
        match s.4 {
            Some(e) => rest.push(s.1 + "（屏幕 "@ + decimal(s.0 as nat) + "）："@ + e),
            None => rest,
        }
    }
}

/// The foreground window's display is known and no picture of it was taken.
pub open spec fn foreground_missing(fg: Option<u32>, screens: Seq<(u32, Seq<char>, i64, Option<Seq<char>>, Option<Seq<char>>)>) -> bool {
    fg matches Some(id) && !(exists|j: int| 0 <= j < screens.len() && #[trigger] screens[j].0 == id && screens[j].3 is Some)
}

pub open spec fn foreground_message() -> Seq<char> {
    "前台窗口所在屏幕未包含在本次画面中，无法完整观察当前操作"@
}

/// The activity reading is malformed: too many switches, names too long, or an idle time
/// that is not a finite non-negative number.
pub open spec fn activity_malformed(a: Activity) -> bool {
    ||| a.switches@.len() > 500
    ||| byte_len(a.app_name@) > 300
    ||| byte_len(a.bundle_id@) > 300
    ||| byte_len(a.window_title@) > 1500
    ||| !is_finite(a.idle_seconds_bits)
    ||| a.idle_seconds_bits > SIGN_BIT
}

/// The checks of a new upload against its live session, in the order they are made, and
/// what the group comes to when all pass.
pub open spec fn fresh_capture(input: CaptureInput, session: Session, now: i64) -> Result<CaptureModel, Seq<char>> {
    let at = input.captured_at;
    if session.ended_at is Some || session.mode@ != "live"@ {
        Err("本次记录已停止"@)
    } else if at < session.started_at - 1000 || at > now + 3000 || now - at > 120_000 {
        Err("采样时间无效或过期，请检查电脑时间"@)
    } else if byte_len(input.capture_source@) > 300 {
        Err("共享来源描述过长"@)
    } else if activity_malformed(input.activity) {
        Err("应用活动信息格式无效"@)
    } else if input.camera is Some {
        Err("摄像头画面只允许本地处理，不再接受上传或保存"@)
    } else if !is_legacy(input) && input.screen@.len() > 0 {
        Err("请使用多屏图片列表，不要重复提交旧版单图"@)
    } else if frames_of(input).len() > MAX_DISPLAYS {
        Err("一次最多记录 16 块显示器"@)
    } else {
        match frames_outcome(frames_of(input), is_legacy(input), at, now, input.id@) {
            Err(e) => Err(e),
            Ok((screens, images)) => if images.len() == 0 {
                Err("所有选中屏幕均采集失败，本次不提交分析"@)
            } else {
                let warnings = screen_warnings(screens) + if foreground_missing(input.activity.foreground_display_id, screens) {
                    seq![foreground_message()]
                } else {
                    Seq::empty()
                };
                match input.capture_warning {
                    Some(w) => if w@.len() == 0 {
                        Ok(CaptureModel { screens, images, warnings })
                    } else if byte_len(w@) > 2000 {
                        Err("采集提示过长"@)
                    } else {
                        Ok(CaptureModel { screens, images, warnings: warnings.push(w@) })
                    },
                    None => Ok(CaptureModel { screens, images, warnings }),
                }
            },
        }
    }
}

/// An upload under a stored id returns that record if it belongs to the same session.
/// Otherwise the session must exist; `Ok(None)` stands for the stored record.
pub open spec fn admission(input: CaptureInput, existing: Option<Sample>, session: Option<Session>, now: i64)
    -> Result<Option<CaptureModel>, Seq<char>>
{
    match existing {
        Some(s) => if s.session_id@ == input.session_id@ { Ok(None) } else { Err("采样 ID 冲突"@) },
        None => match session {
            None => Err("记录会话不存在"@),
            Some(ses) => match fresh_capture(input, ses, now) {
                Ok(m) => Ok(Some(m)),
                Err(e) => Err(e),
            },
        },
    }
}

pub open spec fn max_i64(a: i64, b: i64) -> i64 {
    if a >= b { a } else { b }
}

/// The evidence kept with an uploaded group: marked as the model's, never away, and valid
/// until the later of its capture and its arrival.
pub open spec fn evidence_kept(kept: Option<CaptureEvidence>, given: Option<CaptureEvidence>, at: i64, now: i64) -> bool {
    match given {
        None => kept is None,
        Some(e) => kept matches Some(k) && k.basis@ == "ai"@ && k.trigger == e.trigger && k.presence == e.presence
            && !k.away && k.valid_until == max_i64(now, at),
    }
}

/// The pending record that a new group becomes.
pub open spec fn fresh_record(s: Sample, images: Seq<PendingImage>, input: CaptureInput, session: Session, now: i64, m: CaptureModel) -> bool {
    &&& s.screens@.map_values(|c: ScreenCapture| screen_view(c)) == if is_legacy(input) { Seq::empty() } else { m.screens }
    &&& images.map_values(|p: PendingImage| (p.name@, p.bytes@)) == m.images
    &&& evidence_kept(s.evidence, input.evidence, input.captured_at, now)
    &&& s.activity == input.activity
    &&& opt_view(s.capture_warning) == if m.warnings.len() == 0 { None } else { Some(joined(m.warnings, "；"@)) }
    &&& s.id@ == input.id@
    &&& s.session_id@ == session.id@
    &&& s.captured_at == max_i64(input.captured_at, session.started_at)
    &&& s.interval_seconds == session.interval_seconds
    &&& s.mode@ == "live"@
    &&& s.task@ == session.task@
    &&& opt_view(s.screen) == Some(m.images[0].0)
    &&& s.camera is None
    &&& s.capture_source@ == input.capture_source@
    &&& s.state@ == "pending"@
    &&& s.analysis is None
    &&& s.error is None
    &&& s.correction is None
    &&& s.correction_note@.len() == 0
}

} // verus!

verus! {

/// A copy of an optional text.
pub fn copy_text(o: &Option<String>) -> (r: Option<String>)
    ensures
        r == *o,
{
    match o {
        Some(s) => Some(s.clone()),
        None => None,
    }
}

pub open spec fn frames_view(frames: Seq<ScreenInput>) -> Seq<FrameModel> {
    frames.map_values(|f: ScreenInput| frame_view(f))
}

/// Whether frame `i` is refused, given the frames before it.
fn frame_is_refused(frames: &Vec<ScreenInput>, i: usize, legacy: bool, at: i64, now: i64) -> (r: bool)
    requires
        i < frames@.len(),
    ensures
        r == frame_refused(frames_view(frames@)[i as int], frames_view(frames@).take(i as int), legacy, at, now),
{
    let ghost fm = frames_view(frames@);
    let f = &frames[i];
    if !legacy && f.display_id == 0 {
        return true;
    }
    for j in 0..i
        invariant
            i < frames@.len(),
            fm == frames_view(frames@),
            f == frames@[i as int],
            forall|k: int| 0 <= k < j ==> fm.take(i as int)[k].display_id != f.display_id,
    {
        if frames[j].display_id == f.display_id {
            assert(fm.take(i as int)[j as int].display_id == fm[i as int].display_id);
            return true;
        }
    }
    assert(!(exists|j: int| 0 <= j < fm.take(i as int).len() && #[trigger] fm.take(i as int)[j].display_id == fm[i as int].display_id));
    let name_len = byte_length(f.display_name.as_str());
    if f.display_name.as_str().is_empty() || name_len > 300 {
        return true;
    }
    let t = f.captured_at as i128;
    if t < at as i128 - 3000 || t > at as i128 + 30_000 || t > now as i128 + 3000 {
        return true;
    }
    match &f.error {
        Some(e) => {
            if e.as_str().is_empty() || byte_length(e.as_str()) > 1000 {
                return true;
            }
        },
        None => {},
    }
    f.image.is_some() == f.error.is_some()
}

/// The file name of display `display_id`'s picture in group `id`.
fn picture_file_name(id: &str, display_id: u32) -> (r: String)
    ensures
        r@ == picture_file(id@, display_id),
{
    let mut name = String::from_str(id);
    name.append("-screen-");
    let number = decimal_string(display_id);
    name.append(number.as_str());
    name.append(".jpg");
    proof {
        reveal_strlit("-screen-");
        reveal_strlit(".jpg");
    }
    name
}

/// Once a prefix of the frames fails, the whole group fails the same way.
proof fn lemma_frames_error_sticks(fm: Seq<FrameModel>, k: int, legacy: bool, at: i64, now: i64, id: Seq<char>)
    requires
        0 <= k <= fm.len(),
        frames_outcome(fm.take(k), legacy, at, now, id) is Err,
    ensures
        frames_outcome(fm, legacy, at, now, id) == frames_outcome(fm.take(k), legacy, at, now, id),
    decreases fm.len() - k,
{
    if k < fm.len() {
        assert(fm.take(k + 1).drop_last() =~= fm.take(k));
        lemma_frames_error_sticks(fm, k + 1, legacy, at, now, id);
    } else {
        assert(fm.take(k) =~= fm);
    }
}

/// The stored displays and pictures of a group's frames, in order, or the error of the first
/// frame that is refused or whose picture does not decode.
fn process_frames(frames: &Vec<ScreenInput>, legacy: bool, at: i64, now: i64, id: &str)
    -> (r: Result<(Vec<ScreenCapture>, Vec<PendingImage>), String>)
    ensures
        match r {
            Ok((screens, images)) => frames_outcome(frames_view(frames@), legacy, at, now, id@) matches Ok((s, im))
                && s == screens@.map_values(|c: ScreenCapture| screen_view(c))
                && im == images@.map_values(|p: PendingImage| (p.name@, p.bytes@)),
            Err(e) => frames_outcome(frames_view(frames@), legacy, at, now, id@) == Err::<(Seq<(u32, Seq<char>, i64, Option<Seq<char>>, Option<Seq<char>>)>, Seq<(Seq<char>, Seq<u8>)>), Seq<char>>(e@),
        },
{
    let ghost fm = frames_view(frames@);
    let mut screens: Vec<ScreenCapture> = Vec::new();
    let mut images: Vec<PendingImage> = Vec::new();
    let n = frames.len();
    assert(fm.take(0) =~= Seq::<FrameModel>::empty());
    for i in 0..n
        invariant
            n == frames@.len(),
            fm == frames_view(frames@),
            frames_outcome(fm.take(i as int), legacy, at, now, id@) matches Ok((s, im))
                && s == screens@.map_values(|c: ScreenCapture| screen_view(c))
                && im == images@.map_values(|p: PendingImage| (p.name@, p.bytes@)),
    {
        assert(fm.take(i + 1).drop_last() =~= fm.take(i as int));
        assert(fm.take(i + 1).last() == fm[i as int]);
        if frame_is_refused(frames, i, legacy, at, now) {
            proof {
                lemma_frames_error_sticks(fm, i + 1, legacy, at, now, id@);
            }
            return Err(String::from_str("屏幕编号、时间或采集结果无效"));
        }
        let f = &frames[i];
        let file = match &f.image {
            Some(data) => {
                match decode_image(data.as_str()) {
                    Err(e) => {
                        proof {
                            lemma_frames_error_sticks(fm, i + 1, legacy, at, now, id@);
                        }
                        return Err(e);
                    },
                    Ok(bytes) => {
                        let name = picture_file_name(id, f.display_id);
                        let file = name.clone();
                        images.push(PendingImage { name, bytes });
                        Some(file)
                    },
                }
            },
            None => None,
        };
        screens.push(ScreenCapture {
            display_id: f.display_id,
            display_name: f.display_name.clone(),
            captured_at: f.captured_at,
            file,
            error: copy_text(&f.error),
        });
        assert(screens@.map_values(|c: ScreenCapture| screen_view(c)) =~= (match frames_outcome(fm.take(i as int), legacy, at, now, id@) { Ok((s, _)) => s, Err(_) => Seq::empty() }).push(screen_view(screens@.last())));
        assert(images@.map_values(|p: PendingImage| (p.name@, p.bytes@)) =~= (match frames_outcome(fm.take(i as int), legacy, at, now, id@) { Ok((_, im)) => im, Err(_) => Seq::empty() }) + if f.image is Some { seq![(images@.last().name@, images@.last().bytes@)] } else { Seq::empty() });
    }
    assert(fm.take(n as int) =~= fm);
    Ok((screens, images))
}

} // verus!

verus! {

pub open spec fn screens_view(screens: Seq<ScreenCapture>) -> Seq<(u32, Seq<char>, i64, Option<Seq<char>>, Option<Seq<char>>)> {
    screens.map_values(|c: ScreenCapture| screen_view(c))
}

/// One warning line per display that failed.
fn warning_lines(screens: &Vec<ScreenCapture>) -> (r: Vec<String>)
    ensures
        r@.map_values(|w: String| w@) == screen_warnings(screens_view(screens@)),
{
    let ghost sv = screens_view(screens@);
    let mut r: Vec<String> = Vec::new();
    let n = screens.len();
    assert(sv.take(0) =~= Seq::<(u32, Seq<char>, i64, Option<Seq<char>>, Option<Seq<char>>)>::empty());
    for i in 0..n
        invariant
            n == screens@.len(),
            sv == screens_view(screens@),
            r@.map_values(|w: String| w@) == screen_warnings(sv.take(i as int)),
    {
        assert(sv.take(i + 1).drop_last() =~= sv.take(i as int));
        assert(sv.take(i + 1).last() == screen_view(screens@[i as int]));
        let s = &screens[i];
        match &s.error {
            Some(e) => {
                let mut line = s.display_name.clone();
                line.append("（屏幕 ");
                let number = decimal_string(s.display_id);
                line.append(number.as_str());
                line.append("）：");
                line.append(e.as_str());
                proof {
                    reveal_strlit("（屏幕 ");
                    reveal_strlit("）：");
                }
                r.push(line);
                assert(r@.map_values(|w: String| w@) =~= screen_warnings(sv.take(i as int)).push(line@));
            },
            None => {},
        }
    }
    assert(sv.take(n as int) =~= sv);
    r
}

/// Whether the foreground display is known and none of its pictures was taken.
fn foreground_uncovered(fg: Option<u32>, screens: &Vec<ScreenCapture>) -> (r: bool)
    ensures
        r == foreground_missing(fg, screens_view(screens@)),
{
    match fg {
        None => false,
        Some(id) => {
            let n = screens.len();
            let mut found = false;
            for i in 0..n
                invariant
                    n == screens@.len(),
                    found ==> exists|j: int| 0 <= j < screens_view(screens@).len()
                        && #[trigger] screens_view(screens@)[j].0 == id && screens_view(screens@)[j].3 is Some,
                    !found ==> forall|j: int| 0 <= j < i ==> !(#[trigger] screens_view(screens@)[j].0 == id
                        && screens_view(screens@)[j].3 is Some),
            {
                if screens[i].display_id == id && screens[i].file.is_some() {
                    assert(screens_view(screens@)[i as int].0 == id && screens_view(screens@)[i as int].3 is Some);
                    found = true;
                }
            }
            !found
        },
    }
}

fn larger(a: i64, b: i64) -> (r: i64)
    ensures
        r == max_i64(a, b),
{
    if a >= b { a } else { b }
}

/// Checks an uploaded screenshot group against the record already stored under its id and
/// against its session, decodes its pictures, and builds the pending record. Nothing is
/// written here: the caller writes the pictures, then the record.
pub fn admit_capture(input: CaptureInput, existing: Option<Sample>, session: Option<Session>, now: i64)
    -> (r: Result<Admission, String>)
    ensures
        admitted(r, input, existing, session, now),
{
    match existing {
        Some(s) => {
            if str_eq(s.session_id.as_str(), input.session_id.as_str()) {
                return Ok(Admission::Known(s));
            }
            return Err(String::from_str("采样 ID 冲突"));
        },
        None => {},
    }
    let ses = match session {
        None => {
            return Err(String::from_str("记录会话不存在"));
        },
        Some(s) => s,
    };
    if ses.ended_at.is_some() || !str_eq(ses.mode.as_str(), "live") {
        return Err(String::from_str("本次记录已停止"));
    }
    let at = input.captured_at;
    if (at as i128) < (ses.started_at as i128) - 1000 || (at as i128) > (now as i128) + 3000
        || (now as i128) - (at as i128) > 120_000 {
        return Err(String::from_str("采样时间无效或过期，请检查电脑时间"));
    }
    if byte_length(input.capture_source.as_str()) > 300 {
        return Err(String::from_str("共享来源描述过长"));
    }
    let a = &input.activity;
    if a.switches.len() > 500 || byte_length(a.app_name.as_str()) > 300 || byte_length(a.bundle_id.as_str()) > 300
        || byte_length(a.window_title.as_str()) > 1500 || !is_finite_bits(a.idle_seconds_bits)
        || a.idle_seconds_bits > SIGN_BIT {
        return Err(String::from_str("应用活动信息格式无效"));
    }
    if input.camera.is_some() {
        return Err(String::from_str("摄像头画面只允许本地处理，不再接受上传或保存"));
    }
    let legacy = input.screens.len() == 0;
    if !legacy && !input.screen.as_str().is_empty() {
        return Err(String::from_str("请使用多屏图片列表，不要重复提交旧版单图"));
    }
    let legacy_frames: Vec<ScreenInput> = if legacy {
        vec![ScreenInput {
            display_id: 0,
            display_name: String::from_str("屏幕（旧版记录）"),
            captured_at: at,
            image: Some(input.screen.clone()),
            error: None,
        }]
    } else {
        Vec::new()
    };
    let frames: &Vec<ScreenInput> = if legacy { &legacy_frames } else { &input.screens };
    assert(frames_view(frames@) =~= frames_of(input));
    if frames.len() > MAX_DISPLAYS {
        return Err(String::from_str("一次最多记录 16 块显示器"));
    }
    let (screens, images) = match process_frames(frames, legacy, at, now, input.id.as_str()) {
        Err(e) => {
            return Err(e);
        },
        Ok(done) => done,
    };
    if images.len() == 0 {
        return Err(String::from_str("所有选中屏幕均采集失败，本次不提交分析"));
    }
    let screen_file = images[0].name.clone();
    let mut warnings = warning_lines(&screens);
    let ghost base = warnings@.map_values(|w: String| w@);
    if foreground_uncovered(input.activity.foreground_display_id, &screens) {
        warnings.push(String::from_str("前台窗口所在屏幕未包含在本次画面中，无法完整观察当前操作"));
    }
    assert(warnings@.map_values(|w: String| w@) =~= base + if foreground_missing(input.activity.foreground_display_id, screens_view(screens@)) {
        seq![foreground_message()]
    } else {
        Seq::<Seq<char>>::empty()
    });
    match &input.capture_warning {
        Some(w) => {
            if !w.as_str().is_empty() {
                if byte_length(w.as_str()) > 2000 {
                    return Err(String::from_str("采集提示过长"));
                }
                let ghost before = warnings@.map_values(|x: String| x@);
                warnings.push(w.clone());
                assert(warnings@.map_values(|x: String| x@) =~= before.push(w@));
            }
        },
        None => {},
    }
    let capture_warning = if warnings.len() == 0 {
        None
    } else {
        Some(join_strings(&warnings, "；"))
    };
    let evidence = match input.evidence {
        Some(e) => {
            let mut e = e;
            e.basis = String::from_str("ai");
            e.away = false;
            e.valid_until = larger(now, at);
            Some(e)
        },
        None => None,
    };
    let kept_screens: Vec<ScreenCapture> = if legacy { Vec::new() } else { screens };
    assert(screens_view(kept_screens@) =~= if legacy { Seq::empty() } else { screens_view(screens@) });
    let sample = Sample {
        screens: kept_screens,
        evidence,
        activity: input.activity,
        capture_warning,
        id: input.id,
        session_id: ses.id,
        captured_at: larger(at, ses.started_at),
        interval_seconds: ses.interval_seconds,
        mode: String::from_str("live"),
        task: ses.task,
        screen: Some(screen_file),
        camera: None,
        capture_source: input.capture_source,
        state: String::from_str("pending"),
        analysis: None,
        error: None,
        correction: None,
        correction_note: String::new(),
    };
    Ok(Admission::Fresh { sample, images })
}

} // verus!

verus! {

/// A hexadecimal digit, in either case.
pub open spec fn hex_char(c: char) -> bool {
    ('0' <= c <= '9') || ('a' <= c <= 'f') || ('A' <= c <= 'F')
}

/// Every character of `s` is a hexadecimal digit.
pub open spec fn all_hex(s: Seq<char>) -> bool {
    forall|i: int| 0 <= i < s.len() ==> hex_char(#[trigger] s[i])
}

/// `8-4-4-4-12` hexadecimal digits with hyphens between the groups.
pub open spec fn hyphenated_uuid(s: Seq<char>) -> bool {
    &&& s.len() == 36
    &&& s[8] == '-' && s[13] == '-' && s[18] == '-' && s[23] == '-'
    &&& forall|i: int| 0 <= i < 36 && i != 8 && i != 13 && i != 18 && i != 23 ==> hex_char(#[trigger] s[i])
}

/// `c` with an ASCII capital letter made small.
pub open spec fn ascii_lower(c: char) -> char {
    if 'A' <= c <= 'Z' { ((c as int) + 32) as char } else { c }
}

/// `s` reads `urn:uuid:` without regard to ASCII case.
pub open spec fn urn_prefix(s: Seq<char>) -> bool {
    s.len() == 9 && forall|i: int| 0 <= i < 9 ==> ascii_lower(#[trigger] s[i]) == "urn:uuid:"@[i]
}

/// The text forms that `uuid::Uuid::parse_str` accepts: 32 hexadecimal digits; the hyphenated
/// `8-4-4-4-12` form; that form in braces; or that form after `urn:uuid:` in any case.
pub open spec fn uuid_text(s: Seq<char>) -> bool {
    ||| s.len() == 32 && all_hex(s)
    ||| hyphenated_uuid(s)
    ||| s.len() == 38 && s[0] == '{' && s[37] == '}' && hyphenated_uuid(s.subrange(1, 37))
    ||| s.len() == 45 && urn_prefix(s.take(9)) && hyphenated_uuid(s.skip(9))
}

/// Calls `uuid::Uuid::parse_str`, which succeeds exactly on the forms `uuid_text` lists (all of
/// them ASCII, so their length in characters is their length in bytes).
#[verifier::external_body]
fn parses_as_uuid(s: &str) -> (r: bool)
    ensures
        r == uuid_text(s@),
{
    uuid::Uuid::parse_str(s).is_ok()
}

/// `r` is what `admit_capture` returns for these arguments.
pub open spec fn admitted(r: Result<Admission, String>, input: CaptureInput, existing: Option<Sample>, session: Option<Session>, now: i64) -> bool {
    match admission(input, existing, session, now) {
        Err(e) => r matches Err(x) && x@ == e,
        Ok(None) => r matches Ok(Admission::Known(s)) && existing == Some(s),
        Ok(Some(m)) => r matches Ok(Admission::Fresh { sample, images })
            && fresh_record(sample, images@, input, session->0, now, m),
    }
}

/// The checks of an upload, in order: its id must be a UUID; then `admit_capture`.
/// `existing` is the record stored under the id, `session` the record of the session it names.
pub fn prepare_capture(input: CaptureInput, existing: Option<Sample>, session: Option<Session>, now: i64)
    -> (r: Result<Admission, String>)
    ensures
        !uuid_text(input.id@) ==> (r matches Err(x) && x@ == "采样 ID 无效"@),
        uuid_text(input.id@) ==> admitted(r, input, existing, session, now),
{
    if !parses_as_uuid(input.id.as_str()) {
        return Err(String::from_str("采样 ID 无效"));
    }
    admit_capture(input, existing, session, now)
}

} // verus!

verus! {

/// The picture `pic` is frame `f`'s picture, decoded, under its display number.
pub open spec fn picture_of_frame(f: FrameModel, pic: (Seq<char>, Seq<u8>), id: Seq<char>) -> bool {
    f.image matches Some(data) && decoded_picture(data) == Ok::<Seq<u8>, Seq<char>>(pic.1)
        && pic.0 == picture_file(id, f.display_id)
}

/// Each picture of a group is the decoded picture of one of its frames, stored under that
/// frame's display number; and there is one display entry per frame.
proof fn lemma_frames_pictures(frames: Seq<FrameModel>, legacy: bool, at: i64, now: i64, id: Seq<char>)
    requires
        frames_outcome(frames, legacy, at, now, id) is Ok,
    ensures
        ({
            let (screens, images) = frames_outcome(frames, legacy, at, now, id)->Ok_0;
            &&& screens.len() == frames.len()
            &&& forall|i: int| 0 <= i < images.len() ==> exists|j: int| 0 <= j < frames.len()
                && picture_of_frame(frames[j], #[trigger] images[i], id)
        }),
    decreases frames.len(),
{
    if frames.len() > 0 {
        let init = frames.drop_last();
        lemma_frames_pictures(init, legacy, at, now, id);
        let (screens, images) = frames_outcome(frames, legacy, at, now, id)->Ok_0;
        let (s0, i0) = frames_outcome(init, legacy, at, now, id)->Ok_0;
        assert forall|i: int| 0 <= i < images.len() implies exists|j: int| 0 <= j < frames.len()
            && picture_of_frame(frames[j], #[trigger] images[i], id) by {
            if i < i0.len() {
                assert(images[i] == i0[i]);
                let j = choose|j: int| 0 <= j < init.len() && picture_of_frame(init[j], i0[i], id);
                assert(frames[j] == init[j]);
            } else {
                assert(picture_of_frame(frames[frames.len() - 1], images[i], id));
            }
        }
    }
}

/// An admitted group is whole: it carries at least one picture, every picture is the decoded
/// picture of one of its frames under that frame's display number, and it keeps one display
/// entry per frame, failed ones included.
pub proof fn law_group_pictures(input: CaptureInput, session: Session, now: i64)
    requires
        fresh_capture(input, session, now) is Ok,
    ensures
        ({
            let m = fresh_capture(input, session, now)->Ok_0;
            let frames = frames_of(input);
            &&& m.images.len() >= 1
            &&& m.screens.len() == frames.len()
            &&& forall|i: int| 0 <= i < m.images.len() ==> exists|j: int| 0 <= j < frames.len()
                && picture_of_frame(frames[j], #[trigger] m.images[i], input.id@)
        }),
{
    lemma_frames_pictures(frames_of(input), is_legacy(input), input.captured_at, now, input.id@);
}

} // verus!
