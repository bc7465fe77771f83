//! The WebSocket command protocol: commands from the phone, the backend
//! operation each one asks for, and the JSON replies.

use vstd::prelude::*;
use crate::backend::{backend_error_code, BackendError, FileMeta};
use crate::clipboard::{base64_encode, decode_base64, is_base64_of_some, MAX_IMG_B64};
use crate::file_transfer::{is_contained_name, stays_inside, 
    is_uuid_text, sanitize_filename, sanitized, DownloadMeta, TransferRegistry, UploadMeta,
};
use crate::json::{json_string, push_json_string};
use crate::text::{decimal, push_decimal, push_str};

verus! {

broadcast use vstd::utf8::group_utf8_lib;

/// Longest text injected at once, in UTF-8 bytes; longer text is cut.
pub const MAX_TEXT_BYTES: usize = 102400;

/// The version reported to the phone.
pub fn version() -> (r: &'static str)
    ensures
        r@ == "0.8.0"@,
{
    "0.8.0"
}

// ---------------------------------------------------------------------------
// Replies
// ---------------------------------------------------------------------------

pub open spec fn ok_text() -> Seq<char> {
    "{\"type\":\"ok\"}"@
}

pub open spec fn empty_text() -> Seq<char> {
    "{\"type\":\"empty\"}"@
}

pub open spec fn error_text(code: Seq<char>) -> Seq<char> {
    "{\"type\":\"error\",\"code\":\""@ + code + "\"}"@
}

pub open spec fn clipboard_text_text(content: Seq<char>) -> Seq<char> {
    "{\"content\":"@ + json_string(content) + ",\"type\":\"clipboard_text\"}"@
}

pub open spec fn clipboard_image_text(mime: Seq<char>, data: Seq<char>) -> Seq<char> {
    "{\"data\":"@ + json_string(data) + ",\"mime\":"@ + json_string(mime) + ",\"type\":\"clipboard_image\"}"@
}

pub open spec fn upload_ready_text(id: Seq<char>, url: Seq<char>) -> Seq<char> {
    "{\"id\":"@ + json_string(id) + ",\"type\":\"upload_ready\",\"url\":"@ + json_string(url) + "}"@
}

pub open spec fn server_info_text(name: Seq<char>, theme: Seq<char>) -> Seq<char> {
    "{\"name\":"@ + json_string(name) + ",\"theme\":"@ + json_string(theme)
        + ",\"type\":\"server_info\",\"version\":"@ + json_string("0.8.0"@) + "}"@
}

/// The URL the phone posts an announced upload to.
pub open spec fn upload_url(id: Seq<char>, token: Seq<char>) -> Seq<char> {
    "/upload/"@ + id + "?t="@ + token
}

/// The URL the phone fetches an offered download from.
pub open spec fn download_url(id: Seq<char>, token: Seq<char>) -> Seq<char> {
    "/download/"@ + id + "?t="@ + token
}

/// `{"type":"ok"}`
pub fn ok_json() -> (r: String)
    ensures
        r@ == ok_text(),
{
    let mut s = String::new();
    push_str(&mut s, "{\"type\":\"ok\"}");
    s
}

/// `{"type":"empty"}`
pub fn empty_json() -> (r: String)
    ensures
        r@ == empty_text(),
{
    let mut s = String::new();
    push_str(&mut s, "{\"type\":\"empty\"}");
    s
}

/// `{"type":"error","code":"<code>"}`; codes are fixed identifiers and are
/// written as they are.
pub fn error_json(code: &str) -> (r: String)
    ensures
        r@ == error_text(code@),
{
    let mut s = String::new();
    push_str(&mut s, "{\"type\":\"error\",\"code\":\"");
    push_str(&mut s, code);
    push_str(&mut s, "\"}");
    s
}

/// The clipboard text read on the PC.
pub fn clipboard_text_json(content: &str) -> (r: String)
    ensures
        r@ == clipboard_text_text(content@),
{
    let mut s = String::new();
    push_str(&mut s, "{\"content\":");
    push_json_string(&mut s, content);
    push_str(&mut s, ",\"type\":\"clipboard_text\"}");
    s
}

/// The clipboard image read on the PC, as base64 PNG.
pub fn clipboard_image_json(mime: &str, data: &str) -> (r: String)
    ensures
        r@ == clipboard_image_text(mime@, data@),
{
    let mut s = String::new();
    push_str(&mut s, "{\"data\":");
    push_json_string(&mut s, data);
    push_str(&mut s, ",\"mime\":");
    push_json_string(&mut s, mime);
    push_str(&mut s, ",\"type\":\"clipboard_image\"}");
    s
}

/// Where to post an announced upload.
pub fn upload_ready_json(id: &str, url: &str) -> (r: String)
    ensures
        r@ == upload_ready_text(id@, url@),
{
    let mut s = String::new();
    push_str(&mut s, "{\"id\":");
    push_json_string(&mut s, id);
    push_str(&mut s, ",\"type\":\"upload_ready\",\"url\":");
    push_json_string(&mut s, url);
    push_str(&mut s, "}");
    s
}

/// Pushed right after the WebSocket opens: device name, theme and version.
pub fn server_info_json(name: &str, theme: &str) -> (r: String)
    ensures
        r@ == server_info_text(name@, theme@),
{
    let mut s = String::new();
    push_str(&mut s, "{\"name\":");
    push_json_string(&mut s, name);
    push_str(&mut s, ",\"theme\":");
    push_json_string(&mut s, theme);
    push_str(&mut s, ",\"type\":\"server_info\",\"version\":");
    push_json_string(&mut s, version());
    push_str(&mut s, "}");
    s
}

fn url_for(prefix: &str, id: &str, token: &str) -> (r: String)
    ensures
        r@ == prefix@ + id@ + "?t="@ + token@,
{
    let mut s = String::new();
    push_str(&mut s, prefix);
    push_str(&mut s, id);
    push_str(&mut s, "?t=");
    push_str(&mut s, token);
    s
}

// ---------------------------------------------------------------------------
// Text truncation
// ---------------------------------------------------------------------------

/// The largest character boundary of `bytes` at or below `b`.
pub open spec fn cut_point(bytes: Seq<u8>, b: int) -> int
    decreases b,
{
    if b <= 0 {
        0
    } else if vstd::utf8::is_char_boundary(bytes, b) {
        b
    } else {
        cut_point(bytes, b - 1)
    }
}

/// Text cut to at most `max` UTF-8 bytes without splitting a character.
pub open spec fn truncated(s: Seq<char>, max: int) -> Seq<char> {
    let bytes = vstd::utf8::encode_utf8(s);
    if bytes.len() <= max {
        s
    } else {
        vstd::utf8::decode_utf8(bytes.subrange(0, cut_point(bytes, max)))
    }
}

proof fn lemma_cut_point(bytes: Seq<u8>, b: int)
    requires
        vstd::utf8::valid_utf8(bytes),
        b <= bytes.len(),
    ensures
        0 <= cut_point(bytes, b) <= b || (b < 0 && cut_point(bytes, b) == 0),
        vstd::utf8::is_char_boundary(bytes, cut_point(bytes, b)),
    decreases b,
{
    if b > 0 && !vstd::utf8::is_char_boundary(bytes, b) {
        lemma_cut_point(bytes, b - 1);
    }
}

/// A truncated text is a prefix of the text and fits the byte limit.
pub proof fn lemma_truncated_is_prefix(s: Seq<char>, max: int)
    requires
        max >= 0,
    ensures
        truncated(s, max) == s.take(truncated(s, max).len() as int),
        vstd::utf8::encode_utf8(truncated(s, max)).len() <= max,
{
    let bytes = vstd::utf8::encode_utf8(s);
    if bytes.len() > max {
        lemma_cut_point(bytes, max);
        let c = cut_point(bytes, max);
        vstd::utf8::decode_utf8_split(bytes, c);
        vstd::utf8::encode_utf8_decode_utf8(s);
        vstd::utf8::valid_utf8_split(bytes, c);
        vstd::utf8::decode_utf8_encode_utf8(bytes.subrange(0, c));
        let head = vstd::utf8::decode_utf8(bytes.subrange(0, c));
        let tail = vstd::utf8::decode_utf8(bytes.subrange(c, bytes.len() as int));
        assert(s == head + tail);
        assert(s.take(head.len() as int) =~= head);
    }
}

/// Cuts `s` to at most `max_bytes` UTF-8 bytes, backing off to the nearest
/// character boundary; shorter text is left as it is.
pub fn truncate_in_place(s: &mut String, max_bytes: usize)
    ensures
        final(s)@ == truncated(old(s)@, max_bytes as int),
{
    let n = s.as_str().as_bytes().len();
    if n <= max_bytes {
        return;
    }
    let ghost bytes = vstd::utf8::encode_utf8(s@);
    let mut boundary = max_bytes;
    while boundary > 0 && !s.as_str().is_char_boundary(boundary)
        invariant
            boundary <= max_bytes,
            max_bytes < bytes.len(),
            bytes == vstd::utf8::encode_utf8(s@),
            cut_point(bytes, max_bytes as int) == cut_point(bytes, boundary as int),
        decreases boundary,
    {
        boundary = boundary - 1;
    }
    proof {
        lemma_cut_point(bytes, max_bytes as int);
        assert(vstd::utf8::is_char_boundary(bytes, 0));
    }
    let head: String = {
        let (h, _) = s.as_str().split_at(boundary);
        proof {
            vstd::utf8::encode_utf8_decode_utf8(h@);
        }
        h.to_owned()
    };
    *s = head;
}

// ---------------------------------------------------------------------------
// Commands and dispatch
// ---------------------------------------------------------------------------

/// A mouse button named by the phone.
pub enum MouseButton {
    Left,
    Right,
    Middle,
}

/// A function key the phone can press.
pub enum Key {
    Return,
    Tab,
    Backspace,
}

/// A command from the phone (the `type` field of its JSON message).
pub enum Command {
    Text { value: String },
    GetClipboardText,
    GetClipboardImage,
    SetClipboardImage { data: String },
    /// File names, relative to the save directory, to put on the clipboard.
    SetClipboardFiles { names: Vec<String> },
    UploadStart { name: String, size: u64, mime: String },
    GetFile,
    Enter,
    Tab,
    Backspace,
    Copy,
    Paste,
    MouseMove { dx: i32, dy: i32 },
    MouseClick { button: MouseButton },
    MousePress { button: MouseButton },
    MouseRelease { button: MouseButton },
    MouseScroll { dy: i32 },
}

/// An operation on the input backend (keyboard, mouse, clipboard) that the
/// server performs on a blocking thread.
pub enum BackendOp {
    InjectText(String),
    InjectKey(Key),
    /// Relative move; the server scales it by the mouse sensitivity.
    MouseMove(i32, i32),
    MouseClick(MouseButton),
    MousePress(MouseButton),
    MouseRelease(MouseButton),
    /// Vertical scroll.
    MouseScroll(i32),
    Copy,
    Paste,
    ReadClipboardText,
    ReadClipboardImage,
    WriteClipboardImage(Vec<u8>),
    ReadClipboardFiles,
    PushClipboardFiles(Vec<String>),
}

/// What handling a command comes to: an immediate reply, or a backend
/// operation whose outcome decides the reply.
pub enum Step {
    Reply(String),
    Perform(BackendOp),
}

/// The names that, joined to the save directory, stay inside it (no root,
/// no drive, no `..` component), in order.
pub open spec fn contained_names(names: Seq<String>) -> Seq<Seq<char>>
    decreases names.len(),
{
    if names.len() == 0 {
        Seq::empty()
    } else if stays_inside(names.last()@) {
        contained_names(names.drop_last()).push(names.last()@)
    } else {
        contained_names(names.drop_last())
    }
}

/// Keeps the names among `names` that stay inside the save directory, in
/// order; whether each is an existing file is for the caller to test.
pub fn keep_contained_names(names: Vec<String>) -> (r: Vec<String>)
    ensures
        r@.map_values(|s: String| s@) == contained_names(names@),
{
    let mut r: Vec<String> = Vec::new();
    let mut i: usize = 0;
    while i < names.len()
        invariant
            i <= names@.len(),
            r@.map_values(|s: String| s@) == contained_names(names@.take(i as int)),
        decreases names.len() - i,
    {
        let ghost before = r@.map_values(|s: String| s@);
        proof {
            assert(names@.take(i + 1).drop_last() =~= names@.take(i as int));
            assert(names@.take(i + 1).last() == names@[i as int]);
        }
        if is_contained_name(names[i].as_str()) {
            r.push(names[i].clone());
            proof {
                assert(r@.map_values(|s: String| s@) =~= before.push(names@[i as int]@));
            }
        }
        i = i + 1;
    }
    assert(names@.take(names@.len() as int) =~= names@);
    r
}

/// The registry is left as it was.
pub open spec fn registry_unchanged(before: TransferRegistry, after: TransferRegistry) -> bool {
    after.uploads() == before.uploads() && after.downloads() == before.downloads()
}

/// How a command is handled. `None` stands for a message that is not a
/// valid command.
pub open spec fn dispatched(
    cmd: Option<Command>,
    r: Step,
    token: Seq<char>,
    max_size: u64,
    now: u64,
    before: TransferRegistry,
    after: TransferRegistry,
) -> bool {
    match cmd {
        None => registry_unchanged(before, after) && (r matches Step::Reply(t) && t@ == error_text("decode_failed"@)),
        Some(c) => match c {
            Command::UploadStart { name, size, mime } => if size > max_size {
                registry_unchanged(before, after) && (r matches Step::Reply(t) && t@ == error_text("too_large"@))
            } else if sanitized(name@) is None {
                registry_unchanged(before, after) && (r matches Step::Reply(t) && t@ == error_text("forbidden_name"@))
            } else {
                exists|id: Seq<char>| {
                    &&& is_uuid_text(id)
                    &&& #[trigger] after.uploads().dom().contains(id)
                    &&& after.uploads() == before.uploads().insert(id, after.uploads()[id])
                    &&& Some(after.uploads()[id].name@) == sanitized(name@)
                    &&& after.uploads()[id].size == size
                    &&& after.uploads()[id].created_at == now
                    &&& after.downloads() == before.downloads()
                    &&& (r matches Step::Reply(t) && t@ == upload_ready_text(id, upload_url(id, token)))
                }
            },
            Command::SetClipboardImage { data } => registry_unchanged(before, after) && if vstd::utf8::encode_utf8(data@).len() > MAX_IMG_B64 {
                r matches Step::Reply(t) && t@ == error_text("too_large"@)
            } else {
                if is_base64_of_some(data@) {
                    r matches Step::Perform(BackendOp::WriteClipboardImage(v)) && base64_encode(v@) == data@
                } else {
                    r matches Step::Reply(t) && t@ == error_text("decode_failed"@)
                }
            },
            Command::Text { value } => registry_unchanged(before, after)
                && (r matches Step::Perform(BackendOp::InjectText(t)) && t@ == truncated(value@, MAX_TEXT_BYTES as int)),
            Command::GetClipboardText => registry_unchanged(before, after) && r == Step::Perform(BackendOp::ReadClipboardText),
            Command::GetClipboardImage => registry_unchanged(before, after) && r == Step::Perform(BackendOp::ReadClipboardImage),
            Command::SetClipboardFiles { names } => registry_unchanged(before, after)
                && (r matches Step::Perform(BackendOp::PushClipboardFiles(kept))
                    && kept@.map_values(|s: String| s@) == contained_names(names@)),
            Command::GetFile => registry_unchanged(before, after) && r == Step::Perform(BackendOp::ReadClipboardFiles),
            Command::Enter => registry_unchanged(before, after) && r == Step::Perform(BackendOp::InjectKey(Key::Return)),
            Command::Tab => registry_unchanged(before, after) && r == Step::Perform(BackendOp::InjectKey(Key::Tab)),
            Command::Backspace => registry_unchanged(before, after) && r == Step::Perform(BackendOp::InjectKey(Key::Backspace)),
            Command::Copy => registry_unchanged(before, after) && r == Step::Perform(BackendOp::Copy),
            Command::Paste => registry_unchanged(before, after) && r == Step::Perform(BackendOp::Paste),
            Command::MouseMove { dx, dy } => registry_unchanged(before, after) && r == Step::Perform(BackendOp::MouseMove(dx, dy)),
            Command::MouseClick { button } => registry_unchanged(before, after) && r == Step::Perform(BackendOp::MouseClick(button)),
            Command::MousePress { button } => registry_unchanged(before, after) && r == Step::Perform(BackendOp::MousePress(button)),
            Command::MouseRelease { button } => registry_unchanged(before, after) && r == Step::Perform(BackendOp::MouseRelease(button)),
            Command::MouseScroll { dy } => registry_unchanged(before, after) && r == Step::Perform(BackendOp::MouseScroll(dy)),
        },
    }
}

/// Handles one message from the phone. Text is cut to [`MAX_TEXT_BYTES`];
/// image text over [`MAX_IMG_B64`] bytes and uploads over `max_size` are
/// refused as `too_large`; undecodable images as `decode_failed`; upload
/// names that do not reduce to a file name as `forbidden_name`. An accepted
/// upload is registered at `now` and answered with its id and URL.
pub fn dispatch(
    registry: &mut TransferRegistry,
    token: &str,
    max_size: u64,
    now: u64,
    cmd: Option<Command>,
) -> (r: Step)
    requires
        old(registry).wf(),
    ensures
        final(registry).wf(),
        dispatched(cmd, r, token@, max_size, now, *old(registry), *final(registry)),
{
    let c = match cmd {
        None => {
            return Step::Reply(error_json("decode_failed"));
        },
        Some(c) => c,
    };
    match c {
        Command::Text { value } => {
            let mut value = value;
            truncate_in_place(&mut value, MAX_TEXT_BYTES);
            Step::Perform(BackendOp::InjectText(value))
        },
        Command::GetClipboardText => Step::Perform(BackendOp::ReadClipboardText),
        Command::GetClipboardImage => Step::Perform(BackendOp::ReadClipboardImage),
        Command::SetClipboardImage { data } => {
            if data.as_str().as_bytes().len() > MAX_IMG_B64 {
                return Step::Reply(error_json("too_large"));
            }
            match decode_base64(data.as_str()) {
                Ok(bytes) => Step::Perform(BackendOp::WriteClipboardImage(bytes)),
                Err(_) => Step::Reply(error_json("decode_failed")),
            }
        },
        Command::SetClipboardFiles { names } => Step::Perform(BackendOp::PushClipboardFiles(keep_contained_names(names))),
        Command::UploadStart { name, size, mime } => {
            if size > max_size {
                return Step::Reply(error_json("too_large"));
            }
            let clean = match sanitize_filename(name.as_str()) {
                Some(n) => n,
                None => {
                    return Step::Reply(error_json("forbidden_name"));
                },
            };
            let meta = UploadMeta { name: clean, size, created_at: now };
            let id = registry.register_upload(meta);
            let url = url_for("/upload/", id.as_str(), token);
            let reply = upload_ready_json(id.as_str(), url.as_str());
            proof {
                assert(registry.uploads().dom().contains(id@));
            }
            Step::Reply(reply)
        },
        Command::GetFile => Step::Perform(BackendOp::ReadClipboardFiles),
        Command::Enter => Step::Perform(BackendOp::InjectKey(Key::Return)),
        Command::Tab => Step::Perform(BackendOp::InjectKey(Key::Tab)),
        Command::Backspace => Step::Perform(BackendOp::InjectKey(Key::Backspace)),
        Command::Copy => Step::Perform(BackendOp::Copy),
        Command::Paste => Step::Perform(BackendOp::Paste),
        Command::MouseMove { dx, dy } => Step::Perform(BackendOp::MouseMove(dx, dy)),
        Command::MouseClick { button } => Step::Perform(BackendOp::MouseClick(button)),
        Command::MousePress { button } => Step::Perform(BackendOp::MousePress(button)),
        Command::MouseRelease { button } => Step::Perform(BackendOp::MouseRelease(button)),
        Command::MouseScroll { dy } => Step::Perform(BackendOp::MouseScroll(dy)),
    }
}

/// A frame received on the WebSocket.
pub enum Frame {
    Text(String),
    Close,
    /// The connection failed.
    Error,
    /// A binary, ping or pong frame.
    Other,
}

/// What the socket loop does with a frame.
pub enum FrameAction {
    /// Handle the message and send back its reply.
    Handle(String),
    /// Stop serving the connection.
    Stop,
    /// Ignore the frame.
    Ignore,
}

/// Text frames are handled, a close or a failure ends the connection, any
/// other frame is ignored.
pub fn frame_action(frame: Frame) -> (r: FrameAction)
    ensures
        (match frame {
            Frame::Text(t) => r matches FrameAction::Handle(u) && u == t,
            Frame::Close => r is Stop,
            Frame::Error => r is Stop,
            Frame::Other => r is Ignore,
        }),
{
    match frame {
        Frame::Text(t) => FrameAction::Handle(t),
        Frame::Close => FrameAction::Stop,
        Frame::Error => FrameAction::Stop,
        Frame::Other => FrameAction::Ignore,
    }
}

// ---------------------------------------------------------------------------
// Replies to performed operations
// ---------------------------------------------------------------------------

/// The reply when the blocking task itself failed (it panicked or was
/// cancelled): `internal`.
pub fn crashed_reply() -> (r: String)
    ensures
        r@ == error_text("internal"@),
{
    error_json("internal")
}

/// The reply to an injection or clipboard write: `ok`, or the error code.
pub fn unit_reply(res: Result<(), BackendError>) -> (r: String)
    ensures
        res is Ok ==> r@ == ok_text(),
        res matches Err(e) ==> r@ == error_text(backend_error_code(e)),
{
    match res {
        Ok(()) => ok_json(),
        Err(e) => error_json(e.error_code()),
    }
}

/// The reply to a clipboard text read: the text, `empty` when the clipboard
/// holds none, or the error code.
pub fn text_reply(res: Result<Option<String>, BackendError>) -> (r: String)
    ensures
        res matches Ok(Some(t)) ==> r@ == clipboard_text_text(t@),
        res matches Ok(None) ==> r@ == empty_text(),
        res matches Err(e) ==> r@ == error_text(backend_error_code(e)),
{
    match res {
        Ok(Some(t)) => clipboard_text_json(t.as_str()),
        Ok(None) => empty_json(),
        Err(e) => error_json(e.error_code()),
    }
}

/// The reply to a clipboard image read of `(mime, base64)`: the image,
/// `empty` when the clipboard holds none, or the error code.
pub fn image_reply(res: Result<Option<(String, String)>, BackendError>) -> (r: String)
    ensures
        res matches Ok(Some(p)) ==> r@ == clipboard_image_text(p.0@, p.1@),
        res matches Ok(None) ==> r@ == empty_text(),
        res matches Err(e) ==> r@ == error_text(backend_error_code(e)),
{
    match res {
        Ok(Some((mime, data))) => clipboard_image_json(mime.as_str(), data.as_str()),
        Ok(None) => empty_json(),
        Err(e) => error_json(e.error_code()),
    }
}

/// One entry of a file list reply.
pub open spec fn file_entry_text(f: FileMeta, url: Seq<char>) -> Seq<char> {
    "{\"mime\":"@ + json_string(f.mime@) + ",\"name\":"@ + json_string(f.name@) + ",\"size\":"@
        + decimal(f.size as nat) + ",\"url\":"@ + json_string(url) + "}"@
}

/// The entries of a file list, separated by commas.
pub open spec fn file_entries_text(files: Seq<FileMeta>, ids: Seq<Seq<char>>, token: Seq<char>) -> Seq<char>
    decreases files.len(),
{
    if files.len() == 0 {
        Seq::empty()
    } else if files.len() == 1 {
        file_entry_text(files[0], download_url(ids[0], token))
    } else {
        file_entries_text(files.drop_last(), ids.drop_last(), token) + seq![',']
            + file_entry_text(files.last(), download_url(ids[files.len() - 1], token))
    }
}

/// `{"files":[...],"type":"file_list"}`
pub open spec fn file_list_text(files: Seq<FileMeta>, ids: Seq<Seq<char>>, token: Seq<char>) -> Seq<char> {
    "{\"files\":["@ + file_entries_text(files, ids, token) + "],\"type\":\"file_list\"}"@
}

/// What a clipboard file is offered as.
pub open spec fn offered(f: FileMeta, now: u64) -> DownloadMeta {
    DownloadMeta { path: f.path, name: f.name, size: f.size, mime: f.mime, created_at: now }
}

/// The downloads after offering `files` under `ids`, in order.
pub open spec fn offered_all(
    before: Map<Seq<char>, DownloadMeta>,
    files: Seq<FileMeta>,
    ids: Seq<Seq<char>>,
    now: u64,
) -> Map<Seq<char>, DownloadMeta>
    decreases files.len(),
{
    if files.len() == 0 {
        before
    } else {
        offered_all(before, files.drop_last(), ids.drop_last(), now).insert(ids[files.len() - 1], offered(files.last(), now))
    }
}

fn push_file_entry(out: &mut String, f: &FileMeta, url: &str)
    ensures
        final(out)@ == old(out)@ + file_entry_text(*f, url@),
{
    let ghost start = out@;
    push_str(out, "{\"mime\":");
    push_json_string(out, f.mime.as_str());
    push_str(out, ",\"name\":");
    push_json_string(out, f.name.as_str());
    push_str(out, ",\"size\":");
    push_decimal(out, f.size);
    push_str(out, ",\"url\":");
    push_json_string(out, url);
    push_str(out, "}");
    assert(out@ =~= start + file_entry_text(*f, url@));
}

/// The reply to a clipboard file read. Each file is offered for download
/// under a fresh id, registered at `now`; the reply lists the files with
/// their download URLs, in order, and the ids are returned with it. No file
/// gives `empty`; a failure gives its error code and offers nothing.
pub fn files_reply(
    registry: &mut TransferRegistry,
    token: &str,
    now: u64,
    res: Result<Vec<FileMeta>, BackendError>,
) -> (r: (String, Vec<String>))
    requires
        old(registry).wf(),
    ensures
        final(registry).wf(),
        final(registry).uploads() == old(registry).uploads(),
        res matches Err(e) ==> (r.0@ == error_text(backend_error_code(e)) && r.1@.len() == 0
            && final(registry).downloads() == old(registry).downloads()),
        res matches Ok(files) ==> (files@.len() == 0 ==> r.0@ == empty_text() && r.1@.len() == 0
            && final(registry).downloads() == old(registry).downloads()),
        res matches Ok(files) ==> (files@.len() > 0 ==> {
            let ids = r.1@.map_values(|s: String| s@);
            &&& r.1@.len() == files@.len()
            &&& forall|i: int| 0 <= i < ids.len() ==> is_uuid_text(#[trigger] ids[i])
            &&& final(registry).downloads() == offered_all(old(registry).downloads(), files@, ids, now)
            &&& r.0@ == file_list_text(files@, ids, token@)
        }),
{
    let files = match res {
        Err(e) => {
            return (error_json(e.error_code()), Vec::new());
        },
        Ok(files) => files,
    };
    if files.len() == 0 {
        return (empty_json(), Vec::new());
    }
    let mut ids: Vec<String> = Vec::new();
    let mut body = String::new();
    let ghost before = registry.downloads();
    let mut i: usize = 0;
    while i < files.len()
        invariant
            i <= files@.len(),
            registry.wf(),
            registry.uploads() == old(registry).uploads(),
            before == old(registry).downloads(),
            ids@.len() == i,
            forall|k: int| 0 <= k < i ==> is_uuid_text(#[trigger] ids@[k]@),
            registry.downloads() == offered_all(before, files@.take(i as int), ids@.map_values(|s: String| s@), now),
            body@ == file_entries_text(files@.take(i as int), ids@.map_values(|s: String| s@), token@),
        decreases files.len() - i,
    {
        let f = &files[i];
        let meta = DownloadMeta {
            path: f.path.clone(),
            name: f.name.clone(),
            size: f.size,
            mime: f.mime.clone(),
            created_at: now,
        };
        let ghost ids_before = ids@.map_values(|s: String| s@);
        let ghost body_before = body@;
        let id = registry.register_download(meta);
        let url = url_for("/download/", id.as_str(), token);
        if i > 0 {
            crate::text::push_char(&mut body, ',');
        }
        push_file_entry(&mut body, f, url.as_str());
        ids.push(id);
        proof {
            let idv = ids@.map_values(|s: String| s@);
            let t1 = files@.take(i + 1);
            assert(t1.drop_last() =~= files@.take(i as int));
            assert(idv.drop_last() =~= ids_before);
            assert(idv[i as int] == ids@[i as int]@);
            assert(t1.last() == files@[i as int]);
            assert(offered(files@[i as int], now) == meta);
            assert forall|k: int| 0 <= k < i + 1 implies is_uuid_text(#[trigger] ids@[k]@) by {}
            if i == 0 {
                assert(body@ =~= file_entries_text(t1, idv, token@));
            } else {
                assert(body@ =~= file_entries_text(t1, idv, token@));
            }
        }
        i = i + 1;
    }
    proof {
        assert(files@.take(files@.len() as int) =~= files@);
    }
    let mut reply = String::new();
    push_str(&mut reply, "{\"files\":[");
    push_str(&mut reply, body.as_str());
    push_str(&mut reply, "],\"type\":\"file_list\"}");
    (reply, ids)
}

} // verus!
