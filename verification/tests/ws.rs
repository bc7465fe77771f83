use qrctrl::backend::{BackendError, FileMeta};
use qrctrl::clipboard::CbError;
use qrctrl::file_transfer::TransferRegistry;
use qrctrl::ws::{
    clipboard_image_json, clipboard_text_json, crashed_reply, dispatch, empty_json, error_json, files_reply,
    image_reply, ok_json, server_info_json, text_reply, truncate_in_place, unit_reply, upload_ready_json, version,
    frame_action, BackendOp, Command, Frame, FrameAction, Key, MouseButton, Step, MAX_TEXT_BYTES,
};

fn plan(cmd: Command) -> Step {
    let mut reg = TransferRegistry::new();
    dispatch(&mut reg, "tok", 100, 0, Some(cmd))
}

fn reply_of(step: Step) -> String {
    match step {
        Step::Reply(s) => s,
        Step::Perform(_) => panic!("expected a reply"),
    }
}

#[test]
fn json_helpers_format_correctly() {
    assert_eq!(ok_json(), r#"{"type":"ok"}"#);
    assert_eq!(empty_json(), r#"{"type":"empty"}"#);
    assert_eq!(error_json("oops"), r#"{"type":"error","code":"oops"}"#);
}

#[test]
fn truncate_respects_char_boundary() {
    let mut s = "你好世界".to_string();
    truncate_in_place(&mut s, 5);
    assert_eq!(s, "你");
}

#[test]
fn truncate_keeps_short_strings_intact() {
    let mut s = "abc".to_string();
    truncate_in_place(&mut s, 100);
    assert_eq!(s, "abc");
}

#[test]
fn truncate_at_exact_boundaries() {
    let mut s = "你好世界".to_string();
    truncate_in_place(&mut s, 6);
    assert_eq!(s, "你好");
    let mut t = "你好".to_string();
    truncate_in_place(&mut t, 2);
    assert_eq!(t, "");
    let mut u = "abc".to_string();
    truncate_in_place(&mut u, 0);
    assert_eq!(u, "");
}

#[test]
fn spawn_inject_success_returns_ok() {
    assert_eq!(unit_reply(Ok(())), r#"{"type":"ok"}"#);
    assert!(matches!(plan(Command::Text { value: "hi".into() }), Step::Perform(BackendOp::InjectText(t)) if t == "hi"));
}

#[test]
fn spawn_inject_failure_returns_inject_failed() {
    assert!(matches!(plan(Command::Enter), Step::Perform(BackendOp::InjectKey(Key::Return))));
    assert_eq!(unit_reply(Err(BackendError::Inject("mock fail".into()))), r#"{"type":"error","code":"inject_failed"}"#);
}

#[test]
fn spawn_block_success_maps_result() {
    assert_eq!(text_reply(Ok(Some("hello".to_string()))), r#"{"content":"hello","type":"clipboard_text"}"#);
}

#[test]
fn spawn_block_failure_maps_error_code() {
    let res: Result<Option<String>, BackendError> = Err(BackendError::Clipboard(CbError::ClipboardOccupied));
    assert_eq!(text_reply(res), r#"{"type":"error","code":"clipboard_busy"}"#);
}

#[test]
fn spawn_block_none_returns_empty() {
    assert_eq!(text_reply(Ok(None)), r#"{"type":"empty"}"#);
}

#[test]
fn inject_mouse_move_cmd_passes_params() {
    assert!(matches!(plan(Command::MouseMove { dx: 10, dy: -5 }), Step::Perform(BackendOp::MouseMove(10, -5))));
    assert_eq!(unit_reply(Ok(())), r#"{"type":"ok"}"#);
}

#[test]
fn inject_mouse_scroll_cmd_passes_amount() {
    assert!(matches!(plan(Command::MouseScroll { dy: 3 }), Step::Perform(BackendOp::MouseScroll(3))));
    assert_eq!(unit_reply(Ok(())), r#"{"type":"ok"}"#);
}

#[test]
fn inject_copy_paste_cmd_records_calls() {
    assert!(matches!(plan(Command::Copy), Step::Perform(BackendOp::Copy)));
    assert!(matches!(plan(Command::Paste), Step::Perform(BackendOp::Paste)));
}

#[test]
fn other_commands_map_to_their_operations() {
    assert!(matches!(plan(Command::Tab), Step::Perform(BackendOp::InjectKey(Key::Tab))));
    assert!(matches!(plan(Command::Backspace), Step::Perform(BackendOp::InjectKey(Key::Backspace))));
    assert!(matches!(plan(Command::GetClipboardText), Step::Perform(BackendOp::ReadClipboardText)));
    assert!(matches!(plan(Command::GetClipboardImage), Step::Perform(BackendOp::ReadClipboardImage)));
    assert!(matches!(plan(Command::GetFile), Step::Perform(BackendOp::ReadClipboardFiles)));
    assert!(matches!(plan(Command::MouseClick { button: MouseButton::Right }), Step::Perform(BackendOp::MouseClick(MouseButton::Right))));
    assert!(matches!(plan(Command::MousePress { button: MouseButton::Left }), Step::Perform(BackendOp::MousePress(MouseButton::Left))));
    assert!(matches!(plan(Command::MouseRelease { button: MouseButton::Middle }), Step::Perform(BackendOp::MouseRelease(MouseButton::Middle))));
    let names = vec!["a.txt".to_string()];
    assert!(matches!(plan(Command::SetClipboardFiles { names }), Step::Perform(BackendOp::PushClipboardFiles(n)) if n == vec!["a.txt".to_string()]));
}

#[test]
fn invalid_message_is_decode_failed() {
    let mut reg = TransferRegistry::new();
    let r = reply_of(dispatch(&mut reg, "tok", 100, 0, None));
    assert_eq!(r, r#"{"type":"error","code":"decode_failed"}"#);
}

#[test]
fn long_text_is_cut_to_the_limit() {
    assert_eq!(MAX_TEXT_BYTES, 102_400);
    let long = "字".repeat(40_000);
    match plan(Command::Text { value: long }) {
        Step::Perform(BackendOp::InjectText(t)) => {
            assert!(t.len() <= MAX_TEXT_BYTES);
            assert_eq!(t.len(), 102_399);
            assert!(t.chars().all(|c| c == '字'));
        }
        _ => panic!("expected text injection"),
    }
}

#[test]
fn clipboard_image_upload_checks() {
    assert!(matches!(plan(Command::SetClipboardImage { data: "aGk=".into() }), Step::Perform(BackendOp::WriteClipboardImage(b)) if b == b"hi".to_vec()));
    let bad = reply_of(plan(Command::SetClipboardImage { data: "!!".into() }));
    assert_eq!(bad, r#"{"type":"error","code":"decode_failed"}"#);
    let huge = "A".repeat(10_000_004);
    let big = reply_of(plan(Command::SetClipboardImage { data: huge }));
    assert_eq!(big, r#"{"type":"error","code":"too_large"}"#);
}

#[test]
fn upload_start_registers_and_answers() {
    let mut reg = TransferRegistry::new();
    let cmd = Command::UploadStart { name: "dir/movie.mkv".into(), size: 50, mime: "video/x-matroska".into() };
    let r = reply_of(dispatch(&mut reg, "tok", 100, 7, Some(cmd)));
    assert!(r.starts_with(r#"{"id":""#));
    let id = &r[7..43];
    assert_eq!(r, format!(r#"{{"id":"{}","type":"upload_ready","url":"/upload/{}?t=tok"}}"#, id, id));
    let meta = reg.take_upload(id).expect("registered");
    assert_eq!(meta.name, "movie.mkv");
    assert_eq!(meta.size, 50);
    assert_eq!(meta.created_at, 7);
}

#[test]
fn upload_start_refusals() {
    let too_big = Command::UploadStart { name: "a".into(), size: 101, mime: String::new() };
    assert_eq!(reply_of(plan(too_big)), r#"{"type":"error","code":"too_large"}"#);
    let bad_name = Command::UploadStart { name: "../x".into(), size: 1, mime: String::new() };
    assert_eq!(reply_of(plan(bad_name)), r#"{"type":"error","code":"forbidden_name"}"#);
}

#[test]
fn replies_escape_json() {
    assert_eq!(clipboard_text_json("a\"b\\c\n"), r#"{"content":"a\"b\\c\n","type":"clipboard_text"}"#);
    assert_eq!(clipboard_text_json("\u{1}"), r#"{"content":"\u0001","type":"clipboard_text"}"#);
    assert_eq!(clipboard_image_json("image/png", "QUJD"), r#"{"data":"QUJD","mime":"image/png","type":"clipboard_image"}"#);
    assert_eq!(upload_ready_json("i", "/u"), r#"{"id":"i","type":"upload_ready","url":"/u"}"#);
    assert_eq!(server_info_json("PC", "dark"), r#"{"name":"PC","theme":"dark","type":"server_info","version":"0.8.0"}"#);
    assert_eq!(version(), "0.8.0");
}

#[test]
fn image_and_crash_replies() {
    assert_eq!(image_reply(Ok(Some(("image/png".into(), "QQ==".into())))), r#"{"data":"QQ==","mime":"image/png","type":"clipboard_image"}"#);
    assert_eq!(image_reply(Ok(None)), r#"{"type":"empty"}"#);
    assert_eq!(image_reply(Err(BackendError::Clipboard(CbError::TooLarge))), r#"{"type":"error","code":"too_large"}"#);
    assert_eq!(crashed_reply(), r#"{"type":"error","code":"internal"}"#);
}

#[test]
fn file_list_offers_each_file_once() {
    let mut reg = TransferRegistry::new();
    let files = vec![
        FileMeta { path: "/d/a.txt".into(), name: "a.txt".into(), size: 3, mime: "text/plain".into() },
        FileMeta { path: "/d/b.png".into(), name: "b.png".into(), size: 9, mime: "image/png".into() },
    ];
    let (reply, ids) = files_reply(&mut reg, "tok", 5, Ok(files));
    assert_eq!(ids.len(), 2);
    let want = format!(
        r#"{{"files":[{{"mime":"text/plain","name":"a.txt","size":3,"url":"/download/{}?t=tok"}},{{"mime":"image/png","name":"b.png","size":9,"url":"/download/{}?t=tok"}}],"type":"file_list"}}"#,
        ids[0], ids[1]
    );
    assert_eq!(reply, want);
    assert_eq!(reg.take_download(&ids[1]).map(|m| m.path), Some("/d/b.png".to_string()));
    let (empty, none) = files_reply(&mut reg, "tok", 5, Ok(Vec::new()));
    assert_eq!(empty, r#"{"type":"empty"}"#);
    assert!(none.is_empty());
    let (err, _) = files_reply(&mut reg, "tok", 5, Err(BackendError::Clipboard(CbError::ContentNotAvailable)));
    assert_eq!(err, r#"{"type":"error","code":"empty"}"#);
}

#[test]
fn clipboard_files_keep_names_inside_the_save_dir() {
    let names = vec![
        "a.txt".to_string(),
        "../x".to_string(),
        "/etc/passwd".to_string(),
        "..".to_string(),
        "d/x".to_string(),
        "dir\\b.png".to_string(),
        "C:\\w.txt".to_string(),
        "d/../../x".to_string(),
        "..a/b".to_string(),
        "报告.pdf".to_string(),
    ];
    match plan(Command::SetClipboardFiles { names }) {
        Step::Perform(BackendOp::PushClipboardFiles(kept)) => {
            let want: Vec<String> =
                ["a.txt", "d/x", "dir\\b.png", "..a/b", "报告.pdf"].iter().map(|s| s.to_string()).collect();
            assert_eq!(kept, want);
        }
        _ => panic!("expected a clipboard push"),
    }
}

#[test]
fn socket_frames() {
    assert!(matches!(frame_action(Frame::Text("hi".into())), FrameAction::Handle(t) if t == "hi"));
    assert!(matches!(frame_action(Frame::Close), FrameAction::Stop));
    assert!(matches!(frame_action(Frame::Error), FrameAction::Stop));
    assert!(matches!(frame_action(Frame::Other), FrameAction::Ignore));
}
