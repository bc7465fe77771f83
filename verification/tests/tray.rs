use qrctrl::qr::LIGHT;
use qrctrl::tray::{compose_frame, config_page_url, tray_actions, TrayAction, TrayEvent, TrayState, QR_WINDOW_BORDER, QR_WINDOW_SCALE};

fn state(auto: bool) -> TrayState {
    TrayState {
        device_name: "Desk".into(),
        url: "http://10.0.0.2:8080/?t=abcd".into(),
        save_dir: "/home/me/Downloads/qrctrl".into(),
        auto_show_qr: auto,
    }
}

#[test]
fn config_url_from_scan_url() {
    assert_eq!(config_page_url("http://10.0.0.2:8080/?t=abcd"), "http://10.0.0.2:8080/config?t=abcd");
    assert_eq!(config_page_url("http://localhost:9000?t=x"), "http://localhost:9000/config?t=x");
    assert_eq!(config_page_url("http://h//?t=x"), "http://h/config?t=x");
    assert_eq!(config_page_url("http://h/"), "http://h/");
}

#[test]
fn start_builds_icon_and_maybe_opens_qr() {
    let a = tray_actions(&state(true), false, TrayEvent::Started);
    assert_eq!(a.len(), 2);
    assert!(matches!(&a[0], TrayAction::BuildIcon(t) if t == "qrctrl · Desk"));
    assert!(matches!(a[1], TrayAction::OpenQrWindow));
    assert_eq!(tray_actions(&state(false), false, TrayEvent::Started).len(), 1);
}

#[test]
fn menu_actions() {
    let s = state(false);
    assert!(matches!(&tray_actions(&s, false, TrayEvent::CopyUrl)[0], TrayAction::CopyText(u) if u == "http://10.0.0.2:8080/?t=abcd"));
    assert!(matches!(tray_actions(&s, true, TrayEvent::ShowQr)[0], TrayAction::FocusQrWindow));
    assert!(matches!(tray_actions(&s, false, TrayEvent::ShowQr)[0], TrayAction::OpenQrWindow));
    assert!(matches!(&tray_actions(&s, false, TrayEvent::OpenSaveDir)[0], TrayAction::OpenFolder(d) if d == "/home/me/Downloads/qrctrl"));
    assert!(matches!(&tray_actions(&s, false, TrayEvent::OpenConfig)[0], TrayAction::OpenBrowser(u) if u == "http://10.0.0.2:8080/config?t=abcd"));
    let quit = tray_actions(&s, false, TrayEvent::Quit);
    assert!(matches!(quit.as_slice(), [TrayAction::NotifyShutdown, TrayAction::Exit]));
    let restart = tray_actions(&s, false, TrayEvent::RestartRequested);
    assert!(matches!(restart.as_slice(), [TrayAction::SpawnRestarted, TrayAction::NotifyShutdown, TrayAction::Exit]));
}

#[test]
fn window_events_only_matter_with_the_window_open() {
    let s = state(false);
    assert!(matches!(tray_actions(&s, true, TrayEvent::QrWindowClosed).as_slice(), [TrayAction::CloseQrWindow]));
    assert!(tray_actions(&s, false, TrayEvent::QrWindowClosed).is_empty());
    assert!(matches!(tray_actions(&s, true, TrayEvent::QrWindowRedraw).as_slice(), [TrayAction::DrawQr]));
    assert!(tray_actions(&s, false, TrayEvent::QrWindowRedraw).is_empty());
    assert!(tray_actions(&s, true, TrayEvent::Other).is_empty());
}

#[test]
fn frame_centres_the_image() {
    let px = vec![1, 2, 3, 4];
    let f = compose_frame(&px, 2, 2, 4, 4);
    assert_eq!(f.len(), 16);
    let w = LIGHT;
    assert_eq!(f, vec![w, w, w, w, w, 1, 2, w, w, 3, 4, w, w, w, w, w]);
    // a smaller window shows the top-left part
    assert_eq!(compose_frame(&px, 2, 2, 1, 1), vec![1]);
    assert!(compose_frame(&px, 2, 2, 0, 5).is_empty());
    assert_eq!((QR_WINDOW_SCALE, QR_WINDOW_BORDER), (12, 4));
}
