//! The tray side: its state, the configuration page's URL, and the frame
//! that shows the QR code centred in its window.

use vstd::prelude::*;
use crate::net::{dotted, Ipv4};
use crate::qr::LIGHT;
use crate::startup::scan_url_text;
use crate::text::{chars_of, find_first, first_occurrence_from, push_char, push_str, string_of};

verus! {

/// What the tray menu works with.
pub struct TrayState {
    pub device_name: String,
    pub url: String,
    /// Where uploads are saved; the menu can open it.
    pub save_dir: String,
    /// Open the QR window at start (started without a console).
    pub auto_show_qr: bool,
}

/// Size of one QR module in the QR window, in pixels.
pub const QR_WINDOW_SCALE: u32 = 12;

/// Quiet zone around the QR code in the QR window, in modules.
pub const QR_WINDOW_BORDER: u32 = 4;

/// What the tray's event loop reports.
pub enum TrayEvent {
    /// The event loop has started.
    Started,
    /// Menu "复制 URL".
    CopyUrl,
    /// Menu "显示二维码".
    ShowQr,
    /// Menu "打开文件保存目录".
    OpenSaveDir,
    /// Menu "配置...".
    OpenConfig,
    /// Menu "退出".
    Quit,
    /// The configuration page asked for a restart.
    RestartRequested,
    /// The QR window was closed.
    QrWindowClosed,
    /// The QR window needs repainting.
    QrWindowRedraw,
    /// Anything else.
    Other,
}

/// What the event loop is asked to do, in order.
pub enum TrayAction {
    /// Create the tray icon with this tooltip.
    BuildIcon(String),
    /// Open the QR window showing the scan URL.
    OpenQrWindow,
    /// Bring the open QR window to the front.
    FocusQrWindow,
    /// Put this text on the clipboard.
    CopyText(String),
    /// Open this folder in the file manager.
    OpenFolder(String),
    /// Open this URL in the default browser.
    OpenBrowser(String),
    /// Start a new process with the same arguments, told that it restarts.
    SpawnRestarted,
    /// Tell the server to shut down gracefully.
    NotifyShutdown,
    /// Leave the event loop.
    Exit,
    /// Drop the QR window.
    CloseQrWindow,
    /// Repaint the QR window.
    DrawQr,
}

/// The tray's reaction to an event. `qr_open` says whether the QR window
/// is open. At start the icon is built, and the QR window is opened when
/// there is no console to show the banner; "show QR" focuses an open
/// window or opens one; quitting shuts the server down and leaves; a
/// restart first starts the new process.
pub fn tray_actions(state: &TrayState, qr_open: bool, event: TrayEvent) -> (r: Vec<TrayAction>)
    ensures
        event is Started ==> (r@.len() == (if state.auto_show_qr { 2int } else { 1int })
            && (r@[0] matches TrayAction::BuildIcon(t) && t@ == "qrctrl · "@ + state.device_name@)
            && (state.auto_show_qr ==> r@[1] is OpenQrWindow)),
        event is CopyUrl ==> (r@.len() == 1 && (r@[0] matches TrayAction::CopyText(t) && t@ == state.url@)),
        event is ShowQr ==> (r@.len() == 1 && (if qr_open { r@[0] is FocusQrWindow } else { r@[0] is OpenQrWindow })),
        event is OpenSaveDir ==> (r@.len() == 1 && (r@[0] matches TrayAction::OpenFolder(d) && d@ == state.save_dir@)),
        event is OpenConfig ==> (r@.len() == 1 && (r@[0] matches TrayAction::OpenBrowser(u) && u@ == config_url_of(state.url@))),
        event is Quit ==> (r@.len() == 2 && r@[0] is NotifyShutdown && r@[1] is Exit),
        event is RestartRequested ==> (r@.len() == 3 && r@[0] is SpawnRestarted && r@[1] is NotifyShutdown && r@[2] is Exit),
        event is QrWindowClosed ==> (if qr_open { r@.len() == 1 && r@[0] is CloseQrWindow } else { r@.len() == 0 }),
        event is QrWindowRedraw ==> (if qr_open { r@.len() == 1 && r@[0] is DrawQr } else { r@.len() == 0 }),
        event is Other ==> r@.len() == 0,
{
    let mut r: Vec<TrayAction> = Vec::new();
    match event {
        TrayEvent::Started => {
            let mut tip = String::new();
            push_str(&mut tip, "qrctrl · ");
            push_str(&mut tip, state.device_name.as_str());
            r.push(TrayAction::BuildIcon(tip));
            if state.auto_show_qr {
                r.push(TrayAction::OpenQrWindow);
            }
        },
        TrayEvent::CopyUrl => {
            r.push(TrayAction::CopyText(copy_of(state.url.as_str())));
        },
        TrayEvent::ShowQr => {
            if qr_open {
                r.push(TrayAction::FocusQrWindow);
            } else {
                r.push(TrayAction::OpenQrWindow);
            }
        },
        TrayEvent::OpenSaveDir => {
            r.push(TrayAction::OpenFolder(copy_of(state.save_dir.as_str())));
        },
        TrayEvent::OpenConfig => {
            r.push(TrayAction::OpenBrowser(config_page_url(state.url.as_str())));
        },
        TrayEvent::Quit => {
            r.push(TrayAction::NotifyShutdown);
            r.push(TrayAction::Exit);
        },
        TrayEvent::RestartRequested => {
            r.push(TrayAction::SpawnRestarted);
            r.push(TrayAction::NotifyShutdown);
            r.push(TrayAction::Exit);
        },
        TrayEvent::QrWindowClosed => {
            if qr_open {
                r.push(TrayAction::CloseQrWindow);
            }
        },
        TrayEvent::QrWindowRedraw => {
            if qr_open {
                r.push(TrayAction::DrawQr);
            }
        },
        TrayEvent::Other => {},
    }
    r
}

fn copy_of(s: &str) -> (r: String)
    ensures
        r@ == s@,
{
    s.to_owned()
}

/// `?t=`, which starts the token in a scan URL.
pub open spec fn token_marker() -> Seq<char> {
    seq!['?', 't', '=']
}

/// `s` without its trailing `/` characters.
pub open spec fn without_trailing_slashes(s: Seq<char>) -> Seq<char>
    decreases s.len(),
{
    if s.len() > 0 && s.last() == '/' {
        without_trailing_slashes(s.drop_last())
    } else {
        s
    }
}

/// The configuration page's URL for a scan URL: `/config` in place of the
/// path before the first `?t=`, with the same token
/// (`http://ip:port/?t=tok` → `http://ip:port/config?t=tok`); the scan URL
/// itself when it holds no `?t=`.
pub open spec fn config_url_of(url: Seq<char>) -> Seq<char> {
    match first_occurrence_from(url, token_marker(), 0) {
        Some(i) => without_trailing_slashes(url.subrange(0, i)) + "/config?t="@ + url.subrange(i + 3, url.len() as int),
        None => url,
    }
}

/// Builds the configuration page's URL from the scan URL (see [`config_url_of`]).
pub fn config_page_url(url: &str) -> (r: String)
    ensures
        r@ == config_url_of(url@),
{
    let v = chars_of(url);
    let marker: [char; 3] = ['?', 't', '='];
    assert(marker@ =~= token_marker());
    match find_first(v.as_slice(), &marker) {
        None => string_of(v.as_slice()),
        Some(i) => {
            proof {
                crate::text::lemma_first_occurrence_in_bounds(v@, token_marker(), 0);
            }
            let mut end = i;
            while end > 0 && v[end - 1] == '/'
                invariant
                    end <= i,
                    i + 3 <= v@.len(),
                    without_trailing_slashes(v@.subrange(0, i as int)) == without_trailing_slashes(v@.subrange(0, end as int)),
                decreases end,
            {
                proof {
                    assert(v@.subrange(0, end as int).drop_last() =~= v@.subrange(0, end - 1));
                }
                end = end - 1;
            }
            proof {
                let t = v@.subrange(0, end as int);
                if end > 0 {
                    assert(t.last() == v@[end - 1]);
                }
            }
            let mut s = String::new();
            let mut b: usize = 0;
            while b < end
                invariant
                    b <= end <= v@.len(),
                    s@ == v@.subrange(0, b as int),
                decreases end - b,
            {
                push_char(&mut s, v[b]);
                proof {
                    assert(s@ =~= v@.subrange(0, b + 1));
                }
                b = b + 1;
            }
            push_str(&mut s, "/config?t=");
            assert(v@.len() == v.len());
            let mut k: usize = i + 3;
            let ghost head = s@;
            while k < v.len()
                invariant
                    i + 3 <= k <= v@.len(),
                    s@ == head + v@.subrange(i + 3, k as int),
                decreases v.len() - k,
            {
                push_char(&mut s, v[k]);
                proof {
                    assert(s@ =~= head + v@.subrange(i + 3, k + 1));
                }
                k = k + 1;
            }
            s
        },
    }
}

proof fn lemma_decimal_digits(n: nat)
    ensures
        crate::text::decimal(n).len() > 0,
        forall|k: int| 0 <= k < crate::text::decimal(n).len() ==> {
            let c = #[trigger] crate::text::decimal(n)[k];
            '0' <= c && c <= '9'
        },
    decreases n,
{
    if n >= 10 {
        lemma_decimal_digits(n / 10);
    }
}

proof fn lemma_first_marker(url: Seq<char>, p: Seq<char>, rest: Seq<char>, i: int)
    requires
        url == p + token_marker() + rest,
        0 <= i <= p.len(),
        forall|k: int| 0 <= k < p.len() ==> #[trigger] p[k] != '?',
    ensures
        first_occurrence_from(url, token_marker(), i) == Some(p.len() as int),
    decreases p.len() - i,
{
    if i < p.len() {
        assert(url[i] == p[i]);
        assert(url.subrange(i, i + 3)[0] == url[i]);
        lemma_first_marker(url, p, rest, i + 1);
    } else {
        assert(url.subrange(i, i + 3) =~= token_marker());
    }
}

/// The configuration page opened from the tray is on the same host and
/// port as the scan URL and carries the same token:
/// `http://<host>:<port>/?t=<token>` becomes
/// `http://<host>:<port>/config?t=<token>`.
pub proof fn law_config_url_of_scan_url(ip: Option<Ipv4>, port: u16, token: Seq<char>)
    ensures
        config_url_of(scan_url_text(ip, port, token)) == "http://"@ + (match ip {
            Some(a) => dotted(a),
            None => "localhost"@,
        }) + seq![':'] + crate::text::decimal(port as nat) + "/config?t="@ + token,
{
    reveal_strlit("http://");
    reveal_strlit("localhost");
    reveal_strlit("/?t=");
    let host = match ip {
        Some(a) => dotted(a),
        None => "localhost"@,
    };
    let head = "http://"@ + host + seq![':'] + crate::text::decimal(port as nat);
    let p = head + seq!['/'];
    let url = scan_url_text(ip, port, token);
    lemma_decimal_digits(port as nat);
    if let Some(a) = ip {
        lemma_decimal_digits(a.octets@[0] as nat);
        lemma_decimal_digits(a.octets@[1] as nat);
        lemma_decimal_digits(a.octets@[2] as nat);
        lemma_decimal_digits(a.octets@[3] as nat);
    }
    assert forall|k: int| 0 <= k < host.len() implies #[trigger] host[k] != '?' by {
        if let Some(a) = ip {
            let d0 = crate::text::decimal(a.octets@[0] as nat);
            let d1 = crate::text::decimal(a.octets@[1] as nat);
            let d2 = crate::text::decimal(a.octets@[2] as nat);
            let d3 = crate::text::decimal(a.octets@[3] as nat);
            let l1 = d0.len() + 1;
            let l2 = l1 + d1.len() + 1;
            let l3 = l2 + d2.len() + 1;
            if k < d0.len() {
                assert(host[k] == d0[k]);
            } else if k == d0.len() {
                assert(host[k] == '.');
            } else if k < l1 + d1.len() {
                assert(host[k] == d1[k - l1]);
            } else if k == l1 + d1.len() {
                assert(host[k] == '.');
            } else if k < l2 + d2.len() {
                assert(host[k] == d2[k - l2]);
            } else if k == l2 + d2.len() {
                assert(host[k] == '.');
            } else {
                assert(host[k] == d3[k - l3]);
            }
        }
    }
    assert forall|k: int| 0 <= k < p.len() implies #[trigger] p[k] != '?' by {
        let d = crate::text::decimal(port as nat);
        if k < 7 {
        } else if k < 7 + host.len() {
            assert(p[k] == host[k - 7]);
        } else if k == 7 + host.len() {
        } else if k < 8 + host.len() + d.len() {
            assert(p[k] == d[k - 8 - host.len()]);
        }
    }
    assert(url =~= p + token_marker() + token);
    lemma_first_marker(url, p, token, 0);
    assert(url.subrange(0, p.len() as int) =~= p);
    assert(p.drop_last() =~= head);
    let d = crate::text::decimal(port as nat);
    assert(head.last() == d[d.len() - 1]);
    assert(without_trailing_slashes(p) == head) by {
        reveal_with_fuel(without_trailing_slashes, 2);
    }
    assert(url.subrange(p.len() + 3int, url.len() as int) =~= token);
}

/// Where the QR image starts in a window of `outer` pixels: centred, or at
/// 0 when the window is smaller.
pub open spec fn centre_offset(outer: int, inner: int) -> int {
    if outer > inner { (outer - inner) / 2 } else { 0 }
}

/// Colour of window pixel `(x, y)`: the QR pixel under it when the centred
/// QR image covers it, white elsewhere.
pub open spec fn frame_pixel(pixels: Seq<u32>, qr_w: int, qr_h: int, width: int, height: int, x: int, y: int) -> u32 {
    let ox = centre_offset(width, qr_w);
    let oy = centre_offset(height, qr_h);
    if ox <= x < ox + qr_w && oy <= y < oy + qr_h {
        pixels[(y - oy) * qr_w + (x - ox)]
    } else {
        LIGHT
    }
}

/// The window's frame, row by row: white, with the QR image centred (and
/// cut at the window's edges when the window is smaller).
pub fn compose_frame(pixels: &[u32], qr_w: u32, qr_h: u32, width: u32, height: u32) -> (r: Vec<u32>)
    requires
        pixels@.len() == (qr_w as int) * (qr_h as int),
        (width as int) * (height as int) <= u32::MAX,
    ensures
        r@.len() == (width as int) * (height as int),
        forall|i: int| 0 <= i < r@.len() ==> #[trigger] r@[i] == frame_pixel(
            pixels@, qr_w as int, qr_h as int, width as int, height as int, i % (width as int), i / (width as int),
        ),
{
    let n: u32 = width * height;
    let ox: u32 = if width > qr_w { (width - qr_w) / 2 } else { 0 };
    let oy: u32 = if height > qr_h { (height - qr_h) / 2 } else { 0 };
    let mut buf: Vec<u32> = Vec::new();
    let mut i: u32 = 0;
    while i < n
        invariant
            n == width * height,
            i <= n,
            ox == centre_offset(width as int, qr_w as int),
            oy == centre_offset(height as int, qr_h as int),
            pixels@.len() == (qr_w as int) * (qr_h as int),
            pixels@.len() == pixels.len(),
            buf@.len() == i,
            forall|j: int| 0 <= j < i ==> #[trigger] buf@[j] == frame_pixel(
                pixels@, qr_w as int, qr_h as int, width as int, height as int, j % (width as int), j / (width as int),
            ),
        decreases n - i,
    {
        proof {
            assert(width > 0) by (nonlinear_arith) requires i < n, n == width * height;
        }
        let x = i % width;
        let y = i / width;
        proof {
            assert(y < height) by (nonlinear_arith) requires i < n, n == width * height, y == i / width, width > 0;
        }
        let inside = ox <= x && x - ox < qr_w && oy <= y && y - oy < qr_h;
        let v = if inside {
            let qx = x - ox;
            let qy = y - oy;
            proof {
                assert((qy as int) * (qr_w as int) + (qx as int) < (qr_w as int) * (qr_h as int)) by (nonlinear_arith)
                    requires qx < qr_w, qy < qr_h;
            }
            let idx: usize = (qy as usize) * (qr_w as usize) + (qx as usize);
            pixels[idx]
        } else {
            LIGHT
        };
        buf.push(v);
        i = i + 1;
    }
    buf
}

} // verus!
