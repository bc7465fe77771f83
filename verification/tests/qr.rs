use qrctrl::qr::{encode_text, render_modules_to_pixels, render_qr_to_pixels, render_qr_to_terminal, DARK, LIGHT};

#[test]
fn render_qr_to_pixels_dimensions_match() {
    let (buf, w, h) = render_qr_to_pixels("hello", 4, 4).unwrap();
    assert_eq!(w, h);
    assert_eq!(buf.len(), (w * h) as usize);
}

#[test]
fn render_qr_to_pixels_corners_are_white() {
    let (buf, w, _h) = render_qr_to_pixels("hello", 4, 4).unwrap();
    let at = |x: u32, y: u32| buf[(y * w + x) as usize];
    assert_eq!(at(0, 0), 0xFFFFFFFF);
    assert_eq!(at(w - 1, 0), 0xFFFFFFFF);
    assert_eq!(at(0, w - 1), 0xFFFFFFFF);
    assert_eq!(at(w - 1, w - 1), 0xFFFFFFFF);
}

#[test]
fn render_qr_to_pixels_has_dark_modules() {
    let (buf, _w, _h) = render_qr_to_pixels("https://example.com/?t=abc", 4, 4).unwrap();
    assert!(buf.iter().any(|&p| p == 0xFF000000));
}

#[test]
fn render_qr_to_pixels_scale_affects_size() {
    let (_buf1, w1, _) = render_qr_to_pixels("hello", 1, 4).unwrap();
    let (_buf4, w4, _) = render_qr_to_pixels("hello", 4, 4).unwrap();
    assert_eq!(w4 / w1, 4);
}

#[test]
fn render_qr_to_pixels_rejects_empty() {
    let result = render_qr_to_pixels("", 4, 4);
    let _ = result;
}

#[test]
fn pixel_image_is_the_scaled_module_matrix() {
    let m = encode_text("hello").ok().expect("encodes");
    assert_eq!(m.width, 21);
    assert_eq!(m.dark.len(), 21 * 21);
    let (buf, w, h) = render_modules_to_pixels(&m, 3, 2);
    assert_eq!((w, h), (3 * (21 + 4), 3 * (21 + 4)));
    for my in 0..21usize {
        for mx in 0..21usize {
            let want = if m.dark[my * 21 + mx] { DARK } else { LIGHT };
            let px = (mx + 2) * 3 + 1;
            let py = (my + 2) * 3 + 2;
            assert_eq!(buf[py * (w as usize) + px], want);
        }
    }
    // the finder pattern's corner is dark
    assert!(m.dark[0]);
}

#[test]
fn terminal_rendering_draws_two_by_two_blocks() {
    let m = encode_text("hello").ok().expect("encodes");
    let lines = render_qr_to_terminal("hello").ok().expect("encodes");
    assert_eq!(lines.len(), 15);
    let table = [
        ' ', '\u{2598}', '\u{259d}', '\u{2580}', '\u{2596}', '\u{258c}', '\u{259e}', '\u{259b}',
        '\u{2597}', '\u{259a}', '\u{2590}', '\u{259c}', '\u{2584}', '\u{2599}', '\u{259f}', '\u{2588}',
    ];
    let dark = |x: i64, y: i64| x >= 0 && y >= 0 && x < 21 && y < 21 && m.dark[(y * 21 + x) as usize];
    for (k, line) in lines.iter().enumerate() {
        let chars: Vec<char> = line.chars().collect();
        assert_eq!(chars.len(), 15);
        for (x, c) in chars.iter().enumerate() {
            let (cx, cy) = (2 * x as i64 - 4, 2 * k as i64 - 4);
            let idx = (dark(cx, cy) as usize) + 2 * (dark(cx + 1, cy) as usize)
                + 4 * (dark(cx, cy + 1) as usize) + 8 * (dark(cx + 1, cy + 1) as usize);
            assert_eq!(*c, table[idx]);
        }
    }
    assert!(lines[0].chars().all(|c| c == ' '));
    // the finder pattern's corner block: its top row and left column are dark
    assert_eq!(lines[2].chars().nth(2), Some('\u{259b}'));
}

#[test]
fn oversized_data_is_an_encoder_error() {
    let big = "x".repeat(8000);
    let err = render_qr_to_pixels(&big, 1, 1).err().expect("too long for a QR code");
    assert!(err.starts_with("qr encode: "));
    assert!(render_qr_to_terminal(&big).is_err());
}
