//! QR code rendering: the module matrix comes from the `qrcode` crate; the
//! terminal text and the pixel buffer are drawn here.

use vstd::prelude::*;
use crate::text::{push_char, push_str};

verus! {

/// Quiet-zone width of the terminal rendering, in modules (the QR standard
/// asks for at least four).
pub const TERMINAL_QUIET: usize = 4;

/// Pixel colour of a dark module (XRGB8888).
pub const DARK: u32 = 0xFF000000;

/// Pixel colour of a light module and of the quiet zone (XRGB8888).
pub const LIGHT: u32 = 0xFFFFFFFF;

/// The module matrix of a QR symbol, row by row, `true` for dark.
pub struct QrModules {
    pub width: usize,
    pub dark: Vec<bool>,
}

/// What `qrcode::QrCode::new` makes of the data (medium error correction,
/// smallest version): the width in modules and the dark flags row by row,
/// or the text of its error.
pub uninterp spec fn qr_symbol(data: Seq<u8>) -> Result<(usize, Seq<bool>), Seq<char>>;

/// Encodes `data` with `qrcode::QrCode::new`; its result is named
/// [`qr_symbol`]. A symbol of version 1 to 40 is 21 to 177 modules wide and
/// has one flag per module.
#[verifier::external_body]
fn qr_encode(data: &[u8]) -> (r: Result<QrModules, String>)
    ensures
        r matches Ok(m) ==> (qr_symbol(data@) matches Ok(sym) && sym.0 == m.width && sym.1 == m.dark@),
        r matches Ok(m) ==> 21 <= m.width <= 177 && m.dark@.len() == m.width * m.width,
        r matches Err(e) ==> (qr_symbol(data@) matches Err(msg) && msg == e@),
{
    match qrcode::QrCode::new(data) {
        Ok(code) => {
            let width = code.width();
            #[allow(deprecated)]
            let dark = code.into_vec();
            Ok(QrModules { width, dark })
        },
        Err(e) => Err(format!("{}", e)),
    }
}

/// Encodes text, prefixing an encoder error with `qr encode: `.
pub fn encode_text(text: &str) -> (r: Result<QrModules, String>)
    ensures
        r matches Ok(m) ==> (qr_symbol(vstd::utf8::encode_utf8(text@)) matches Ok(sym) && sym.0 == m.width && sym.1 == m.dark@),
        r matches Ok(m) ==> 21 <= m.width <= 177 && m.dark@.len() == m.width * m.width,
        r matches Err(e) ==> (qr_symbol(vstd::utf8::encode_utf8(text@)) matches Err(msg) && e@ == "qr encode: "@ + msg),
{
    match qr_encode(text.as_bytes()) {
        Ok(m) => Ok(m),
        Err(e) => {
            let mut s = String::new();
            push_str(&mut s, "qr encode: ");
            push_str(&mut s, e.as_str());
            Err(s)
        },
    }
}

/// Module `(mx, my)` is dark; positions outside the symbol are light.
pub open spec fn module_dark(dark: Seq<bool>, w: int, mx: int, my: int) -> bool {
    0 <= mx < w && 0 <= my < w && dark[my * w + mx]
}

fn module_dark_exec(dark: &Vec<bool>, w: usize, mx: i64, my: i64) -> (r: bool)
    requires
        dark@.len() == w * w,
        w <= 177,
    ensures
        r == module_dark(dark@, w as int, mx as int, my as int),
{
    if mx < 0 || my < 0 || mx >= w as i64 || my >= w as i64 {
        return false;
    }
    let x = mx as usize;
    let y = my as usize;
    proof {
        assert(y * w + x < w * w && w * w <= 31329) by (nonlinear_arith)
            requires x < w, y < w, w <= 177;
    }
    dark[y * w + x]
}

// ---------------------------------------------------------------------------
// Pixels
// ---------------------------------------------------------------------------

/// Side of the rendered image in pixels: the symbol plus a border of
/// `border` modules on each side, `scale` pixels per module.
pub open spec fn pixel_side(w: int, scale: int, border: int) -> int {
    (w + 2 * border) * scale
}

/// Colour of pixel `(px, py)`: the module under it, shifted by the border.
pub open spec fn pixel_at(dark: Seq<bool>, w: int, scale: int, border: int, px: int, py: int) -> u32 {
    if module_dark(dark, w, px / scale - border, py / scale - border) {
        DARK
    } else {
        LIGHT
    }
}

/// Renders a module matrix to a square XRGB8888 buffer, row by row:
/// every pixel takes the colour of the module under it, the border is light.
pub fn render_modules_to_pixels(m: &QrModules, scale: u32, border: u32) -> (r: (Vec<u32>, u32, u32))
    requires
        21 <= m.width <= 177,
        m.dark@.len() == m.width * m.width,
        pixel_side(m.width as int, scale as int, border as int) * pixel_side(m.width as int, scale as int, border as int) <= u32::MAX,
    ensures
        r.1 == pixel_side(m.width as int, scale as int, border as int),
        r.2 == r.1,
        r.0@.len() == r.1 * r.2,
        forall|i: int| 0 <= i < r.0@.len() ==> #[trigger] r.0@[i]
            == pixel_at(m.dark@, m.width as int, scale as int, border as int, i % (r.1 as int), i / (r.1 as int)),
{
    let w = m.width;
    let ghost side = pixel_side(w as int, scale as int, border as int);
    proof {
        assert(side >= 0) by (nonlinear_arith) requires w >= 0, scale >= 0, border >= 0, side == (w + 2 * border) * scale;
        assert(side <= side * side || side == 0) by (nonlinear_arith) requires side >= 0;
        assert((w as int) + 2 * (border as int) <= side || scale == 0) by (nonlinear_arith)
            requires side == (w + 2 * border) * scale, scale >= 0, w >= 0, border >= 0;
    }
    let total: u32 = if scale == 0 { 0 } else { (w as u32) + 2 * border };
    let pw: u32 = total * scale;
    assert(pw == side) by (nonlinear_arith) requires pw == total * scale, scale == 0 ==> total == 0, scale != 0 ==> total == w + 2 * border, side == (w + 2 * border) * scale;
    let n: u32 = pw * pw;
    let mut buf: Vec<u32> = vec![LIGHT; n as usize];
    let mut i: u32 = 0;
    while i < n
        invariant
            n == pw * pw,
            pw as int == pixel_side(w as int, scale as int, border as int),
            buf@.len() == n,
            i <= n,
            m.dark@.len() == w * w,
            w <= 177,
            w == m.width,
            forall|j: int| 0 <= j < i ==> #[trigger] buf@[j]
                == pixel_at(m.dark@, w as int, scale as int, border as int, j % (pw as int), j / (pw as int)),
            forall|j: int| i <= j < n ==> #[trigger] buf@[j] == LIGHT,
        decreases n - i,
    {
        proof {
            assert(pw > 0) by (nonlinear_arith) requires i < n, n == pw * pw;
        }
        let px: u32 = i % pw;
        let py: u32 = i / pw;
        proof {
            assert(scale > 0) by (nonlinear_arith) requires pw == (w + 2 * border) * scale, pw > 0, scale >= 0;
        }
        let mx: i64 = (px / scale) as i64 - border as i64;
        let my: i64 = (py / scale) as i64 - border as i64;
        if module_dark_exec(&m.dark, w, mx, my) {
            buf.set(i as usize, DARK);
        }
        i = i + 1;
    }
    (buf, pw, pw)
}

/// Renders `text` as a QR code in a square XRGB8888 buffer: `scale` pixels
/// per module, a light border of `border` modules. Returns the buffer and
/// its width and height. Fails when the encoder refuses the text, or when
/// the buffer would hold more than `u32::MAX` pixels.
pub fn render_qr_to_pixels(text: &str, scale: u32, border: u32) -> (r: Result<(Vec<u32>, u32, u32), String>)
    ensures
        r matches Ok(t) ==> qr_symbol(vstd::utf8::encode_utf8(text@)) matches Ok(sym) && {
            &&& t.1 == pixel_side(sym.0 as int, scale as int, border as int)
            &&& t.2 == t.1
            &&& t.0@.len() == t.1 * t.2
            &&& forall|i: int| 0 <= i < t.0@.len() ==> #[trigger] t.0@[i]
                == pixel_at(sym.1, sym.0 as int, scale as int, border as int, i % (t.1 as int), i / (t.1 as int))
        },
        qr_symbol(vstd::utf8::encode_utf8(text@)) matches Ok(sym) ==> (r is Ok <==> pixel_side(sym.0 as int, scale as int, border as int)
            * pixel_side(sym.0 as int, scale as int, border as int) <= u32::MAX),
        qr_symbol(vstd::utf8::encode_utf8(text@)) matches Err(msg) ==> (r matches Err(e) && e@ == "qr encode: "@ + msg),
{
    let m = encode_text(text)?;
    let w = m.width as u128;
    proof {
        let a = (w as int) + 2 * (border as int);
        assert(a * (scale as int) <= 0x3_0000_0000 * 0x1_0000_0000) by (nonlinear_arith)
            requires 0 <= a <= 0x3_0000_0000, 0 <= scale <= 0xFFFF_FFFF;
    }
    let side: u128 = (w + 2 * (border as u128)) * (scale as u128);
    proof {
        assert(side == pixel_side(m.width as int, scale as int, border as int));
    }
    let too_large = if side > 65535 {
        true
    } else {
        assert(side * side <= 65535 * 65535) by (nonlinear_arith) requires side <= 65535;
        side * side > 0xFFFF_FFFF
    };
    if too_large {
        proof {
            if side > 65535 {
                assert(side * side > 0xFFFF_FFFF) by (nonlinear_arith) requires side > 65535;
            }
        }
        let mut e = String::new();
        push_str(&mut e, "qr image too large");
        return Err(e);
    }
    Ok(render_modules_to_pixels(&m, scale, border))
}

// ---------------------------------------------------------------------------
// Terminal
// ---------------------------------------------------------------------------

/// The quadrant block characters, indexed by the dark flags of a 2×2 block
/// of modules: upper left 1, upper right 2, lower left 4, lower right 8.
pub open spec fn quadrant_table() -> Seq<char> {
    seq![
        ' ', '\u{2598}', '\u{259d}', '\u{2580}', '\u{2596}', '\u{258c}', '\u{259e}', '\u{259b}',
        '\u{2597}', '\u{259a}', '\u{2590}', '\u{259c}', '\u{2584}', '\u{2599}', '\u{259f}', '\u{2588}',
    ]
}

/// The character drawing a 2×2 block of modules (`█` all dark, `▀` top
/// row dark, `▞` upper right and lower left dark, and so on).
pub open spec fn quadrant_char(ul: bool, ur: bool, ll: bool, lr: bool) -> char {
    quadrant_table()[(if ul { 1int } else { 0 }) + (if ur { 2int } else { 0 }) + (if ll { 4int } else { 0 })
        + (if lr { 8int } else { 0 })]
}

/// Line of the terminal rendering that shows module rows `y - 4` and
/// `y - 3`, quiet zone included: character `x` draws the 2×2 block of
/// module columns `2x - 4` and `2x - 3` of those rows, so a symbol of `w`
/// modules (`w + 8` with the quiet zone) takes `(w + 9) / 2` characters.
pub open spec fn terminal_line(dark: Seq<bool>, w: int, y: int) -> Seq<char> {
    Seq::new(
        ((w + 9) / 2) as nat,
        |x: int| quadrant_char(
            module_dark(dark, w, 2 * x - 4, y - 4),
            module_dark(dark, w, 2 * x + 1 - 4, y - 4),
            module_dark(dark, w, 2 * x - 4, y + 1 - 4),
            module_dark(dark, w, 2 * x + 1 - 4, y + 1 - 4),
        ),
    )
}

/// Draws a module matrix with quadrant block characters, each character a
/// 2×2 block of modules, with a four-module quiet zone: line `k` shows
/// module rows `2k - 4` and `2k - 3`.
pub fn render_modules_to_lines(m: &QrModules) -> (r: Vec<String>)
    requires
        21 <= m.width <= 177,
        m.dark@.len() == m.width * m.width,
    ensures
        r@.len() == (m.width + 9) / 2,
        forall|k: int| 0 <= k < r@.len() ==> (#[trigger] r@[k])@ == terminal_line(m.dark@, m.width as int, 2 * k),
{
    let table: [char; 16] = [
        ' ', '\u{2598}', '\u{259d}', '\u{2580}', '\u{2596}', '\u{258c}', '\u{259e}', '\u{259b}',
        '\u{2597}', '\u{259a}', '\u{2590}', '\u{259c}', '\u{2584}', '\u{2599}', '\u{259f}', '\u{2588}',
    ];
    assert(table@ =~= quadrant_table());
    let w = m.width;
    let total = w + 2 * TERMINAL_QUIET;
    let cols = (w + 9) / 2;
    let mut lines: Vec<String> = Vec::new();
    let mut y: usize = 0;
    while y < total
        invariant
            total == w + 8,
            cols == (w + 9) / 2,
            w == m.width,
            21 <= w <= 177,
            m.dark@.len() == w * w,
            table@ == quadrant_table(),
            y % 2 == 0,
            y <= total + 1,
            lines@.len() == y / 2,
            forall|k: int| 0 <= k < lines@.len() ==> (#[trigger] lines@[k])@ == terminal_line(m.dark@, w as int, 2 * k),
        decreases total + 1 - y,
    {
        let mut line = String::new();
        let mut x: usize = 0;
        while x < cols
            invariant
                cols == (w + 9) / 2,
                21 <= w <= 177,
                m.dark@.len() == w * w,
                table@ == quadrant_table(),
                y < total,
                total == w + 8,
                x <= cols,
                line@ == terminal_line(m.dark@, w as int, y as int).take(x as int),
            decreases cols - x,
        {
            let cx: i64 = 2 * (x as i64) - 4;
            let cy: i64 = y as i64 - 4;
            let ul = module_dark_exec(&m.dark, w, cx, cy);
            let ur = module_dark_exec(&m.dark, w, cx + 1, cy);
            let ll = module_dark_exec(&m.dark, w, cx, cy + 1);
            let lr = module_dark_exec(&m.dark, w, cx + 1, cy + 1);
            let idx: usize = (if ul { 1 } else { 0 }) + (if ur { 2 } else { 0 }) + (if ll { 4 } else { 0 })
                + (if lr { 8 } else { 0 });
            push_char(&mut line, table[idx]);
            proof {
                assert(line@ =~= terminal_line(m.dark@, w as int, y as int).take(x + 1));
            }
            x = x + 1;
        }
        proof {
            assert(terminal_line(m.dark@, w as int, y as int).take(cols as int) =~= terminal_line(m.dark@, w as int, y as int));
        }
        lines.push(line);
        y = y + 2;
    }
    lines
}

/// The terminal rendering of `text` as a QR code, one string per line.
pub fn render_qr_to_terminal(text: &str) -> (r: Result<Vec<String>, String>)
    ensures
        r matches Ok(lines) ==> qr_symbol(vstd::utf8::encode_utf8(text@)) matches Ok(sym) && {
            &&& lines@.len() == (sym.0 + 9) / 2
            &&& forall|k: int| 0 <= k < lines@.len() ==> (#[trigger] lines@[k])@ == terminal_line(sym.1, sym.0 as int, 2 * k)
        },
        r is Err <==> qr_symbol(vstd::utf8::encode_utf8(text@)) is Err,
{
    let m = encode_text(text)?;
    Ok(render_modules_to_lines(&m))
}

} // verus!
