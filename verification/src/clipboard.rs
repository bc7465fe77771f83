//! Clipboard image payloads: base64 text, PNG encoding and image decoding,
//! and the error codes of clipboard failures.

use vstd::prelude::*;

verus! {

/// Largest decoded image accepted, in pixels (about 160 MB of RGBA).
pub const MAX_PIXELS: usize = 40_000_000;

/// Largest base64 image text accepted from the phone, in bytes (about 10 MB).
pub const MAX_IMG_B64: usize = 10_000_000;

/// Why a clipboard operation failed.
#[derive(Debug)]
pub enum CbError {
    ContentNotAvailable,
    ClipboardOccupied,
    ConversionFailure,
    TooLarge,
    Unknown(String),
}

/// The protocol error code of a clipboard failure.
pub open spec fn cb_error_code(e: CbError) -> Seq<char> {
    match e {
        CbError::ContentNotAvailable => "empty"@,
        CbError::ClipboardOccupied => "clipboard_busy"@,
        CbError::ConversionFailure => "decode_failed"@,
        CbError::TooLarge => "too_large"@,
        CbError::Unknown(_) => "internal"@,
    }
}

/// Maps a clipboard failure to its protocol error code.
pub fn error_code(e: &CbError) -> (r: &'static str)
    ensures
        r@ == cb_error_code(*e),
{
    match e {
        CbError::ContentNotAvailable => "empty",
        CbError::ClipboardOccupied => "clipboard_busy",
        CbError::ConversionFailure => "decode_failed",
        CbError::TooLarge => "too_large",
        CbError::Unknown(_) => "internal",
    }
}

/// How a clipboard failure reads in the log.
pub open spec fn cb_error_text(e: CbError) -> Seq<char> {
    match e {
        CbError::ContentNotAvailable => "content not available"@,
        CbError::ClipboardOccupied => "clipboard occupied"@,
        CbError::ConversionFailure => "conversion failure"@,
        CbError::TooLarge => "too large"@,
        CbError::Unknown(s) => "unknown: "@ + s@,
    }
}

impl CbError {
    /// The failure in words (`unknown: <cause>` for an unknown one).
    pub fn message(&self) -> (r: String)
        ensures
            r@ == cb_error_text(*self),
    {
        let mut m = String::new();
        match self {
            CbError::ContentNotAvailable => crate::text::push_str(&mut m, "content not available"),
            CbError::ClipboardOccupied => crate::text::push_str(&mut m, "clipboard occupied"),
            CbError::ConversionFailure => crate::text::push_str(&mut m, "conversion failure"),
            CbError::TooLarge => crate::text::push_str(&mut m, "too large"),
            CbError::Unknown(s) => {
                crate::text::push_str(&mut m, "unknown: ");
                crate::text::push_str(&mut m, s.as_str());
            },
        }
        m
    }
}

/// A digit of the standard base64 alphabet (`A-Z a-z 0-9 + /`).
pub open spec fn b64_char(n: int) -> char {
    if n < 26 {
        (n + 65) as char
    } else if n < 52 {
        (n + 71) as char
    } else if n < 62 {
        (n - 4) as char
    } else if n == 62 {
        '+'
    } else {
        '/'
    }
}

/// Standard base64 with `=` padding (RFC 4648, section 4): every three
/// bytes become four digits; a final one or two bytes are padded.
pub open spec fn base64_encode(b: Seq<u8>) -> Seq<char>
    decreases b.len(),
{
    if b.len() == 0 {
        Seq::empty()
    } else {
        let x0 = b[0] as int;
        if b.len() == 1 {
            seq![b64_char(x0 / 4), b64_char((x0 % 4) * 16), '=', '=']
        } else {
            let x1 = b[1] as int;
            if b.len() == 2 {
                seq![b64_char(x0 / 4), b64_char((x0 % 4) * 16 + x1 / 16), b64_char((x1 % 16) * 4), '=']
            } else {
                let x2 = b[2] as int;
                seq![
                    b64_char(x0 / 4),
                    b64_char((x0 % 4) * 16 + x1 / 16),
                    b64_char((x1 % 16) * 4 + x2 / 64),
                    b64_char(x2 % 64),
                ] + base64_encode(b.subrange(3, b.len() as int))
            }
        }
    }
}

proof fn lemma_b64_char_injective(n: int, m: int)
    requires
        0 <= n < 64,
        0 <= m < 64,
        b64_char(n) == b64_char(m),
    ensures
        n == m,
{
}

proof fn lemma_b64_char_not_pad(n: int)
    requires
        0 <= n < 64,
    ensures
        b64_char(n) != '=',
{
}

proof fn lemma_base64_len(b: Seq<u8>)
    ensures
        b.len() == 0 ==> base64_encode(b).len() == 0,
        b.len() > 0 ==> base64_encode(b).len() >= 4,
    decreases b.len(),
{
    if b.len() >= 3 {
        lemma_base64_len(b.subrange(3, b.len() as int));
    }
}

/// Standard base64 encoding is injective: different bytes never share an
/// encoding, so decoding an encoding gives exactly the bytes back.
pub proof fn law_base64_is_injective(a: Seq<u8>, b: Seq<u8>)
    ensures
        base64_encode(a) == base64_encode(b) ==> a == b,
    decreases a.len(),
{
    if base64_encode(a) == base64_encode(b) {
        lemma_base64_len(a);
        lemma_base64_len(b);
        let e = base64_encode(a);
        if a.len() == 0 || b.len() == 0 {
            assert(a.len() == 0 && b.len() == 0);
            assert(a =~= b);
        } else {
            let x0 = a[0] as int;
            let y0 = b[0] as int;
            assert(base64_encode(a)[0] == b64_char(x0 / 4));
            assert(base64_encode(b)[0] == b64_char(y0 / 4));
            lemma_b64_char_injective(x0 / 4, y0 / 4);
            if a.len() == 1 || b.len() == 1 {
                if a.len() >= 2 {
                    let x1 = a[1] as int;
                    lemma_b64_char_not_pad((x1 % 16) * 4 + (if a.len() >= 3 { a[2] as int / 64 } else { 0 }));
                    assert(false);
                }
                if b.len() >= 2 {
                    let y1 = b[1] as int;
                    lemma_b64_char_not_pad((y1 % 16) * 4 + (if b.len() >= 3 { b[2] as int / 64 } else { 0 }));
                    assert(false);
                }
                lemma_b64_char_injective((x0 % 4) * 16, (y0 % 4) * 16);
                assert(a =~= b);
            } else {
                let x1 = a[1] as int;
                let y1 = b[1] as int;
                assert(base64_encode(a)[1] == b64_char((x0 % 4) * 16 + x1 / 16));
                assert(base64_encode(b)[1] == b64_char((y0 % 4) * 16 + y1 / 16));
                lemma_b64_char_injective((x0 % 4) * 16 + x1 / 16, (y0 % 4) * 16 + y1 / 16);
                if a.len() == 2 || b.len() == 2 {
                    if a.len() >= 3 {
                        lemma_b64_char_not_pad(a[2] as int % 64);
                        assert(false);
                    }
                    if b.len() >= 3 {
                        lemma_b64_char_not_pad(b[2] as int % 64);
                        assert(false);
                    }
                    lemma_b64_char_injective((x1 % 16) * 4, (y1 % 16) * 4);
                    assert(a =~= b);
                } else {
                    let x2 = a[2] as int;
                    let y2 = b[2] as int;
                    assert(base64_encode(a)[2] == b64_char((x1 % 16) * 4 + x2 / 64));
                    assert(base64_encode(b)[2] == b64_char((y1 % 16) * 4 + y2 / 64));
                    assert(base64_encode(a)[3] == b64_char(x2 % 64));
                    assert(base64_encode(b)[3] == b64_char(y2 % 64));
                    lemma_b64_char_injective((x1 % 16) * 4 + x2 / 64, (y1 % 16) * 4 + y2 / 64);
                    lemma_b64_char_injective(x2 % 64, y2 % 64);
                    let ra = a.subrange(3, a.len() as int);
                    let rb = b.subrange(3, b.len() as int);
                    assert(base64_encode(ra) =~= e.subrange(4, e.len() as int));
                    assert(base64_encode(rb) =~= e.subrange(4, e.len() as int));
                    law_base64_is_injective(ra, rb);
                    assert(a[0] == b[0] && a[1] == b[1] && a[2] == b[2]);
                    assert(a =~= b) by {
                        assert forall|i: int| 0 <= i < a.len() implies a[i] == b[i] by {
                            if i >= 3 {
                                assert(a[i] == ra[i - 3]);
                                assert(b[i] == rb[i - 3]);
                            }
                        }
                    }
                }
            }
        }
    }
}

/// The text is the standard base64 encoding of some bytes.
pub open spec fn is_base64_of_some(text: Seq<char>) -> bool {
    exists|b: Seq<u8>| #[trigger] base64_encode(b) == text
}

/// `STANDARD.encode`: standard base64 with padding, as [`base64_encode`] states.
#[verifier::external_body]
fn base64_standard_encode(bytes: &[u8]) -> (r: String)
    ensures
        r@ == base64_encode(bytes@),
{
    base64::Engine::encode(&base64::engine::general_purpose::STANDARD, bytes)
}

/// `STANDARD.decode`. The engine requires canonical padding and no trailing
/// bits, so it accepts exactly the texts that `STANDARD.encode` writes: it
/// yields bytes whose encoding is the text, and fails on any other text.
#[verifier::external_body]
fn base64_standard_decode(text: &str) -> (r: Option<Vec<u8>>)
    ensures
        r matches Some(v) ==> base64_encode(v@) == text@,
        r is None ==> !is_base64_of_some(text@),
{
    match base64::Engine::decode(&base64::engine::general_purpose::STANDARD, text) {
        Ok(v) => Some(v),
        Err(_) => None,
    }
}

/// Decodes base64 image text sent by the phone.
pub fn decode_base64(s: &str) -> (r: Result<Vec<u8>, CbError>)
    ensures
        r matches Ok(v) ==> base64_encode(v@) == s@,
        r is Err <==> !is_base64_of_some(s@),
        r matches Err(e) ==> e == CbError::ConversionFailure,
        forall|b: Seq<u8>| #[trigger] base64_encode(b) == s@ ==> (r matches Ok(v) && v@ == b),
{
    match base64_standard_decode(s) {
        Some(v) => {
            proof {
                assert forall|b: Seq<u8>| #[trigger] base64_encode(b) == s@ implies v@ == b by {
                    law_base64_is_injective(v@, b);
                }
            }
            Ok(v)
        },
        None => Err(CbError::ConversionFailure),
    }
}

/// What `image::load_from_memory` followed by `to_rgba8` yields for a byte
/// buffer: width, height and RGBA pixels, or `None` when no enabled format
/// decodes it.
pub uninterp spec fn decoded_image(bytes: Seq<u8>) -> Option<(u32, u32, Seq<u8>)>;

/// Decodes an image in any enabled format (PNG, JPEG, GIF, BMP, WebP) to
/// RGBA pixels; its result is named [`decoded_image`].
#[verifier::external_body]
fn decode_image(bytes: &[u8]) -> (r: Option<(u32, u32, Vec<u8>)>)
    ensures
        r matches Some(t) ==> decoded_image(bytes@) == Some((t.0, t.1, t.2@)),
        r matches Some(t) ==> t.2@.len() == (t.0 as int) * (t.1 as int) * 4,
        r is None ==> decoded_image(bytes@) is None,
{
    match image::load_from_memory(bytes) {
        Ok(img) => Some((img.width(), img.height(), img.to_rgba8().into_raw())),
        Err(_) => None,
    }
}

/// What the PNG encoder of `image` writes for an RGBA image, or `None` when
/// it refuses the image.
pub uninterp spec fn png_encoded(w: u32, h: u32, rgba: Seq<u8>) -> Option<Seq<u8>>;

/// `PngEncoder::write_image` with 8-bit RGBA; its result is named
/// [`png_encoded`]. The encoder panics unless the buffer holds exactly
/// `w * h * 4` bytes, which `requires` demands.
#[verifier::external_body]
fn encode_png(w: u32, h: u32, rgba: &[u8]) -> (r: Option<Vec<u8>>)
    requires
        rgba@.len() == (w as int) * (h as int) * 4,
    ensures
        r matches Some(v) ==> png_encoded(w, h, rgba@) == Some(v@),
        r is None ==> png_encoded(w, h, rgba@) is None,
{
    let mut out: Vec<u8> = Vec::new();
    let encoder = image::codecs::png::PngEncoder::new(&mut out);
    match image::ImageEncoder::write_image(encoder, rgba, w, h, image::ExtendedColorType::Rgba8) {
        Ok(()) => Some(out),
        Err(_) => None,
    }
}

/// The outcome of decoding image bytes for the clipboard.
pub open spec fn rgba_decoding(bytes: Seq<u8>) -> Result<(usize, usize, Seq<u8>), CbError> {
    if bytes.len() == 0 {
        Err(CbError::ConversionFailure)
    } else {
        match decoded_image(bytes) {
            None => Err(CbError::ConversionFailure),
            Some((w, h, px)) => if w == 0 || h == 0 {
                Err(CbError::ConversionFailure)
            } else if (w as int) * (h as int) > MAX_PIXELS as int {
                Err(CbError::TooLarge)
            } else {
                Ok((w as usize, h as usize, px))
            },
        }
    }
}

/// A successful decoding gives the decoded image's width, height and
/// pixels, in that order.
pub proof fn law_decoding_keeps_dimensions(bytes: Seq<u8>)
    ensures
        rgba_decoding(bytes) matches Ok(t) ==> (decoded_image(bytes) matches Some(d)
            && t.0 == d.0 && t.1 == d.1 && t.2 == d.2),
{
}

/// Decodes image bytes of any enabled format to RGBA pixels: empty or
/// undecodable input and empty images are conversion failures, images of
/// more than [`MAX_PIXELS`] pixels are too large.
pub fn decode_bytes_to_rgba(bytes: &[u8]) -> (r: Result<(usize, usize, Vec<u8>), CbError>)
    ensures
        r matches Ok(t) ==> (rgba_decoding(bytes@) matches Ok(d) && d == (t.0, t.1, t.2@)),
        r matches Err(e) ==> (rgba_decoding(bytes@) matches Err(d) && d == e),
        r matches Ok(t) ==> (decoded_image(bytes@) matches Some(d) && t.0 == d.0 && t.1 == d.1 && t.2@ == d.2),
{
    proof {
        law_decoding_keeps_dimensions(bytes@);
    }
    if bytes.len() == 0 {
        return Err(CbError::ConversionFailure);
    }
    match decode_image(bytes) {
        None => Err(CbError::ConversionFailure),
        Some((w, h, px)) => {
            if w == 0 || h == 0 {
                return Err(CbError::ConversionFailure);
            }
            assert((w as int) * (h as int) <= 0xffff_ffff * 0xffff_ffff) by (nonlinear_arith)
                requires 0 <= w <= 0xffff_ffff, 0 <= h <= 0xffff_ffff;
            let total: u64 = (w as u64) * (h as u64);
            if total > MAX_PIXELS as u64 {
                return Err(CbError::TooLarge);
            }
            Ok((w as usize, h as usize, px))
        },
    }
}

/// The outcome of encoding RGBA pixels as base64 PNG text.
pub open spec fn png_base64(w: usize, h: usize, rgba: Seq<u8>) -> Result<Seq<char>, CbError> {
    if rgba.len() != (w as int) * (h as int) * 4 {
        Err(CbError::ConversionFailure)
    } else {
        match png_encoded(w as u32, h as u32, rgba) {
            None => Err(CbError::ConversionFailure),
            Some(png) => Ok(base64_encode(png)),
        }
    }
}

/// A successful encoding is the base64 text of the PNG written with the
/// given width as width and the given height as height.
pub proof fn law_encoding_keeps_dimensions(w: usize, h: usize, rgba: Seq<u8>)
    ensures
        png_base64(w, h, rgba) matches Ok(s) ==> (png_encoded(w as u32, h as u32, rgba) matches Some(png)
            && s == base64_encode(png)),
{
}

/// Encodes RGBA pixels as PNG and the PNG as base64 text. A buffer that is
/// not `w * h * 4` bytes long is a conversion failure.
pub fn encode_rgba_to_png_base64(w: usize, h: usize, rgba: &[u8]) -> (r: Result<String, CbError>)
    requires
        (w as int) * (h as int) * 4 <= usize::MAX,
        rgba@.len() == (w as int) * (h as int) * 4 ==> w <= u32::MAX && h <= u32::MAX,
    ensures
        r matches Ok(s) ==> (png_base64(w, h, rgba@) matches Ok(t) && t == s@),
        r matches Err(e) ==> (png_base64(w, h, rgba@) matches Err(t) && t == e),
        r matches Ok(s) ==> (png_encoded(w as u32, h as u32, rgba@) matches Some(png) && s@ == base64_encode(png)),
{
    proof {
        law_encoding_keeps_dimensions(w, h, rgba@);
    }
    assert((w as int) * (h as int) <= usize::MAX) by (nonlinear_arith)
        requires (w as int) * (h as int) * 4 <= usize::MAX, 0 <= (w as int), 0 <= (h as int);
    let expected: usize = w * h * 4;
    if rgba.len() != expected {
        return Err(CbError::ConversionFailure);
    }
    match encode_png(w as u32, h as u32, rgba) {
        None => Err(CbError::ConversionFailure),
        Some(png) => Ok(base64_standard_encode(png.as_slice())),
    }
}

/// A clipboard read: a clipboard without content of the asked format
/// (`ContentNotAvailable`) reads as nothing, which is no failure; every
/// other failure stays.
pub fn clipboard_read<T>(r: Result<T, CbError>) -> (out: Result<Option<T>, CbError>)
    ensures
        (match r {
            Ok(v) => out matches Ok(Some(w)) && w == v,
            Err(CbError::ContentNotAvailable) => out matches Ok(None),
            Err(e) => out matches Err(f) && f == e,
        }),
{
    match r {
        Ok(v) => Ok(Some(v)),
        Err(CbError::ContentNotAvailable) => Ok(None),
        Err(e) => Err(e),
    }
}

/// The clipboard image as sent to the phone: `image/png` and the base64
/// text of the PNG encoding of its RGBA pixels.
pub fn clipboard_image_payload(w: usize, h: usize, rgba: &[u8]) -> (r: Result<(String, String), CbError>)
    requires
        (w as int) * (h as int) * 4 <= usize::MAX,
        rgba@.len() == (w as int) * (h as int) * 4 ==> w <= u32::MAX && h <= u32::MAX,
    ensures
        r matches Ok(p) ==> p.0@ == "image/png"@ && (png_base64(w, h, rgba@) matches Ok(t) && t == p.1@),
        r matches Err(e) ==> (png_base64(w, h, rgba@) matches Err(t) && t == e),
{
    match encode_rgba_to_png_base64(w, h, rgba) {
        Ok(b64) => Ok(("image/png".to_owned(), b64)),
        Err(e) => Err(e),
    }
}

} // verus!
