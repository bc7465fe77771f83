use base64::Engine;
use qrctrl::backend::BackendError;
use qrctrl::clipboard::{
    clipboard_image_payload, clipboard_read, decode_base64, decode_bytes_to_rgba, encode_rgba_to_png_base64,
    error_code, CbError, MAX_IMG_B64, MAX_PIXELS,
};

fn sample_rgba() -> (usize, usize, Vec<u8>) {
    let rgba = vec![
        255, 0, 0, 255,
        0, 255, 0, 255,
        0, 0, 255, 255,
        255, 255, 255, 255,
    ];
    (2, 2, rgba)
}

const RED_DOT_PNG: [u8; 69] = [
    0x89, 0x50, 0x4e, 0x47, 0x0d, 0x0a, 0x1a, 0x0a,
    0x00, 0x00, 0x00, 0x0d, 0x49, 0x48, 0x44, 0x52,
    0x00, 0x00, 0x00, 0x01, 0x00, 0x00, 0x00, 0x01,
    0x08, 0x02, 0x00, 0x00, 0x00, 0x90, 0x77, 0x53,
    0xde, 0x00, 0x00, 0x00, 0x0c, 0x49, 0x44, 0x41,
    0x54, 0x08, 0xd7, 0x63, 0xf8, 0xff, 0xff, 0x3f,
    0x00, 0x05, 0xfe, 0x02, 0xfe, 0xdc, 0xcc, 0x59,
    0xe7, 0x00, 0x00, 0x00, 0x00, 0x49, 0x45, 0x4e,
    0x44, 0xae, 0x42, 0x60, 0x82,
];

#[test]
fn decode_empty_bytes_returns_conversion_failure() {
    let r = decode_bytes_to_rgba(&[]);
    assert!(matches!(r, Err(CbError::ConversionFailure)));
}

#[test]
fn decode_corrupt_bytes_returns_conversion_failure() {
    let r = decode_bytes_to_rgba(&[0xff, 0xff, 0xff, 0xff, 0xff]);
    assert!(matches!(r, Err(CbError::ConversionFailure)));
}

#[test]
fn encode_then_decode_roundtrip() {
    let (w, h, rgba) = sample_rgba();
    let b64 = encode_rgba_to_png_base64(w, h, &rgba).expect("encode ok");
    let bytes = base64::engine::general_purpose::STANDARD.decode(&b64).expect("base64 decode");
    let (w2, h2, rgba2) = decode_bytes_to_rgba(&bytes).expect("decode ok");
    assert_eq!((w2, h2), (w, h));
    assert_eq!(rgba2, rgba);
}

#[test]
fn encode_wrong_byte_count_returns_conversion_failure() {
    let r = encode_rgba_to_png_base64(2, 2, &[0; 8]);
    assert!(matches!(r, Err(CbError::ConversionFailure)));
}

#[test]
fn decode_png_bytes_succeeds() {
    let (w, h, rgba) = decode_bytes_to_rgba(&RED_DOT_PNG).expect("decode ok");
    assert_eq!((w, h), (1, 1));
    assert_eq!(rgba.len(), 4);
}

#[test]
fn max_img_b64_is_about_10mb() {
    assert_eq!(MAX_IMG_B64, 10_000_000);
}

#[test]
fn error_code_mapping() {
    assert_eq!(error_code(&CbError::ContentNotAvailable), "empty");
    assert_eq!(error_code(&CbError::ClipboardOccupied), "clipboard_busy");
    assert_eq!(error_code(&CbError::ConversionFailure), "decode_failed");
    assert_eq!(error_code(&CbError::TooLarge), "too_large");
    assert_eq!(error_code(&CbError::Unknown("x".into())), "internal");
}

#[test]
fn decode_base64_invalid_returns_conversion_failure() {
    let r = decode_base64("!!!not base64!!!");
    assert!(matches!(r, Err(CbError::ConversionFailure)));
}

#[test]
fn decode_base64_valid_gives_the_bytes() {
    assert_eq!(decode_base64("aGk=").ok(), Some(b"hi".to_vec()));
    assert_eq!(decode_base64("").ok(), Some(Vec::new()));
}

#[test]
fn encoded_png_decodes_with_the_same_pixels() {
    let b64 = encode_rgba_to_png_base64(1, 1, &[1, 2, 3, 4]).expect("encode ok");
    assert!(b64.starts_with("iVBORw0KGgo"));
    let bytes = decode_base64(&b64).ok().expect("base64 ok");
    let (w, h, px) = decode_bytes_to_rgba(&bytes).ok().expect("decode ok");
    assert_eq!((w, h, px), (1, 1, vec![1, 2, 3, 4]));
}

#[test]
fn max_pixels_is_forty_million() {
    assert_eq!(MAX_PIXELS, 40_000_000);
}

#[test]
fn clipboard_read_treats_missing_content_as_nothing() {
    assert!(matches!(clipboard_read::<u8>(Ok(7)), Ok(Some(7))));
    assert!(matches!(clipboard_read::<u8>(Err(CbError::ContentNotAvailable)), Ok(None)));
    assert!(matches!(clipboard_read::<u8>(Err(CbError::ClipboardOccupied)), Err(CbError::ClipboardOccupied)));
    assert!(matches!(clipboard_read::<u8>(Err(CbError::Unknown("x".into()))), Err(CbError::Unknown(_))));
}

#[test]
fn clipboard_image_payload_is_png_base64() {
    let (w, h, rgba) = sample_rgba();
    let (mime, data) = clipboard_image_payload(w, h, &rgba).ok().expect("payload");
    assert_eq!(mime, "image/png");
    assert_eq!(Some(data), encode_rgba_to_png_base64(w, h, &rgba).ok());
    assert!(matches!(clipboard_image_payload(3, 1, &rgba), Err(CbError::ConversionFailure)));
}

#[test]
fn backend_error_codes() {
    assert_eq!(BackendError::Inject("boom".into()).error_code(), "inject_failed");
    assert_eq!(BackendError::Clipboard(CbError::TooLarge).error_code(), "too_large");
}

#[test]
fn clipboard_failures_in_words() {
    assert_eq!(CbError::ContentNotAvailable.message(), "content not available");
    assert_eq!(CbError::ClipboardOccupied.message(), "clipboard occupied");
    assert_eq!(CbError::ConversionFailure.message(), "conversion failure");
    assert_eq!(CbError::TooLarge.message(), "too large");
    assert_eq!(CbError::Unknown("x".into()).message(), "unknown: x");
}

#[test]
fn base64_text_decodes_back_to_its_bytes() {
    for bytes in [vec![], vec![0u8], vec![1, 2], vec![255, 254, 253], vec![0, 1, 2, 3, 4, 5, 6]] {
        let text = base64::engine::general_purpose::STANDARD.encode(&bytes);
        assert_eq!(decode_base64(&text).ok(), Some(bytes));
    }
    // not canonical: a trailing bit set, or missing padding
    assert!(decode_base64("aGl=").is_err());
    assert!(decode_base64("aGk").is_err());
}
