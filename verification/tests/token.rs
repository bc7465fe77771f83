use qrctrl::token::{generate_token, hex_token, validate_token, MAX_TOKEN_LEN, MIN_TOKEN_LEN};

#[test]
fn generated_token_is_hex_and_16_chars() {
    let t = generate_token();
    assert_eq!(t.len(), 16);
    assert!(t.chars().all(|c| c.is_ascii_hexdigit()));
}

#[test]
fn generated_tokens_are_unique() {
    let a = generate_token();
    let b = generate_token();
    assert_ne!(a, b);
}

#[test]
fn validate_accepts_min_length() {
    assert!(validate_token("abcd").is_ok());
}

#[test]
fn validate_accepts_max_length() {
    let t = "a".repeat(MAX_TOKEN_LEN);
    assert!(validate_token(&t).is_ok());
}

#[test]
fn validate_rejects_too_short() {
    assert!(validate_token("abc").is_err());
}

#[test]
fn validate_rejects_too_long() {
    let t = "a".repeat(MAX_TOKEN_LEN + 1);
    assert!(validate_token(&t).is_err());
}

#[test]
fn validate_rejects_non_alphanumeric() {
    assert!(validate_token("ab-cd").is_err());
    assert!(validate_token("ab_cd").is_err());
    assert!(validate_token("ab.cd").is_err());
    assert!(validate_token("ab cd").is_err());
}

#[test]
fn validate_rejects_non_ascii() {
    assert!(validate_token("你好你好").is_err());
}

#[test]
fn validate_accepts_mixed_case_and_digits() {
    assert!(validate_token("AbCd1234").is_ok());
    assert!(validate_token("0123456789").is_ok());
    assert!(validate_token("XYZxyz").is_ok());
}

#[test]
fn token_length_bounds() {
    assert_eq!(MIN_TOKEN_LEN, 4);
    assert_eq!(MAX_TOKEN_LEN, 64);
}

#[test]
fn generated_token_passes_validation() {
    for _ in 0..20 {
        let t = generate_token();
        assert!(validate_token(&t).is_ok());
        assert!(t.chars().all(|c| c.is_ascii_digit() || ('a'..='f').contains(&c)));
    }
}

#[test]
fn hex_token_encodes_each_byte_as_two_lower_digits() {
    assert_eq!(hex_token(&[0x00, 0x0f, 0xab, 0xff]), "000fabff");
    assert_eq!(hex_token(&[]), "");
}

#[test]
fn validate_reports_the_reason() {
    assert_eq!(validate_token("abc").err().as_deref(), Some("token 至少 4 个字符"));
    let long = "a".repeat(65);
    assert_eq!(validate_token(&long).err().as_deref(), Some("token 至多 64 个字符"));
    assert_eq!(validate_token("ab-cd").err().as_deref(), Some("token 只能包含 ASCII 字母和数字"));
    // length is counted in UTF-8 bytes: two CJK characters are six bytes
    assert_eq!(validate_token("你好").err().as_deref(), Some("token 只能包含 ASCII 字母和数字"));
    assert_eq!(validate_token("é").err().as_deref(), Some("token 至少 4 个字符"));
}
