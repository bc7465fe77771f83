use qrctrl::backend::shortcut_outcome;
use qrctrl::state::{authorize, TokenQuery};

#[test]
fn only_the_server_token_is_let_in() {
    assert!(authorize(Some(TokenQuery { t: "abcd".into() }), "abcd").is_some());
    assert!(authorize(Some(TokenQuery { t: "abce".into() }), "abcd").is_none());
    assert!(authorize(Some(TokenQuery { t: String::new() }), "abcd").is_none());
    assert!(authorize(None, "abcd").is_none());
}

#[test]
fn shortcut_failures_report_the_first_step() {
    assert_eq!(shortcut_outcome(Ok(()), Ok(())), Ok(()));
    assert_eq!(shortcut_outcome(Err("p".into()), Err("c".into())), Err("modifier press error: p".to_string()));
    assert_eq!(shortcut_outcome(Ok(()), Err("c".into())), Err("key click error: c".to_string()));
}
