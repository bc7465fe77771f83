use qrctrl::net::Ipv4;
use qrctrl::startup::{
    other_urls, port_candidates, ports_taken_message, probe_after, probe_attempts, probe_failure_message, resolve_name,
    resolve_save_dir, ProbeStep,
    resolve_token, scan_url, token_in_url, DEFAULT_ADDR, DEFAULT_MAX_SIZE, DEFAULT_PORT,
};

#[test]
fn command_line_token_wins_and_is_checked() {
    let r = resolve_token(Some("abcd1234".into()), Some("zzzz".into()));
    assert_eq!(r.ok().as_deref(), Some("abcd1234"));
    let bad = resolve_token(Some("ab".into()), Some("zzzz".into()));
    assert_eq!(bad.err().as_deref(), Some("--token 无效：token 至少 4 个字符"));
}

#[test]
fn file_token_is_used_when_none_is_given() {
    let r = resolve_token(None, Some("fromfile".into()));
    assert_eq!(r.ok().as_deref(), Some("fromfile"));
    let bad = resolve_token(None, Some("bad-token".into()));
    assert_eq!(bad.err().as_deref(), Some("config.toml token 无效：token 只能包含 ASCII 字母和数字"));
}

#[test]
fn random_token_when_none_is_configured() {
    let t = resolve_token(None, None).ok().expect("always succeeds");
    assert_eq!(t.len(), 16);
    assert!(t.chars().all(|c| c.is_ascii_hexdigit() && !c.is_ascii_uppercase()));
}

#[test]
fn device_name_fallbacks() {
    assert_eq!(resolve_name(Some("Work Mac".into()), Some("host".into())), "Work Mac");
    assert_eq!(resolve_name(Some("   ".into()), Some("host".into())), "host");
    assert_eq!(resolve_name(None, Some("host".into())), "host");
    assert_eq!(resolve_name(Some("".into()), None), "qrctrl");
    assert_eq!(resolve_name(None, None), "qrctrl");
}

#[test]
fn save_dir_given_or_default() {
    assert_eq!(resolve_save_dir(Some("D:\\Share".into()), Some("C:\\Users\\me\\Downloads".into()), '\\'), "D:\\Share");
    assert_eq!(resolve_save_dir(Some(String::new()), Some("/home/me/Downloads".into()), '/'), "/home/me/Downloads/qrctrl");
    assert_eq!(resolve_save_dir(None, Some("/home/me/Downloads/".into()), '/'), "/home/me/Downloads/qrctrl");
    assert_eq!(resolve_save_dir(None, Some("C:\\Users\\me\\Downloads".into()), '\\'), "C:\\Users\\me\\Downloads\\qrctrl");
    assert_eq!(resolve_save_dir(None, None, '/'), "./qrctrl");
    // resolving again from the chosen directory keeps it
    let once = resolve_save_dir(None, Some("/dl".into()), '/');
    assert_eq!(resolve_save_dir(Some(once.clone()), Some("/dl".into()), '/'), once);
}

#[test]
fn probing_steps() {
    let c = [8080u16, 8081, 8082];
    assert!(matches!(probe_after(&c, 1, 0, 1, true), ProbeStep::Chosen(8081)));
    assert!(matches!(probe_after(&c, 1, 0, 1, false), ProbeStep::Try { round: 0, index: 2 }));
    assert!(matches!(probe_after(&c, 20, 3, 2, false), ProbeStep::PauseThenTry { round: 4 }));
    assert!(matches!(probe_after(&c, 20, 19, 2, false), ProbeStep::Exhausted));
    assert_eq!(
        probe_failure_message("0.0.0.0", Some(9000), "in use"),
        "端口 0.0.0.0:9000 绑定失败（被占用或权限不足）：in use"
    );
    assert_eq!(probe_failure_message("::", None, "x"), ports_taken_message("::"));
}

#[test]
fn ports_tried_in_order() {
    assert_eq!(port_candidates(Some(9000)), vec![9000]);
    let all = port_candidates(None);
    assert_eq!(all.len(), 50);
    assert_eq!(all[0], DEFAULT_PORT);
    assert_eq!(all[49], 8129);
    assert!(all.windows(2).all(|w| w[1] == w[0] + 1));
    assert_eq!(probe_attempts(true), 20);
    assert_eq!(probe_attempts(false), 1);
    assert_eq!(ports_taken_message("0.0.0.0"), "端口范围 0.0.0.0:8080-8129 全部被占用，请用 --port 指定其他端口");
}

#[test]
fn defaults() {
    assert_eq!(DEFAULT_MAX_SIZE, 10 * 1024 * 1024 * 1024);
    assert_eq!(DEFAULT_ADDR, "0.0.0.0");
    assert_eq!(DEFAULT_PORT, 8080);
}

#[test]
fn scan_urls() {
    assert_eq!(scan_url(Some(Ipv4::new(192, 168, 1, 20)), 8080, "abcd"), "http://192.168.1.20:8080/?t=abcd");
    assert_eq!(scan_url(None, 9000, "t0k3n"), "http://localhost:9000/?t=t0k3n");
    let ips = vec![Ipv4::new(10, 0, 0, 1), Ipv4::new(10, 0, 0, 2), Ipv4::new(172, 16, 0, 9)];
    assert_eq!(
        other_urls(&ips, 80, "x"),
        vec!["http://10.0.0.2:80/?t=x".to_string(), "http://172.16.0.9:80/?t=x".to_string()]
    );
    assert!(other_urls(&ips[..1], 80, "x").is_empty());
    assert!(other_urls(&[], 80, "x").is_empty());
}

#[test]
fn token_part_of_a_url() {
    assert_eq!(token_in_url("http://10.0.0.1:8080/?t=abcd"), "abcd");
    assert_eq!(token_in_url("http://t=1/?t=zz"), "zz");
    assert_eq!(token_in_url("http://host/"), "");
    assert_eq!(token_in_url("t="), "");
}

#[test]
fn banner_and_tray_reuse_the_scan_token() {
    let token = qrctrl::token::generate_token();
    let url = scan_url(Some(Ipv4::new(192, 168, 3, 4)), 8123, &token);
    assert_eq!(token_in_url(&url), token);
    assert_eq!(qrctrl::tray::config_page_url(&url), format!("http://192.168.3.4:8123/config?t={}", token));
    let local = scan_url(None, 80, "Zz09");
    assert_eq!(qrctrl::tray::config_page_url(&local), "http://localhost:80/config?t=Zz09");
}
