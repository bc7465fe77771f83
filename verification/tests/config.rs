use qrctrl::config::{
    backup_extension, bind_address, display_path, drive_roots, list_dir_target, merge_config, port_check, unix_roots,
    validate, visible_directories, CheckPortQuery, Config, ListDirTarget, PortCheck, ONE_TB,
};

fn cfg() -> Config {
    Config::empty()
}

#[test]
fn empty_config_is_valid() {
    assert!(validate(&cfg()).is_ok());
}

#[test]
fn each_refusal_has_its_message() {
    let mut c = cfg();
    c.port = Some(0);
    assert_eq!(validate(&c).err().as_deref(), Some("端口不能为 0"));
    let mut c = cfg();
    c.addr = Some("  ".into());
    assert_eq!(validate(&c).err().as_deref(), Some("监听地址不能为空"));
    let mut c = cfg();
    c.max_size = Some(0);
    assert_eq!(validate(&c).err().as_deref(), Some("单文件上限必须大于 0"));
    let mut c = cfg();
    c.max_size = Some(ONE_TB + 1);
    assert_eq!(validate(&c).err().as_deref(), Some("单文件上限不能超过 1 TB"));
    let mut c = cfg();
    c.token = Some("a b".into());
    assert_eq!(validate(&c).err().as_deref(), Some("token 不合法：token 至少 4 个字符"));
}

#[test]
fn first_refusal_in_field_order_wins() {
    let mut c = cfg();
    c.port = Some(0);
    c.max_size = Some(0);
    assert_eq!(validate(&c).err().as_deref(), Some("端口不能为 0"));
    let mut ok = cfg();
    ok.port = Some(1);
    ok.addr = Some("127.0.0.1".into());
    ok.max_size = Some(ONE_TB);
    ok.token = Some("abcd".into());
    assert!(validate(&ok).is_ok());
}

#[test]
fn command_line_wins_over_file() {
    let mut cli = cfg();
    cli.port = Some(9000);
    let mut file = cfg();
    file.port = Some(8000);
    file.name = Some("desk".into());
    let m = merge_config(cli, file);
    assert_eq!(m.port, Some(9000));
    assert_eq!(m.name.as_deref(), Some("desk"));
    assert_eq!(m.addr, None);
}

#[test]
fn list_dir_targets() {
    assert!(matches!(list_dir_target(Some("roots".into())), ListDirTarget::Roots));
    assert!(matches!(list_dir_target(None), ListDirTarget::Home));
    assert!(matches!(list_dir_target(Some(" ".into())), ListDirTarget::Home));
    assert!(matches!(list_dir_target(Some("/tmp".into())), ListDirTarget::Path(p) if p == "/tmp"));
}

#[test]
fn only_visible_directories_are_listed() {
    let entries = vec![
        ("docs".to_string(), true),
        (".git".to_string(), true),
        ("a.txt".to_string(), false),
        ("photos".to_string(), true),
    ];
    assert_eq!(visible_directories(entries), vec!["docs".to_string(), "photos".to_string()]);
}

#[test]
fn verbatim_prefixes_are_stripped() {
    assert_eq!(display_path(r"\\?\D:\foo"), r"D:\foo");
    assert_eq!(display_path(r"\\?\UNC\server\share"), r"\\server\share");
    assert_eq!(display_path("/home/me"), "/home/me");
}

#[test]
fn port_check_of_own_port_needs_no_probe() {
    let q = CheckPortQuery { t: "tok".into(), addr: "0.0.0.0".into(), port: 8080 };
    assert!(matches!(port_check(&q, 8080), PortCheck::Own));
    assert!(matches!(port_check(&q, 9000), PortCheck::Probe(b) if b == "0.0.0.0:8080"));
    assert_eq!(bind_address("127.0.0.1", 65535), "127.0.0.1:65535");
}

#[test]
fn broken_config_backup_name() {
    assert_eq!(backup_extension(1700000000), "toml.bad-1700000000");
    assert_eq!(backup_extension(0), "toml.bad-0");
}

#[test]
fn drive_listing_is_split_into_roots() {
    let roots = drive_roots("C:\\\0D:\\\0\0");
    let got: Vec<(String, String)> = roots.into_iter().map(|e| (e.name, e.path)).collect();
    assert_eq!(got, vec![("C:".to_string(), "C:\\".to_string()), ("D:".to_string(), "D:\\".to_string())]);
    assert!(drive_roots("").is_empty());
    let tail: Vec<String> = drive_roots("E:\\").into_iter().map(|e| e.name).collect();
    assert_eq!(tail, vec!["E:".to_string()]);
    let u = unix_roots();
    assert_eq!(u.len(), 1);
    assert_eq!((u[0].name.as_str(), u[0].path.as_str()), ("/", "/"));
}
