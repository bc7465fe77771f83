use qrctrl::api::{
    failure_reply, interfaces_json, listing_json, ok_reply, port_check_json, roots_json, running_config_json,
    write_failure_message, RunningConfig,
};
use qrctrl::config::RootEntry;
use qrctrl::net::{Ipv4, LanInterface};

#[test]
fn save_replies() {
    assert_eq!(ok_reply(), r#"{"ok":true}"#);
    assert_eq!(failure_reply("端口不能为 0"), r#"{"error":"端口不能为 0","ok":false}"#);
    assert_eq!(write_failure_message("disk full"), "写入失败：disk full");
}

#[test]
fn running_config_reply() {
    let c = RunningConfig {
        addr: "0.0.0.0".into(),
        port: 8080,
        name: "Work \"Mac\"".into(),
        save_dir: "C:\\in".into(),
        max_size: 10,
        token: "abcd".into(),
        prefer_ip: None,
    };
    assert_eq!(
        running_config_json(&c),
        r#"{"addr":"0.0.0.0","max_size":10,"name":"Work \"Mac\"","port":8080,"prefer_ip":null,"save_dir":"C:\\in","token":"abcd"}"#
    );
    let mut d = c;
    d.prefer_ip = Some("192.168".into());
    assert!(running_config_json(&d).contains(r#""prefer_ip":"192.168""#));
}

#[test]
fn port_check_replies() {
    assert_eq!(port_check_json(true, false), r#"{"free":true,"self":true}"#);
    assert_eq!(port_check_json(false, true), r#"{"free":true}"#);
    assert_eq!(port_check_json(false, false), r#"{"free":false}"#);
}

#[test]
fn interfaces_reply() {
    let i = LanInterface {
        name: "Ethernet".into(),
        ip: Ipv4::new(192, 168, 20, 175),
        netmask: Ipv4::new(255, 255, 255, 0),
    };
    assert_eq!(
        interfaces_json(&[i]),
        r#"[{"cidr":"192.168.20.0/24","ip":"192.168.20.175","name":"Ethernet","netmask":"255.255.255.0","network":"192.168.20.0","prefer":"192.168.20","prefix_len":24}]"#
    );
    assert_eq!(interfaces_json(&[]), "[]");
}

#[test]
fn directory_listing_replies() {
    let names = vec!["a".to_string(), "b\"c".to_string()];
    assert_eq!(
        listing_json("/home/me", &Some("/home".into()), &names),
        r#"{"current":"/home/me","entries":[{"is_dir":true,"name":"a"},{"is_dir":true,"name":"b\"c"}],"parent":"/home"}"#
    );
    assert_eq!(listing_json("/", &None, &[]), r#"{"current":"/","entries":[],"parent":null}"#);
    let roots = vec![RootEntry { name: "C:".into(), path: "C:\\".into() }];
    assert_eq!(
        roots_json(&roots),
        r#"{"current":"roots","entries":[{"is_dir":true,"name":"C:","path":"C:\\"}],"is_roots":true,"parent":null}"#
    );
}
