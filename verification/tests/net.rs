use qrctrl::net::{filter_by_subnet, ipv4_to_string, is_likely_lan, is_virtual_interface, list_lan_interfaces, list_local_ipv4s, Ipv4, LanInterface};

fn ip(a: u8, b: u8, c: u8, d: u8) -> Ipv4 {
    Ipv4::new(a, b, c, d)
}

fn iface(name: &str, addr: Ipv4, mask: Ipv4) -> LanInterface {
    LanInterface { name: name.to_string(), ip: addr, netmask: mask }
}

#[test]
fn rejects_loopback() {
    assert!(!is_likely_lan(ip(127, 0, 0, 1)));
    assert!(!is_likely_lan(ip(127, 255, 255, 255)));
}

#[test]
fn rejects_link_local() {
    assert!(!is_likely_lan(ip(169, 254, 0, 1)));
    assert!(!is_likely_lan(ip(169, 254, 255, 255)));
}

#[test]
fn rejects_virtualbox_default_range() {
    assert!(!is_likely_lan(ip(192, 168, 56, 1)));
    assert!(!is_likely_lan(ip(192, 168, 57, 100)));
    assert!(!is_likely_lan(ip(192, 168, 63, 254)));
}

#[test]
fn rejects_rfc2544_benchmark_range() {
    assert!(!is_likely_lan(ip(192, 18, 0, 1)));
    assert!(!is_likely_lan(ip(192, 18, 200, 50)));
    assert!(!is_likely_lan(ip(192, 19, 255, 254)));
}

#[test]
fn rejects_rfc6815_benchmark_range() {
    assert!(!is_likely_lan(ip(198, 18, 0, 1)));
    assert!(!is_likely_lan(ip(198, 18, 200, 50)));
    assert!(!is_likely_lan(ip(198, 19, 255, 254)));
}

#[test]
fn accepts_192_168_0_outside_virtualbox_range() {
    assert!(is_likely_lan(ip(192, 168, 0, 1)));
    assert!(is_likely_lan(ip(192, 168, 1, 100)));
}

#[test]
fn accepts_normal_private_ranges() {
    assert!(is_likely_lan(ip(192, 168, 1, 1)));
    assert!(is_likely_lan(ip(192, 168, 20, 175)));
    assert!(is_likely_lan(ip(192, 168, 100, 50)));
    assert!(is_likely_lan(ip(10, 0, 0, 1)));
    assert!(is_likely_lan(ip(172, 16, 0, 1)));
}

#[test]
fn accepts_public_ips() {
    assert!(is_likely_lan(ip(8, 8, 8, 8)));
    assert!(is_likely_lan(ip(1, 1, 1, 1)));
}

#[test]
fn range_edges_of_the_filters() {
    assert!(is_likely_lan(ip(192, 168, 55, 255)));
    assert!(is_likely_lan(ip(192, 168, 64, 0)));
    assert!(is_likely_lan(ip(192, 17, 255, 255)));
    assert!(is_likely_lan(ip(192, 20, 0, 0)));
    assert!(is_likely_lan(ip(169, 253, 1, 1)));
    assert!(is_likely_lan(ip(126, 255, 255, 255)));
}

#[test]
fn filter_by_subnet_matches_prefix() {
    let ips = vec![ip(192, 168, 20, 175), ip(192, 168, 56, 1), ip(10, 0, 0, 1)];
    let filtered = filter_by_subnet(&ips, "192.168.20");
    assert_eq!(filtered, vec![ip(192, 168, 20, 175)]);
}

#[test]
fn filter_by_subnet_returns_all_when_no_match() {
    let ips = vec![ip(192, 168, 20, 175), ip(10, 0, 0, 1)];
    let filtered = filter_by_subnet(&ips, "172.16");
    assert_eq!(filtered.len(), 2);
}

#[test]
fn filter_by_subnet_empty_prefix_returns_all() {
    let ips = vec![ip(192, 168, 1, 1)];
    assert_eq!(filter_by_subnet(&ips, ""), ips);
    assert_eq!(filter_by_subnet(&ips, "   "), ips);
}

#[test]
fn filter_by_subnet_trims_and_keeps_order() {
    let ips = vec![ip(10, 0, 0, 9), ip(192, 168, 1, 2), ip(10, 0, 0, 1)];
    assert_eq!(filter_by_subnet(&ips, "  10.0. "), vec![ip(10, 0, 0, 9), ip(10, 0, 0, 1)]);
    // a text prefix: "192.168.1" also matches 192.168.10.x
    let more = vec![ip(192, 168, 10, 1), ip(192, 168, 1, 1)];
    assert_eq!(filter_by_subnet(&more, "192.168.1"), more);
}

#[test]
fn detects_wsl_vethernet_interface() {
    assert!(is_virtual_interface("vEthernet (WSL)"));
    assert!(is_virtual_interface("vEthernet (Default Switch)"));
    assert!(is_virtual_interface("vEthernet (LAN)"));
}

#[test]
fn detects_docker_vmware_interfaces() {
    assert!(is_virtual_interface("DockerNAT"));
    assert!(is_virtual_interface("VMware Network Adapter VMnet1"));
    assert!(is_virtual_interface("VirtualBox Host-Only Ethernet Adapter"));
    assert!(is_virtual_interface("docker0"));
    assert!(is_virtual_interface("br-internal_net"));
    assert!(is_virtual_interface("virbr0"));
}

#[test]
fn detects_vpn_tunnel_interfaces() {
    assert!(is_virtual_interface("OpenVPN TAP-Windows6"));
    assert!(is_virtual_interface("utun0"));
    assert!(is_virtual_interface("WireGuard Adapter"));
    assert!(is_virtual_interface("tun0"));
    assert!(is_virtual_interface("tap0"));
}

#[test]
fn keeps_real_nic_names() {
    assert!(!is_virtual_interface("以太网"));
    assert!(!is_virtual_interface("Ethernet"));
    assert!(!is_virtual_interface("Wi-Fi"));
    assert!(!is_virtual_interface("无线网络连接"));
    assert!(!is_virtual_interface("en0"));
    assert!(!is_virtual_interface("eth0"));
}

#[test]
fn dotted_text_of_addresses() {
    assert_eq!(ipv4_to_string(&ip(192, 168, 20, 175)), "192.168.20.175");
    assert_eq!(ipv4_to_string(&ip(0, 0, 0, 0)), "0.0.0.0");
    assert_eq!(ip(1, 2, 3, 4).octets(), [1, 2, 3, 4]);
}

#[test]
fn interface_prefix_network_and_cidr() {
    let i = iface("Ethernet", ip(192, 168, 20, 175), ip(255, 255, 255, 0));
    assert_eq!(i.prefix_len(), 24);
    assert_eq!(i.network(), ip(192, 168, 20, 0));
    assert_eq!(i.cidr(), "192.168.20.0/24");
    assert_eq!(i.prefer_prefix(), "192.168.20");
    let j = iface("Wi-Fi", ip(10, 1, 2, 3), ip(255, 255, 252, 0));
    assert_eq!(j.prefix_len(), 22);
    assert_eq!(j.network(), ip(10, 1, 0, 0));
    assert_eq!(j.prefer_prefix(), "10.1");
    let k = iface("x", ip(10, 1, 2, 3), ip(0, 0, 0, 0));
    assert_eq!(k.prefix_len(), 0);
    assert_eq!(k.prefer_prefix(), "10");
    let h = iface("x", ip(10, 1, 2, 3), ip(255, 255, 255, 255));
    assert_eq!(h.prefer_prefix(), "10.1.2.3");
}

#[test]
fn selection_drops_virtual_adapters_and_sorts() {
    let mask = ip(255, 255, 255, 0);
    let all = vec![
        iface("Wi-Fi", ip(192, 168, 1, 20), mask),
        iface("lo", ip(127, 0, 0, 1), mask),
        iface("vEthernet (WSL)", ip(172, 20, 0, 1), mask),
        iface("Ethernet", ip(10, 0, 0, 5), mask),
        iface("VirtualBox", ip(192, 168, 56, 1), mask),
    ];
    let chosen = list_lan_interfaces(all);
    let names: Vec<String> = chosen.iter().map(|i| i.name.clone()).collect();
    assert_eq!(names, vec!["Ethernet".to_string(), "Wi-Fi".to_string()]);
    assert_eq!(list_local_ipv4s(&chosen), vec![ip(10, 0, 0, 5), ip(192, 168, 1, 20)]);
}

#[test]
fn selection_keeps_virtual_adapters_when_nothing_else_is_left() {
    let mask = ip(255, 255, 0, 0);
    let all = vec![
        iface("docker0", ip(172, 17, 0, 1), mask),
        iface("vEthernet (WSL)", ip(172, 16, 0, 1), mask),
    ];
    let chosen = list_lan_interfaces(all);
    let addrs = list_local_ipv4s(&chosen);
    assert_eq!(addrs, vec![ip(172, 16, 0, 1), ip(172, 17, 0, 1)]);
    assert!(list_lan_interfaces(Vec::new()).is_empty());
}

#[test]
fn local_addresses_are_sorted_without_duplicates() {
    let mask = ip(255, 255, 255, 0);
    let ifaces = vec![
        iface("a", ip(192, 168, 1, 20), mask),
        iface("b", ip(10, 0, 0, 5), mask),
        iface("c", ip(192, 168, 1, 20), mask),
        iface("d", ip(10, 0, 0, 4), mask),
    ];
    assert_eq!(list_local_ipv4s(&ifaces), vec![ip(10, 0, 0, 4), ip(10, 0, 0, 5), ip(192, 168, 1, 20)]);
    assert!(list_local_ipv4s(&[]).is_empty());
}

#[test]
fn prefix_matches_every_address_of_the_subnet() {
    let i = iface("eth0", ip(192, 168, 21, 5), ip(255, 255, 252, 0));
    let p = i.prefer_prefix();
    assert_eq!(p, "192.168");
    for addr in [ip(192, 168, 20, 1), ip(192, 168, 23, 9), ip(192, 168, 21, 5)] {
        assert!(ipv4_to_string(&addr).starts_with(&p));
    }
    let c = iface("x", ip(172, 16, 5, 9), ip(255, 255, 0, 0));
    assert_eq!(c.prefer_prefix(), "172.16");
}
