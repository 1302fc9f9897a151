use wmde_settings::hardware::network::{
    classify, parse_speed, parse_state, probe, read_interface, sort_rank, IfAddr,
    InterfaceSource, NamedAddr,
};
use wmde_settings::hardware::util::Attr;
use wmde_settings::hardware::{IfKind, IfState};

/// name, `type`, `wireless/`, `bridge/`, `device/`, virtual path, expected kind.
type Case = (&'static str, Option<u32>, bool, bool, bool, bool, IfKind);

#[test]
fn classification_decision_table() {
    let cases: &[Case] = &[
        ("lo", Some(772), false, false, false, true, IfKind::Loopback),
        ("wlan0", Some(1), true, false, true, false, IfKind::Wireless),
        ("eno1", Some(1), false, false, true, false, IfKind::Wired),
        ("br0", Some(1), false, true, false, true, IfKind::Bridge),
        ("docker0", Some(1), false, true, false, true, IfKind::Bridge),
        ("veth0474ffe", Some(1), false, false, false, true, IfKind::Virtual),
        ("vboxnet0", Some(1), false, false, false, true, IfKind::Virtual),
        ("wg0", Some(65534), false, false, false, true, IfKind::Tunnel),
        ("tun0", Some(65534), false, false, false, true, IfKind::Tunnel),
        ("ppp0", Some(512), false, false, false, true, IfKind::Tunnel),
        ("sit0", Some(776), false, false, false, true, IfKind::Tunnel),
        ("ip6tnl0", Some(769), false, false, false, true, IfKind::Tunnel),
        ("weird0", None, false, false, false, false, IfKind::Other),
    ];

    for &(name, ty, wireless, bridge, device, virt, expected) in cases {
        let got = classify(name, ty, wireless, bridge, device, virt);
        assert_eq!(got, expected, "{name}");
    }
}

#[test]
fn bridge_beats_wired_when_both_markers_exist() {
    assert_eq!(
        classify("br0", Some(1), false, true, true, true),
        IfKind::Bridge
    );
}

#[test]
fn negative_speed_is_dropped_not_misparsed() {
    assert_eq!(parse_speed(Some(-1)), None);
    assert_eq!(parse_speed(Some(1000)), Some(1000));
    assert_eq!(parse_speed(Some(0)), Some(0));
    assert_eq!(parse_speed(None), None);
    assert_eq!(parse_speed(Some(100_000)), Some(100_000));
    assert_eq!(parse_speed(Some(i64::from(u32::MAX) + 1)), None);
}

#[test]
fn operstate_mapping() {
    assert_eq!(parse_state(Some("up")), IfState::Up);
    assert_eq!(parse_state(Some("down")), IfState::Down);
    assert_eq!(parse_state(Some("lowerlayerdown")), IfState::Down);
    assert_eq!(parse_state(Some("dormant")), IfState::Dormant);
    assert_eq!(parse_state(Some("unknown")), IfState::Unknown);
    assert_eq!(parse_state(None), IfState::Unknown);
}

#[test]
fn sort_groups_physical_then_loopback_then_virtual() {
    assert!(sort_rank(IfKind::Wired) < sort_rank(IfKind::Loopback));
    assert!(sort_rank(IfKind::Wireless) < sort_rank(IfKind::Loopback));
    assert!(sort_rank(IfKind::Loopback) < sort_rank(IfKind::Bridge));
    assert_eq!(sort_rank(IfKind::Tunnel), sort_rank(IfKind::Virtual));
}

fn text(s: &str) -> Attr {
    Attr::Text(s.to_string())
}

fn iface(name: &str, if_type: &str, device: bool, bridge: bool, virt: bool) -> InterfaceSource {
    InterfaceSource {
        name: name.to_string(),
        if_type: text(if_type),
        wireless: false,
        bridge,
        device,
        virtual_path: virt,
        address: text("aa:bb:cc:dd:ee:ff\n"),
        operstate: text("up\n"),
        speed: text("1000\n"),
        duplex: text("unknown\n"),
        mtu: text("1500\n"),
        driver: None,
    }
}

#[test]
fn an_interface_reads_its_attributes_and_sorts_its_addresses() {
    let src = iface("eno1", "1\n", true, false, false);
    let addrs = vec![
        NamedAddr { name: "eno1".to_string(), addr: IfAddr::V4(0xC0A8_0102) },
        NamedAddr { name: "lo".to_string(), addr: IfAddr::V4(0x7F00_0001) },
        NamedAddr { name: "eno1".to_string(), addr: IfAddr::V4(0x0A00_0001) },
        NamedAddr { name: "eno1".to_string(), addr: IfAddr::V6(1) },
    ];
    let i = read_interface(&src, &addrs);
    assert_eq!(i.name, "eno1");
    assert_eq!(i.kind, IfKind::Wired);
    assert_eq!(i.state, IfState::Up);
    assert_eq!(i.mac.as_deref(), Some("aa:bb:cc:dd:ee:ff"));
    assert_eq!(i.speed_mbps, Some(1000));
    // "unknown" duplex says nothing, so it is left out.
    assert_eq!(i.duplex, None);
    assert_eq!(i.mtu, Some(1500));
    assert_eq!(i.ipv4, vec![0x0A00_0001, 0xC0A8_0102]);
    assert_eq!(i.ipv6, vec![1u128]);
    assert!(!i.is_virtual());
}

#[test]
fn probe_lists_physical_then_loopback_then_virtual_by_name() {
    let srcs = vec![
        iface("veth1", "1\n", false, false, true),
        iface("lo", "772\n", false, false, true),
        iface("wlp2s0", "1\n", true, false, false),
        iface("br0", "1\n", false, true, true),
        iface("eno1", "1\n", true, false, false),
    ];
    let out = probe(&srcs, &Vec::new());
    let names: Vec<&str> = out.iter().map(|i| i.name.as_str()).collect();
    assert_eq!(names, vec!["eno1", "wlp2s0", "lo", "br0", "veth1"]);
    assert!(out[3].is_virtual());
    assert!(out[4].is_virtual());
    assert!(!out[2].is_virtual());
}
