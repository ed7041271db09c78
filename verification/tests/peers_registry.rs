use tumbleweed::dns::{build_announcement, IpAddress};
use tumbleweed::peers::{
    device_host_name, device_hostname, display_name, ipv4_to_string, lan_ipv4, local_ip_addrs,
    local_ipv4_addrs, needs_info, sanitize_label, AnnounceTimer, DiscoveredDevice, PeerRegistry,
    SnapshotLog, ANNOUNCE_INTERVAL_MS, PEER_TTL_MS,
};

#[test]
fn labels_are_sanitized() {
    assert_eq!(sanitize_label("DESKTOP-ABC123").as_deref(), Some("desktop-abc123"));
    assert_eq!(sanitize_label("  My PC!! ").as_deref(), Some("my-pc"));
    assert_eq!(sanitize_label("---"), None);
    assert_eq!(sanitize_label(""), None);
    assert_eq!(sanitize_label("é").as_deref(), None);
    let long = "a".repeat(100);
    assert_eq!(sanitize_label(&long).unwrap().len(), 63);
}

#[test]
fn host_names() {
    assert_eq!(device_host_name("DESKTOP-ABC123"), "desktop-abc123");
    assert_eq!(device_host_name(""), "host");
    assert_eq!(device_hostname("Laptop"), "tumbleweed-laptop.local");
    assert_eq!(device_hostname("***"), "tumbleweed-host.local");
}

#[test]
fn display_names_drop_prefix_and_suffixes() {
    assert_eq!(display_name("tumbleweed-oneplus-8t._tumbleweed._tcp.local"), "oneplus-8t");
    assert_eq!(display_name("tumbleweed-pc._tcp.local"), "pc");
    assert_eq!(display_name("phone.local."), "phone.local");
    assert_eq!(display_name("phone.local"), "phone");
    assert_eq!(display_name("plain"), "plain");
}

#[test]
fn local_addresses_skip_unusable_and_repeats() {
    let probes = [Some([0, 0, 0, 0]), Some([127, 0, 0, 1]), Some([192, 168, 1, 20]), None, Some([192, 168, 1, 20]), Some([10, 0, 0, 3])];
    assert_eq!(local_ipv4_addrs(&probes), vec![[192, 168, 1, 20], [10, 0, 0, 3]]);
    assert_eq!(lan_ipv4(&probes), Some([192, 168, 1, 20]));
    assert_eq!(lan_ipv4(&[None, Some([127, 1, 1, 1])]), None);
    assert_eq!(local_ip_addrs(&probes), vec!["192.168.1.20".to_string(), "10.0.0.3".to_string()]);
    assert_eq!(ipv4_to_string([255, 0, 10, 1]), "255.0.10.1");
}

fn phone_packet() -> Vec<u8> {
    build_announcement("tumbleweed-phone.local", 2222, &[[192, 168, 1, 50], [10, 0, 0, 7]], "pc", "0.3.1")
}

#[test]
fn registry_records_peers_but_not_ourselves() {
    let mut reg = PeerRegistry::new();
    reg.record_peer_packet(&phone_packet(), &[[10, 0, 0, 7]], 1_000);
    let snap = reg.snapshot();
    assert_eq!(snap.len(), 1);
    assert_eq!(snap[0].name, "phone");
    assert_eq!(snap[0].ip, IpAddress::V4([192, 168, 1, 50]));
    assert_eq!(snap[0].kind, "");
    assert!(needs_info(&snap[0]));

    reg.set_info(&IpAddress::V4([192, 168, 1, 50]), "phone", "2.0");
    reg.record_peer_packet(&phone_packet(), &[[10, 0, 0, 7]], 5_000);
    let snap = reg.snapshot();
    assert_eq!(snap.len(), 1);
    assert_eq!(snap[0].kind, "phone");
    assert_eq!(snap[0].version, "2.0");
    assert!(!needs_info(&snap[0]));
}

#[test]
fn registry_drops_stale_peers() {
    let mut reg = PeerRegistry::new();
    reg.record_peer_packet(&phone_packet(), &[], 1_000);
    assert_eq!(reg.snapshot().len(), 2);
    let other = build_announcement("tumbleweed-pc2.local", 2222, &[[192, 168, 1, 60]], "pc", "0.3.1");
    reg.record_peer_packet(&other, &[], 1_000 + PEER_TTL_MS);
    let snap = reg.snapshot();
    assert_eq!(snap.len(), 1);
    assert_eq!(snap[0].name, "pc2");
    reg.record_peer_packet(&[0u8; 3], &[], 10_000_000);
    assert_eq!(reg.snapshot().len(), 1);
}

#[test]
fn announce_timer_fires_every_interval() {
    let mut t = AnnounceTimer::new(100);
    assert!(!t.due(100 + ANNOUNCE_INTERVAL_MS - 1));
    assert!(t.due(100 + ANNOUNCE_INTERVAL_MS));
    assert!(!t.due(100 + ANNOUNCE_INTERVAL_MS + 1));
    assert!(!t.due(50));
}

#[test]
fn snapshot_log_reports_changes_only() {
    let d = DiscoveredDevice { name: "a".into(), ip: IpAddress::V4([1, 2, 3, 4]), kind: "pc".into(), version: "1".into() };
    let mut log = SnapshotLog::new();
    assert!(log.changed(&vec![]));
    assert!(!log.changed(&vec![]));
    assert!(log.changed(&vec![d.clone()]));
    assert!(!log.changed(&vec![d.clone()]));
    let mut e = d.clone();
    e.version = "2".into();
    assert!(log.changed(&vec![e]));
}

#[test]
fn long_names_give_valid_labels() {
    let cut = format!("{}-b", "a".repeat(62));
    assert_eq!(sanitize_label(&cut), Some("a".repeat(62)));
    let padded = format!("{}{}", "-".repeat(10), "a".repeat(60));
    assert_eq!(sanitize_label(&padded), Some("a".repeat(60)));
    let long = "x".repeat(100);
    assert_eq!(sanitize_label(&long), Some("x".repeat(63)));
}

#[test]
fn our_own_announcement_adds_nothing() {
    let own = [[192, 168, 1, 20], [10, 0, 0, 3]];
    let mut reg = PeerRegistry::new();
    reg.record_peer_packet(&build_announcement("tumbleweed-me.local", 2222, &own, "pc", "0.3.1"), &own, 1_000);
    assert!(reg.snapshot().is_empty());
    reg.record_peer_packet(&phone_packet(), &own, 2_000);
    let names: Vec<String> = reg.snapshot().iter().map(|d| d.name.clone()).collect();
    assert_eq!(names, vec!["phone".to_string(), "phone".to_string()]);
}
