use tumbleweed::devices::{ips_caption, kind_icon, online_label, partition_paired, shown_version, version_tag};

#[test]
fn card_texts() {
    assert_eq!(kind_icon("phone"), "\u{E8EA}");
    assert_eq!(kind_icon("pc"), "\u{E977}");
    assert_eq!(kind_icon(""), "\u{E977}");
    assert_eq!(shown_version(""), "unknown");
    assert_eq!(shown_version("1.0"), "1.0");
    assert_eq!(version_tag("1.0"), "v1.0");
    assert_eq!(online_label(true), "\u{25CF} Online");
    assert_eq!(online_label(false), "\u{25CF} Offline");
    assert_eq!(ips_caption(&vec![]), "");
    assert_eq!(ips_caption(&vec!["10.0.0.1".to_string(), "10.0.0.2".to_string()]), "10.0.0.1, 10.0.0.2");
}

#[test]
fn paired_devices_are_not_new() {
    let ips = vec!["10.0.0.1".to_string(), "10.0.0.2".to_string(), "10.0.0.3".to_string()];
    let paired = vec!["10.0.0.3".to_string(), "10.0.0.1".to_string(), "9.9.9.9".to_string()];
    let (p, n) = partition_paired(&ips, &paired);
    assert_eq!(p, vec![0, 2]);
    assert_eq!(n, vec![1]);
    let (p, n) = partition_paired(&ips, &vec![]);
    assert!(p.is_empty());
    assert_eq!(n, vec![0, 1, 2]);
}
