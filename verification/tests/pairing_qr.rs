use tumbleweed::pairing::{
    build_pairing_info, keygen_args, pairing_caption, pairing_meta, pairing_name_of,
    pairing_payload_text, PairingInfo, QrFailure,
};

const PROBES: [Option<[u8; 4]>; 2] = [Some([127, 0, 0, 1]), Some([192, 168, 1, 20])];

#[test]
fn names_and_payload() {
    assert_eq!(pairing_name_of("tumbleweed-desktop-1.local"), "desktop-1");
    assert_eq!(pairing_name_of("box.local.local"), "box");
    assert_eq!(pairing_name_of("plain"), "plain");
    assert_eq!(
        pairing_payload_text("ssh-ed25519 AAAA x", "192.168.1.20", "0.1.0", "desk", "tok123"),
        "{\"pk\":\"ssh-ed25519 AAAA x\",\"ip\":\"192.168.1.20\",\"v\":\"0.1.0\",\"name\":\"desk\",\"type\":\"pc\",\"token\":\"tok123\"}"
    );
}

#[test]
fn every_failure_becomes_the_card_error() {
    let e = build_pairing_info(Err("access denied".to_string()), None, &PROBES, "PC", "1", "tok123");
    assert_eq!(e.error.as_deref(), Some("Could not generate SSH key pair: access denied"));
    assert_eq!((e.public_key.clone(), e.matrix.clone(), e.size), (None, None, 0));
    let e = build_pairing_info(Ok(()), None, &PROBES, "PC", "1", "tok123");
    assert_eq!(e.error.as_deref(), Some("Generated the key pair but could not read the public key."));
    let e = build_pairing_info(Ok(()), Some("k".to_string()), &[Some([127, 0, 0, 1])], "PC", "1", "tok123");
    assert_eq!(e.error.as_deref(), Some("Could not determine this device's LAN IP address."));
    let huge = "x".repeat(8000);
    let e = build_pairing_info(Ok(()), Some(huge), &PROBES, "PC", "1", "tok123");
    assert_eq!(e.error.as_deref(), Some("Could not render QR code: data too long"));
}

#[test]
fn a_ready_card_holds_the_identity_and_a_square_qr() {
    let info = build_pairing_info(Ok(()), Some(" ssh-ed25519 AAAA tumbleweed@local \n".to_string()), &PROBES, "Desk Top", "0.1.0", "tok123");
    assert_eq!(info.error, None);
    assert_eq!(info.public_key.as_deref(), Some("ssh-ed25519 AAAA tumbleweed@local"));
    assert_eq!(info.name.as_deref(), Some("desk-top"));
    assert_eq!(info.device_type.as_deref(), Some("pc"));
    assert_eq!(info.ip.as_deref(), Some("192.168.1.20"));
    assert_eq!(info.version.as_deref(), Some("0.1.0"));
    let m = info.matrix.clone().unwrap();
    assert!(info.size >= 21);
    assert_eq!(m.len(), info.size * info.size);
    assert!(m[0]);
    assert_eq!(pairing_meta(&info), "desk-top, pc, 192.168.1.20, v0.1.0");
    assert_eq!(pairing_caption(&Some(info)), None);
}

#[test]
fn captions_and_meta() {
    assert_eq!(
        pairing_caption(&None).as_deref(),
        Some("Tap \"Generate key pair\" first, then expand this to see the QR code.")
    );
    let failed = build_pairing_info(Ok(()), None, &PROBES, "PC", "1", "tok123");
    assert_eq!(pairing_caption(&Some(failed.clone())), failed.error.clone());
    assert_eq!(pairing_meta(&failed), ", , , v");
    let pending = PairingInfo { matrix: None, error: None, ..failed };
    assert_eq!(pairing_caption(&Some(pending)).as_deref(), Some("Rendering QR code\u{2026}"));
}

#[test]
fn keygen_arguments_and_messages() {
    assert_eq!(
        keygen_args("C:\\k"),
        vec!["-t", "ed25519", "-f", "C:\\k", "-N", "", "-C", "tumbleweed@local"]
    );
    assert_eq!(QrFailure::DataTooLong.message(), "data too long");
    assert_eq!(QrFailure::InvalidEciDesignator.message(), "invalid ECI designator");
}
