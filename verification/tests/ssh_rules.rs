use tumbleweed::ssh::{
    add_authorized_key, announce_payload, authorized_keys, is_authorized, is_known_phone_key,
    key_candidates_of, parse_keys, resolve_path, sanitize_component, scp_chunk, scp_command,
    scp_control, sftp_path, sftp_realpath, subsystem_accepted, ControlLine, ExecReply, FileLogger,
    LineStep, ScpAction, ScpSink, ScpStep, SftpFailure, SftpOp, ShareRoot, SshSession, SCP_LINE_MAX, SSH_PORT,
};

const KEY: &str = "AAAAC3NzaC1lZDI1NTE5AAAAIJdD7y3aLq454yWBdwLWbieU1ebz9/cu7/QEXn9OIeZJ";

#[test]
fn logger_keeps_ssh_library_records() {
    let l = FileLogger;
    assert!(l.enabled("russh::server"));
    assert!(l.enabled("russh_keys"));
    assert!(!l.enabled("tokio::io"));
    assert!(!l.enabled("russ"));
    assert_eq!(l.line("DEBUG", "hello"), "[log/DEBUG] hello");
    assert_eq!(SSH_PORT, 2222);
}

#[test]
fn share_root_fallbacks() {
    let mut r = ShareRoot::new();
    assert_eq!(r.share_root(Some("/cwd".to_string())), "/cwd");
    assert_eq!(r.share_root(None), "C:\\");
    r.set_share_root("E:\\Inbox".to_string());
    assert_eq!(r.share_root(None), "E:\\Inbox");
}

#[test]
fn component_names() {
    assert_eq!(sanitize_component("  photo.jpg ").as_deref(), Some("photo.jpg"));
    assert_eq!(sanitize_component(""), None);
    assert_eq!(sanitize_component(" .. "), None);
    assert_eq!(sanitize_component("."), None);
    assert_eq!(sanitize_component("a/b"), None);
    assert_eq!(sanitize_component("a\\b"), None);
}

#[test]
fn sftp_paths_stay_inside_the_share() {
    assert_eq!(resolve_path("/DCIM//./img 1.jpg"), Some(vec!["DCIM".to_string(), "img 1.jpg".to_string()]));
    assert_eq!(resolve_path("\\a\\b"), Some(vec!["a".to_string(), "b".to_string()]));
    assert_eq!(resolve_path("/"), Some(vec![]));
    assert_eq!(resolve_path("/a/../b"), None);
    assert_eq!(resolve_path("C:/Windows"), None);
    assert_eq!(sftp_path(SftpOp::Stat, "/../x"), Err(SftpFailure::NoSuchFile));
    assert_eq!(sftp_path(SftpOp::Open, "/../x"), Err(SftpFailure::Failure));
    assert_eq!(sftp_path(SftpOp::Mkdir, "/d"), Ok(vec!["d".to_string()]));
    assert_eq!(sftp_realpath("//\\x/y"), "/x/y");
    assert_eq!(sftp_realpath(""), "/");
}

#[test]
fn scp_control_lines() {
    assert_eq!(scp_command(b'C', "0644 12 notes.txt"), ScpStep::File { name: "notes.txt".to_string(), size: 12 });
    assert_eq!(scp_command(b'C', "0644 12 my file.txt"), ScpStep::File { name: "my file.txt".to_string(), size: 12 });
    assert_eq!(scp_command(b'C', "0644 x a"), ScpStep::File { name: "a".to_string(), size: 0 });
    assert_eq!(scp_command(b'C', "0644 5 ../evil"), ScpStep::Fail("scp: bad file name: 0644 5 ../evil".to_string()));
    assert_eq!(scp_command(b'C', "0644"), ScpStep::Fail("scp: bad file name: 0644".to_string()));
    assert_eq!(scp_command(b'D', "0755 0 photos"), ScpStep::EnterDir("photos".to_string()));
    assert_eq!(scp_command(b'D', "0755 0 .."), ScpStep::Fail("scp: bad dir name: 0755 0 ..".to_string()));
    assert_eq!(scp_command(b'E', ""), ScpStep::LeaveDir);
    assert_eq!(scp_command(b'T', "1 0 1 0"), ScpStep::Ack);
    assert_eq!(scp_command(1, "disk full"), ScpStep::Fail("scp: sender error: disk full".to_string()));
    assert_eq!(scp_command(2, "x"), ScpStep::Fail("scp: sender error: x".to_string()));
    assert_eq!(scp_command(0x7f, ""), ScpStep::Fail("scp: unexpected control byte 0x7f".to_string()));
    assert_eq!(scp_control(&vec![]), ScpStep::Skip);
    assert_eq!(scp_control(&b"C0600 3 a\xffb".to_vec()), ScpStep::File { name: "a\u{FFFD}b".to_string(), size: 3 });
}

#[test]
fn control_lines_are_bounded() {
    let mut l = ControlLine::new();
    assert_eq!(l.feed(b'E'), LineStep::More);
    assert_eq!(l.feed(b'\n'), LineStep::Done);
    assert_eq!(l.take(), b"E".to_vec());
    assert_eq!(l.take(), Vec::<u8>::new());
    let mut long = ControlLine::new();
    for _ in 0..=SCP_LINE_MAX {
        assert_eq!(long.feed(b'x'), LineStep::More);
    }
    assert_eq!(long.feed(b'x'), LineStep::TooLong("scp: control line too long".to_string()));
    assert_eq!(long.take().len(), SCP_LINE_MAX + 1);
    assert_eq!(scp_chunk(5), 5);
    assert_eq!(scp_chunk(1 << 20), 65536);
}

#[test]
fn authorized_key_files() {
    let text = format!("# phones\n\n  {KEY}  \n{KEY} phone@x\nssh-ed25519 {KEY} comment\nnot-base64\n");
    let cands = key_candidates_of(&text);
    assert_eq!(
        cands,
        vec![KEY.to_string(), format!("{KEY} phone@x"), format!("ssh-ed25519 {KEY}"), "not-base64".to_string()]
    );
    let keys = authorized_keys(&text);
    assert_eq!(keys.len(), 1);
    assert_eq!(&keys[0][..15], b"\0\0\0\x0bssh-ed25519");
    assert_eq!(keys[0].len(), 4 + 11 + 4 + 32);
    assert_eq!(parse_keys(&vec!["@@@".to_string()]), Vec::<Vec<u8>>::new());
    assert!(is_known_phone_key(&keys[0], &keys));
    assert!(!is_known_phone_key(&vec![1, 2, 3], &keys));
}

#[test]
fn logins() {
    let keys = authorized_keys(KEY);
    let other = vec![9u8; 51];
    assert!(is_authorized("tumbleweed", None, &keys[0], &keys));
    assert!(!is_authorized("tumbleweed", None, &other, &keys));
    assert!(is_authorized("tok123", Some("tok123"), &other, &keys));
    assert!(!is_authorized("tok12", Some("tok123"), &other, &keys));
}

#[test]
fn pairing_registers_the_offered_key_once() {
    let mut s = SshSession::new();
    assert_eq!(s.exec_command("tumbleweed add-key"), ExecReply::NoPairingSession);
    assert!(s.auth_publickey("tok", Some("tok"), &vec![1, 2], "PHONEKEY", &vec![]));
    assert_eq!(s.exec_command("  tumbleweed add-key\n"), ExecReply::Registered("PHONEKEY".to_string()));
    assert_eq!(s.exec_command("tumbleweed add-key"), ExecReply::NoPairingSession);
    assert!(!s.auth_publickey("nobody", Some("tok"), &vec![1, 2], "K2", &vec![]));
    assert_eq!(s.exec_request(b"tumbleweed add-key"), ExecReply::NoPairingSession);
    assert_eq!(s.exec_command("scp -t /x"), ExecReply::Scp);
    assert_eq!(s.exec_command("ls"), ExecReply::Reject);
    assert_eq!(ExecReply::Registered("k".to_string()).message(), Some("registered\n"));
    assert_eq!(ExecReply::NoPairingSession.message(), Some("no pairing session\n"));
    assert_eq!(ExecReply::Scp.message(), None);
    assert!(subsystem_accepted("sftp"));
    assert!(!subsystem_accepted("shell"));
}

#[test]
fn key_lines_are_appended_once() {
    assert_eq!(add_authorized_key("  KEYA  ", "").as_deref(), Some("KEYA\n"));
    assert_eq!(add_authorized_key("KEYA", "x\n KEYA \n"), None);
    assert_eq!(add_authorized_key("   ", ""), None);
    assert_eq!(announce_payload("a b.txt", 1234), "1234\na b.txt\n");
}

#[test]
fn registering_a_key_twice_writes_it_once() {
    let key = " ssh-ed25519 AAAAC3NzaC1lZDI1NTE5AAAAIJdD7y3aLq454yWBdwLWbieU1ebz9/cu7/QEXn9OIeZJ phone ";
    for existing in ["", "ssh-ed25519 OTHER laptop\n", "a\r\nb\n"] {
        let appended = add_authorized_key(key, existing).unwrap();
        let file = format!("{existing}{appended}");
        assert_eq!(add_authorized_key(key, &file), None);
    }
}

#[test]
fn scp_files_land_below_the_root() {
    let mut sink = ScpSink::new();
    assert_eq!(sink.step(&b"E".to_vec()), ScpAction::Ack);
    assert_eq!(sink.step(&b"D0755 0 photos".to_vec()), ScpAction::MakeDir(vec!["photos".to_string()]));
    assert_eq!(
        sink.step(&b"D0755 0 2024".to_vec()),
        ScpAction::MakeDir(vec!["photos".to_string(), "2024".to_string()])
    );
    assert_eq!(
        sink.step(&b"C0644 5 a.jpg".to_vec()),
        ScpAction::File { folders: vec!["photos".to_string(), "2024".to_string()], name: "a.jpg".to_string(), size: 5 }
    );
    assert_eq!(sink.step(&b"E".to_vec()), ScpAction::Ack);
    assert_eq!(sink.step(&b"E".to_vec()), ScpAction::Ack);
    assert_eq!(sink.step(&b"E".to_vec()), ScpAction::Ack);
    assert_eq!(
        sink.step(&b"C0644 3 b.txt".to_vec()),
        ScpAction::File { folders: vec![], name: "b.txt".to_string(), size: 3 }
    );
    assert!(matches!(sink.step(&b"D0755 0 ..".to_vec()), ScpAction::Fail(_)));
    assert!(matches!(sink.step(&b"C0644 1 C:x".to_vec()), ScpAction::Fail(_)));
    assert_eq!(sink.step(&Vec::new()), ScpAction::Skip);
}
