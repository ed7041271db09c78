use tumbleweed::upload_gate::{dialog_decision, upload_prompt, IncomingUpload, UploadDecision, UploadGate};

fn names(q: &[IncomingUpload]) -> Vec<&str> {
    q.iter().map(|u| u.name.as_str()).collect()
}

#[test]
fn uploads_wait_until_the_ui_listens() {
    let mut g = UploadGate::new();
    assert_eq!(g.submit_upload("early".to_string(), 1), None);
    assert!(!g.is_waiting(1));
    assert_eq!(g.push_queue(), None);
    assert!(g.install_upload_setter().is_empty());
    assert_eq!(g.submit_upload("a".to_string(), 10), Some(2));
    assert!(g.is_waiting(2));
}

#[test]
fn queue_is_first_in_first_out() {
    let mut g = UploadGate::new();
    g.install_upload_setter();
    let a = g.submit_upload("a".to_string(), 1).unwrap();
    let b = g.submit_upload("b".to_string(), 2).unwrap();
    let c = g.submit_upload("c".to_string(), 3).unwrap();
    assert_eq!((a, b, c), (1, 2, 3));
    assert_eq!(names(&g.push_queue().unwrap()), vec!["a", "b", "c"]);
    assert_eq!(names(&g.advance().unwrap()), vec!["b", "c"]);
    assert_eq!(names(&g.fail_upload(c).unwrap()), vec!["b"]);
    assert!(!g.is_waiting(c));
    assert!(g.is_waiting(b));
    g.remove_upload(b);
    assert!(!g.is_waiting(b));
    assert_eq!(names(&g.advance().unwrap()), Vec::<&str>::new());
    assert_eq!(names(&g.advance().unwrap()), Vec::<&str>::new());
}

#[test]
fn dialog_decisions_and_text() {
    assert_eq!(dialog_decision(true, Some("D:\\In".to_string())), UploadDecision::Save("D:\\In".to_string()));
    assert_eq!(dialog_decision(true, None), UploadDecision::Reject);
    assert_eq!(dialog_decision(false, Some("x".to_string())), UploadDecision::Reject);
    let u = IncomingUpload { id: 1, name: "pic.jpg".to_string(), size: 2048 };
    assert_eq!(upload_prompt(&u), "pic.jpg  \u{B7}  2048 bytes");
    let z = IncomingUpload { id: 2, name: "x".to_string(), size: 0 };
    assert_eq!(upload_prompt(&z), "x  \u{B7}  (size unknown)");
}

#[test]
fn deciding_and_arriving_commute() {
    let mut one = UploadGate::new();
    one.install_upload_setter();
    one.submit_upload("a".to_string(), 1);
    one.submit_upload("b".to_string(), 2);
    let mut two = UploadGate::new();
    two.install_upload_setter();
    two.submit_upload("a".to_string(), 1);
    two.submit_upload("b".to_string(), 2);
    one.submit_upload("c".to_string(), 3);
    one.advance();
    two.advance();
    two.submit_upload("c".to_string(), 3);
    assert_eq!(names(&one.push_queue().unwrap()), vec!["b", "c"]);
    assert_eq!(names(&two.push_queue().unwrap()), vec!["b", "c"]);
}

#[test]
fn a_reply_reaches_only_a_waiting_upload() {
    let mut g = UploadGate::new();
    g.install_upload_setter();
    let a = g.submit_upload("a".to_string(), 1).unwrap();
    let b = g.submit_upload("b".to_string(), 2).unwrap();
    let save = UploadDecision::Save("D:\\In".to_string());
    assert_eq!(g.reply(a, save.clone()), Some(save.clone()));
    g.advance();
    assert_eq!(g.reply(a, UploadDecision::Reject), Some(UploadDecision::Reject));
    g.remove_upload(a);
    assert_eq!(g.reply(a, save.clone()), None);
    g.fail_upload(b);
    assert_eq!(g.reply(b, save), None);
    assert_eq!(g.reply(99, UploadDecision::Reject), None);
}

#[test]
fn a_reply_to_an_id_never_handed_out_reaches_nobody() {
    let mut g = UploadGate::new();
    g.install_upload_setter();
    let a = g.submit_upload("a".to_string(), 1).unwrap();
    assert_eq!(a, 1);
    assert_eq!(g.reply(0, UploadDecision::Reject), None);
    assert_eq!(g.reply(a + 1, UploadDecision::Reject), None);
    assert_eq!(g.reply(a, UploadDecision::Reject), Some(UploadDecision::Reject));
}
