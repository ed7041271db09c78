use tumbleweed::transfer::{
    apply_action, load_history, make_rows, row_key, save_history, tab_filter, Row,
    TransferAction, TransferDirection, TransferProgress, TransferRecord, TransferTable,
};

fn rec(name: &str, direction: TransferDirection) -> TransferRecord {
    TransferRecord { name: name.to_string(), direction }
}

#[test]
fn table_tracks_progress_by_name() {
    let mut t = TransferTable::new();
    t.start("a.bin", true, 100);
    t.start("b.bin", false, 0);
    t.update("a.bin", 40, 100);
    t.update("missing", 1, 1);
    let snap = t.snapshot();
    assert_eq!(snap.len(), 2);
    let a = snap.iter().find(|p| p.name == "a.bin").unwrap();
    assert_eq!((a.is_upload, a.done, a.total), (true, 40, 100));
    t.start("a.bin", false, 5);
    let a = t.snapshot().into_iter().find(|p| p.name == "a.bin").unwrap();
    assert_eq!((a.is_upload, a.done, a.total), (false, 0, 5));
    t.finish("a.bin");
    let snap = t.snapshot();
    assert_eq!(snap.len(), 1);
    assert_eq!(snap[0].name, "b.bin");
    t.finish("a.bin");
    assert_eq!(t.snapshot().len(), 1);
}

#[test]
fn update_keeps_direction() {
    let mut t = TransferTable::new();
    t.start("x", false, 10);
    t.update("x", 5, 20);
    let x = &t.snapshot()[0];
    assert!(!x.is_upload);
    assert_eq!((x.done, x.total), (5, 20));
}

#[test]
fn history_file_format() {
    let h = vec![rec("a.txt", TransferDirection::Uploaded), rec("b c.png", TransferDirection::Downloaded)];
    assert_eq!(save_history(&h), "a.txt\tup\nb c.png\tdown\n");
    assert_eq!(save_history(&vec![]), "");
}

#[test]
fn history_round_trip_and_bad_lines() {
    let h = vec![rec("a.txt", TransferDirection::Uploaded), rec("ü.png", TransferDirection::Downloaded)];
    assert_eq!(load_history(&save_history(&h)), h);
    let loaded = load_history("x\tup\r\nnot a record\ny\tsideways\nz\tdown");
    assert_eq!(loaded, vec![rec("x", TransferDirection::Uploaded), rec("z", TransferDirection::Downloaded)]);
    assert_eq!(load_history(""), vec![]);
}

#[test]
fn direction_glyphs_and_tags() {
    assert_eq!(TransferDirection::Uploaded.icon(), "\u{E898}");
    assert_eq!(TransferDirection::Downloaded.icon(), "\u{E896}");
    assert_eq!(TransferDirection::Uploaded.tag(), "up");
    assert_eq!(TransferDirection::Downloaded.tag(), "down");
}

#[test]
fn rows_list_in_progress_first_without_duplicates() {
    let history = vec![
        rec("a", TransferDirection::Uploaded),
        rec("b", TransferDirection::Downloaded),
        rec("a", TransferDirection::Downloaded),
    ];
    let transfers = vec![TransferProgress { name: "a".to_string(), is_upload: true, done: 3, total: 9 }];
    let all = make_rows(&history, &transfers, None);
    assert_eq!(
        all,
        vec![
            Row { name: "a".to_string(), direction: TransferDirection::Uploaded, progress: Some((3, 9)) },
            Row { name: "b".to_string(), direction: TransferDirection::Downloaded, progress: None },
            Row { name: "a".to_string(), direction: TransferDirection::Downloaded, progress: None },
        ]
    );
    let downloads = make_rows(&history, &transfers, Some(TransferDirection::Downloaded));
    assert_eq!(downloads.len(), 2);
    assert!(downloads.iter().all(|r| r.direction == TransferDirection::Downloaded));
    let uploads = make_rows(&history, &transfers, Some(TransferDirection::Uploaded));
    assert_eq!(uploads.len(), 1);
    assert_eq!(uploads[0].progress, Some((3, 9)));
}

#[test]
fn tabs_keys_and_actions() {
    assert_eq!(tab_filter("downloads"), Some(TransferDirection::Downloaded));
    assert_eq!(tab_filter("uploads"), Some(TransferDirection::Uploaded));
    assert_eq!(tab_filter("all"), None);
    let r = Row { name: "f".to_string(), direction: TransferDirection::Uploaded, progress: Some((1, 2)) };
    assert_eq!(row_key(&r), "in-f#up");
    let d = Row { name: "g".to_string(), direction: TransferDirection::Downloaded, progress: None };
    assert_eq!(row_key(&d), "done-g#down");
    let mut h = vec![];
    apply_action(&mut h, TransferAction::MarkUploaded("u".to_string()));
    apply_action(&mut h, TransferAction::MarkDownloaded("d".to_string()));
    assert_eq!(h, vec![rec("u", TransferDirection::Uploaded), rec("d", TransferDirection::Downloaded)]);
}
