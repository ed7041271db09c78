use tumbleweed::dns::IpAddress;
use tumbleweed::explorer::{
    default_folder, device_not_found, drive_candidates, drive_label, drive_path, entry_label,
    find_device, fuzzy_match, opens_folder, path_from_crumbs, path_to_crumbs, search_best_index,
    search_suggestions, send_failed, sort_entries, FsEntry, PressTracker, UploadOutcome,
};
use tumbleweed::peers::DiscoveredDevice;

fn e(name: &str, is_dir: bool) -> FsEntry {
    FsEntry { name: name.to_string(), path: format!("C:\\x\\{name}"), is_dir }
}

fn names(v: &[FsEntry]) -> Vec<&str> {
    v.iter().map(|x| x.name.as_str()).collect()
}

#[test]
fn folders_first_then_names_ignoring_case() {
    let sorted = sort_entries(vec![e("b.txt", false), e("Zeta", true), e("A.txt", false), e("alpha", true), e("a.txt", false)]);
    assert_eq!(names(&sorted), vec!["alpha", "Zeta", "A.txt", "a.txt", "b.txt"]);
    assert!(sort_entries(vec![]).is_empty());
}

#[test]
fn fuzzy_matching() {
    assert!(fuzzy_match("", "anything"));
    assert!(fuzzy_match("rpt", "Report.pdf"));
    assert!(fuzzy_match("RP", "report"));
    assert!(!fuzzy_match("pr", "rep"));
    assert!(!fuzzy_match("abc", "ab"));
}

#[test]
fn suggestions_take_ten_matches() {
    let mut entries: Vec<FsEntry> = (0..15).map(|i| e(&format!("file{i}.txt"), false)).collect();
    entries.push(e("other", false));
    let s = search_suggestions(&entries, "  fl ");
    assert_eq!(s.len(), 10);
    assert_eq!(s[0], "file0.txt");
    assert_eq!(s[9], "file9.txt");
    assert!(search_suggestions(&entries, "   ").is_empty());
    assert_eq!(search_suggestions(&entries, "oth"), vec!["other".to_string()]);
}

#[test]
fn best_match_prefers_prefix() {
    let entries = vec![e("my report", false), e("Report.pdf", false), e("report2", false)];
    assert_eq!(search_best_index(&entries, " REP "), Some(1));
    assert_eq!(search_best_index(&entries, "my"), Some(0));
    assert_eq!(search_best_index(&entries, "ort"), Some(0));
    assert_eq!(search_best_index(&entries, "zzz"), None);
    assert_eq!(search_best_index(&entries, ""), None);
}

#[test]
fn breadcrumbs() {
    let c = path_to_crumbs("C:\\Users\\Anna\\Downloads");
    assert_eq!(c, vec!["C:", "Users", "Anna", "Downloads"]);
    assert_eq!(path_to_crumbs("C:\\a\\.\\b\\..\\"), vec!["C:", "a", "b"]);
    assert_eq!(path_from_crumbs(&c, 0), "C:\\");
    assert_eq!(path_from_crumbs(&c, 2), "C:\\Users\\Anna");
    assert_eq!(path_from_crumbs(&c, 10), "C:\\Users\\Anna\\Downloads");
    assert_eq!(path_from_crumbs(&vec![], 3), "");
}

#[test]
fn breadcrumbs_of_prefixed_paths() {
    assert_eq!(path_to_crumbs("\\\\srv\\share\\x"), vec!["\\\\srv\\share", "x"]);
    assert_eq!(path_to_crumbs("//srv/share/x"), vec!["//srv/share", "x"]);
    assert_eq!(path_to_crumbs("C:foo"), vec!["C:", "foo"]);
    assert_eq!(path_to_crumbs("\\\\?\\C:\\a/b"), vec!["\\\\?\\C:", "a/b"]);
    assert_eq!(path_to_crumbs("\\\\.\\COM1"), vec!["\\\\.\\COM1"]);
    assert_eq!(
        path_to_crumbs("\\\\?\\UNC\\srv\\sh\\d"),
        vec!["\\\\?\\UNC\\srv\\sh", "d"]
    );
    assert_eq!(path_to_crumbs("\\\\?\\UNC/srv\\sh"), vec!["\\\\?\\UNC/srv\\sh"]);
    assert_eq!(path_to_crumbs("\\\\?\\pipe\\x"), vec!["\\\\?\\pipe", "x"]);
    // `\\?\C:` is a drive only when `\` or nothing follows it.
    assert_eq!(path_to_crumbs("\\\\?\\C:/a/b"), vec!["\\\\?\\C:/a/b"]);
    // A lone server name is no prefix.
    assert_eq!(path_to_crumbs("\\\\srv"), vec!["srv"]);
    assert_eq!(path_to_crumbs("Users/Anna"), vec!["Users", "Anna"]);
}

fn crumbs_of(parts: &[&str]) -> Vec<String> {
    parts.iter().map(|s| s.to_string()).collect()
}

#[test]
fn crumb_paths_push_like_pathbuf() {
    // A crumb with a prefix replaces the path.
    assert_eq!(path_from_crumbs(&crumbs_of(&["C:", "D:\\x"]), 1), "D:\\x");
    // A crumb with a root keeps only the drive.
    assert_eq!(path_from_crumbs(&crumbs_of(&["C:", "a", "\\b"]), 2), "C:\\b");
    // After a bare drive no separator is put in.
    assert_eq!(path_from_crumbs(&crumbs_of(&["D:", "C:", "x"]), 2), "C:x");
    // Onto a verbatim path the pushed components are walked in.
    assert_eq!(path_from_crumbs(&crumbs_of(&["\\\\?\\C:", "a/b"]), 1), "\\\\?\\C:\\a\\b");
    assert_eq!(path_from_crumbs(&crumbs_of(&["\\\\?\\C:", "a", ".."]), 2), "\\\\?\\C:\\");
    // A UNC share is a plain first crumb.
    assert_eq!(path_from_crumbs(&crumbs_of(&["\\\\srv\\share", "x", "y"]), 2), "\\\\srv\\share\\x\\y");
    // An empty crumb adds a separator only where one is missing.
    assert_eq!(path_from_crumbs(&crumbs_of(&["x", ""]), 1), "x\\");
    assert_eq!(path_from_crumbs(&crumbs_of(&["x", "y", ""]), 2), "x\\y\\");
}

#[test]
fn first_folder() {
    let s = |x: &str| Some(x.to_string());
    assert_eq!(default_folder(s("D:\\saved"), s("C:\\U"), s("C:\\U\\Downloads"), s("/cwd")), "D:\\saved");
    assert_eq!(default_folder(None, s("C:\\U"), s("C:\\U\\Downloads"), None), "C:\\U\\Downloads");
    assert_eq!(default_folder(None, s("C:\\U"), None, None), "C:\\U");
    assert_eq!(default_folder(None, None, None, s("/cwd")), "/cwd");
    assert_eq!(default_folder(None, None, None, None), "C:\\");
}

#[test]
fn drives() {
    let d = drive_candidates();
    assert_eq!(d.len(), 26);
    assert_eq!(d[0], "A:\\");
    assert_eq!(d[25], "Z:\\");
    assert_eq!(drive_label("C:\\"), "C:");
    assert_eq!(drive_path("C:"), "C:\\");
}

#[test]
fn row_labels_and_presses() {
    assert_eq!(entry_label(&e("docs", true)), "\u{1F4C1}  docs");
    assert_eq!(entry_label(&e("a.txt", false)), "\u{1F4C4}  a.txt");
    let mut t = PressTracker::new();
    assert!(!t.press(3, 1000));
    assert!(t.press(3, 1500));
    assert!(!t.press(4, 1600));
    assert!(!t.press(4, 2101));
    assert!(t.press(4, 2000));
    assert!(opens_folder(true, true));
    assert!(!opens_folder(true, false));
    assert!(!opens_folder(false, true));
}

#[test]
fn upload_outcomes() {
    let ok = UploadOutcome::Success("a.txt".to_string());
    assert_eq!(ok.title(), "Sent a.txt");
    assert_eq!(ok.message(), "File delivered to the picked device.");
    assert_eq!(ok.delivered().as_deref(), Some("a.txt"));
    let nf = device_not_found("Pixel");
    assert_eq!(nf, UploadOutcome::Error("Device not found: Pixel".to_string()));
    assert_eq!(nf.title(), "Upload failed");
    assert_eq!(nf.delivered(), None);
    let sf = send_failed("a.txt", "10.0.0.2", "timed out");
    assert_eq!(sf.message(), "Could not send a.txt to 10.0.0.2: timed out");
}

#[test]
fn devices_by_name() {
    let d = |n: &str, last: u8| DiscoveredDevice { name: n.to_string(), ip: IpAddress::V4([10, 0, 0, last]), kind: String::new(), version: String::new() };
    let list = vec![d("pc", 1), d("phone", 2), d("phone", 3)];
    assert_eq!(find_device(&list, "phone"), Some(1));
    assert_eq!(find_device(&list, "tablet"), None);
}

#[test]
fn a_crumb_click_shows_the_crumbs_up_to_it() {
    let crumbs: Vec<String> = ["C:", "Users", "Anna", "Downloads"].iter().map(|s| s.to_string()).collect();
    for k in 0..crumbs.len() {
        let folder = path_from_crumbs(&crumbs, k);
        assert_eq!(path_to_crumbs(&folder), crumbs[..=k].to_vec());
    }
    assert_eq!(path_from_crumbs(&crumbs, 0), "C:\\");
    assert_eq!(path_from_crumbs(&crumbs, 2), "C:\\Users\\Anna");
}

#[test]
fn a_crumb_click_opens_an_ancestor() {
    let crumbs: Vec<String> = ["D:", "Work", "2024", "Photos"].iter().map(|s| s.to_string()).collect();
    let here = path_from_crumbs(&crumbs, 3);
    for k in 0..crumbs.len() {
        let up = path_from_crumbs(&crumbs, k);
        assert!(here.starts_with(&up));
        assert!(up.ends_with('\\') || here.len() == up.len() || here[up.len()..].starts_with('\\'));
    }
}
