use tumbleweed::http::{
    content_type, hex_val, html_escape, reason, url_decode, url_encode,
};

#[test]
fn url_encode_keeps_safe_bytes_and_escapes_the_rest() {
    assert_eq!(url_encode("a b/c.txt"), "a%20b/c.txt");
    assert_eq!(url_encode("é"), "%C3%A9");
    assert_eq!(url_encode("-_.~"), "-_.~");
}

#[test]
fn url_decode_reverses_encoding() {
    assert_eq!(url_decode("a%20b").as_deref(), Some("a b"));
    assert_eq!(url_decode("%C3%A9").as_deref(), Some("é"));
    assert_eq!(url_decode(&url_encode("héllo wörld!")).as_deref(), Some("héllo wörld!"));
}

#[test]
fn url_decode_rejects_broken_escapes_and_bad_utf8() {
    assert_eq!(url_decode("%2"), None);
    assert_eq!(url_decode("%zz"), None);
    assert_eq!(url_decode("%FF"), None);
    assert_eq!(url_decode("ab%"), None);
}

#[test]
fn hex_values() {
    assert_eq!(hex_val(b'0'), Some(0));
    assert_eq!(hex_val(b'a'), Some(10));
    assert_eq!(hex_val(b'F'), Some(15));
    assert_eq!(hex_val(b'g'), None);
}

#[test]
fn html_escaping() {
    assert_eq!(html_escape("<a & b>"), "&lt;a &amp; b&gt;");
}

#[test]
fn reasons_and_types() {
    assert_eq!(reason(200), "OK");
    assert_eq!(reason(413), "Request Too Large");
    assert_eq!(reason(999), "OK");
    assert_eq!(content_type("photo.JPG"), "image/jpeg");
    assert_eq!(content_type("notes.md"), "text/plain; charset=utf-8");
    assert_eq!(content_type("archive"), "application/octet-stream");
}

use tumbleweed::http::{
    body_chunk, device_info_json, directory_listing, error_body, get_action, parse_request_line,
    put_file_name, put_reply, response_head, route, safe_path, sort_names, temp_upload_name,
    GetAction, HeadReader, HeadStep, PathKind, PutOutcome, Route, ServerState, HTTP_PORT, MAX_HEAD,
};

#[test]
fn safe_path_maps_segments_and_refuses_traversal() {
    assert_eq!(
        safe_path("/docs/./a%20b.txt?x=1"),
        Some(vec!["docs".to_string(), "a b.txt".to_string()])
    );
    assert_eq!(safe_path("/"), Some(Vec::<String>::new()));
    assert_eq!(safe_path("/a/../b"), None);
    assert_eq!(safe_path("/%2e%2e/secret"), None);
    assert_eq!(safe_path("/bad%zz"), None);
}

#[test]
fn request_lines() {
    let r = parse_request_line("get /file.txt HTTP/1.1\r\n");
    assert_eq!(r.method, "GET");
    assert_eq!(r.target, "/file.txt");
    let r = parse_request_line("");
    assert_eq!(r.method, "");
    assert_eq!(r.target, "/");
}

#[test]
fn head_reader_counts_bytes_and_reads_content_length() {
    let mut h = HeadReader::new();
    assert_eq!(h.feed("Host: x\r\n"), HeadStep::More);
    assert_eq!(h.feed("CONTENT-LENGTH:  42 \r\n"), HeadStep::More);
    assert_eq!(h.content_length, 42);
    assert_eq!(h.feed("Content-Length: nope\r\n"), HeadStep::More);
    assert_eq!(h.content_length, 0);
    assert_eq!(h.feed("\r\n"), HeadStep::End);
    assert_eq!(h.head_bytes, 9 + 22 + 22 + 2);
}

#[test]
fn head_reader_refuses_oversized_heads() {
    let mut h = HeadReader::new();
    let big = "a".repeat(MAX_HEAD as usize);
    assert_eq!(h.feed(&big), HeadStep::More);
    assert_eq!(h.feed("b"), HeadStep::TooLarge);
    assert_eq!(h.head_bytes, MAX_HEAD);
}

#[test]
fn routing() {
    assert_eq!(route("GET", "/info"), Route::Info { head_only: false });
    assert_eq!(route("HEAD", "/info?x"), Route::Info { head_only: true });
    assert_eq!(route("GET", "/a.txt"), Route::Get);
    assert_eq!(route("HEAD", "/a.txt"), Route::Head);
    assert_eq!(route("PUT", "/a.txt"), Route::Put);
    assert_eq!(route("DELETE", "/a.txt"), Route::NotAllowed);
    assert_eq!(route("PUT", "/info"), Route::Put);
}

#[test]
fn get_actions() {
    assert_eq!(get_action(false, PathKind::File, true), GetAction::BadRequest);
    assert_eq!(get_action(true, PathKind::Dir, true), GetAction::Listing);
    assert_eq!(get_action(true, PathKind::Dir, false), GetAction::Forbidden);
    assert_eq!(get_action(true, PathKind::File, false), GetAction::SendFile);
    assert_eq!(get_action(true, PathKind::Missing, false), GetAction::NotFound);
}

#[test]
fn upload_names() {
    assert_eq!(put_file_name("/dir/report%201.pdf").as_deref(), Some("report 1.pdf"));
    assert_eq!(put_file_name("/"), None);
    assert_eq!(put_file_name("/.."), None);
    assert_eq!(put_file_name("/%2E"), None);
    assert_eq!(put_file_name("/%G0"), None);
}

#[test]
fn upload_replies() {
    let (code, ctype, body) = put_reply(PutOutcome::Saved);
    assert_eq!((code, ctype, body.as_str()), (201, "text/plain", "Saved\n"));
    let (code, ctype, body) = put_reply(PutOutcome::NotReady);
    assert_eq!(code, 503);
    assert_eq!(ctype, "text/html; charset=utf-8");
    assert_eq!(body, "<!DOCTYPE html><html><body><h1>503 Not ready</h1></body></html>");
    assert_eq!(put_reply(PutOutcome::SaveFailed).0, 500);
    assert_eq!(put_reply(PutOutcome::Rejected).2, error_body(403, "Rejected"));
}

#[test]
fn response_heads_and_bodies() {
    assert_eq!(
        response_head(404, "text/html; charset=utf-8", 7),
        "HTTP/1.1 404 Not Found\r\nContent-Type: text/html; charset=utf-8\r\nContent-Length: 7\r\nConnection: close\r\n\r\n"
    );
    assert_eq!(
        error_body(400, "Bad Request"),
        "<!DOCTYPE html><html><body><h1>400 Bad Request</h1></body></html>"
    );
}

#[test]
fn info_json() {
    assert_eq!(HTTP_PORT, 8000);
    assert_eq!(
        device_info_json("tumbleweed-pc.local", "1.2.3"),
        "{\"name\":\"tumbleweed-pc.local\",\"type\":\"pc\",\"port\":8000,\"version\":\"1.2.3\"}"
    );
}

#[test]
fn server_state_root_and_listing() {
    let mut s = ServerState::new();
    assert!(!s.list_directories_enabled());
    assert_eq!(s.current_root(Some("/work".to_string())), "/work");
    assert_eq!(s.current_root(None), "C:\\");
    s.set_root("D:\\Photos".to_string());
    assert_eq!(s.current_root(None), "D:\\Photos");
    s.set_list_directories(true);
    assert!(s.list_directories_enabled());
}

#[test]
fn names_sort_by_code_point() {
    let sorted = sort_names(vec![
        ("b".to_string(), false),
        ("B".to_string(), true),
        ("a".to_string(), false),
    ]);
    let names: Vec<&str> = sorted.iter().map(|e| e.0.as_str()).collect();
    assert_eq!(names, vec!["B", "a", "b"]);
}

#[test]
fn directory_listing_page() {
    let html = directory_listing(
        "C:\\Share",
        "/docs/",
        vec![("z.txt".to_string(), false), ("a b".to_string(), true)],
    );
    assert_eq!(
        html,
        "<!DOCTYPE html><html><head><meta charset='utf-8'><title>C:\\Share</title></head><body><h1>C:\\Share</h1><ul>\
<li><a href=\"/\">..</a></li>\
<li><a href=\"/docs/a%20b\">a b/</a></li>\
<li><a href=\"/docs/z.txt\">z.txt</a></li>\
</ul><p><i>tumbleweed HTTP file server</i></p></body></html>"
    );
    let root = directory_listing("<r>", "/", vec![]);
    assert_eq!(
        root,
        "<!DOCTYPE html><html><head><meta charset='utf-8'><title>&lt;r&gt;</title></head><body><h1>&lt;r&gt;</h1><ul></ul><p><i>tumbleweed HTTP file server</i></p></body></html>"
    );
    let nested = directory_listing("t", "/a/b", vec![]);
    assert!(nested.contains("<li><a href=\"/a\">..</a></li>"));
}

#[test]
fn upload_temp_names_and_chunks() {
    assert_eq!(temp_upload_name(4242, 7), "tumbleweed-upload-4242-7.tmp");
    assert_eq!(body_chunk(10), 10);
    assert_eq!(body_chunk(65536), 65536);
    assert_eq!(body_chunk(1 << 40), 65536);
}

#[test]
fn sent_names_arrive_unchanged() {
    for name in ["report.pdf", "a b c.txt", "ünïcødé 文件.png", "100%.txt", "..hidden"] {
        let target = format!("/{}", url_encode(name));
        assert_eq!(put_file_name(&target).as_deref(), Some(name));
    }
}

#[test]
fn backslashes_and_drive_marks_do_not_leave_the_served_folder() {
    assert_eq!(safe_path("/..%5Cx"), None);
    assert_eq!(safe_path("/a%5C..%5Cb"), None);
    assert_eq!(safe_path("/a%5Cb.txt"), Some(vec!["a".to_string(), "b.txt".to_string()]));
    assert_eq!(safe_path("/C:x"), None);
    assert_eq!(safe_path("/docs/D%3A%5Csecret"), None);
}
