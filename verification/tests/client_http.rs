use tumbleweed::client::{
    info_body_len_ok, info_request, info_status_ok, json_num_field, json_str_field, parse_info,
    put_request_head, status_code, upload_accepted, upload_result, HeadDrain, PeerInfo,
    MAX_RESPONSE_HEAD,
};
use tumbleweed::http::device_info_json;

#[test]
fn json_fields_of_our_info_format() {
    let body = "{\"name\": \"Pixel\",\"type\":\"phone\", \"port\":  8000 ,\"version\":\"3\"}";
    assert_eq!(json_str_field(body, "name").as_deref(), Some("Pixel"));
    assert_eq!(json_str_field(body, "type").as_deref(), Some("phone"));
    assert_eq!(json_num_field(body, "port"), Some(8000));
    assert_eq!(json_str_field(body, "port"), None);
    assert_eq!(json_num_field(body, "name"), None);
    assert_eq!(json_str_field(body, "missing"), None);
    assert_eq!(json_num_field("{\"port\":99999}", "port"), None);
}

#[test]
fn info_bodies() {
    let info = parse_info(&device_info_json("tumbleweed-pc.local", "0.1.0")).unwrap();
    assert_eq!(
        info,
        PeerInfo { name: "tumbleweed-pc.local".to_string(), kind: "pc".to_string(), port: 8000 }
    );
    assert_eq!(
        parse_info("{\"name\":\"a\",\"type\":\"b\"}"),
        Some(PeerInfo { name: "a".to_string(), kind: "b".to_string(), port: 0 })
    );
    assert_eq!(parse_info("{\"name\":\"a\"}"), None);
    assert_eq!(parse_info(""), None);
}

#[test]
fn status_lines() {
    assert_eq!(status_code("HTTP/1.1 201 Created\r\n"), 201);
    assert_eq!(status_code("HTTP/1.1 abc\r\n"), 0);
    assert_eq!(status_code("garbage"), 0);
    assert!(upload_accepted(200) && upload_accepted(299));
    assert!(!upload_accepted(199) && !upload_accepted(300));
    assert!(info_status_ok("HTTP/1.1 200 OK\r\n"));
    assert!(!info_status_ok("HTTP/1.1 2000 OK\r\n"));
    assert!(info_body_len_ok(1) && info_body_len_ok(4096));
    assert!(!info_body_len_ok(0) && !info_body_len_ok(4097));
}

#[test]
fn upload_results() {
    assert_eq!(upload_result(201), Ok(()));
    assert_eq!(upload_result(403), Err("server responded 403".to_string()));
    assert_eq!(upload_result(0), Err("server responded 0".to_string()));
}

#[test]
fn request_heads() {
    assert_eq!(
        put_request_head("my file.txt", "192.168.1.9", 12),
        "PUT /my%20file.txt HTTP/1.1\r\nHost: 192.168.1.9\r\nContent-Length: 12\r\nConnection: close\r\n\r\n"
    );
    assert_eq!(info_request("10.0.0.2"), "GET /info HTTP/1.1\r\nHost: 10.0.0.2\r\nConnection: close\r\n\r\n");
}

#[test]
fn response_heads_are_drained_to_the_blank_line() {
    let mut d = HeadDrain::new(17);
    assert!(d.wants_line());
    assert!(!d.feed("Content-Type: x\r\n", 17));
    assert!(d.feed("\r\n", 2));
    let mut big = HeadDrain::new(MAX_RESPONSE_HEAD);
    assert!(big.wants_line());
    assert!(!big.feed("x", 1));
    assert!(!big.wants_line());
}

#[test]
fn a_peer_reads_back_what_info_serves() {
    for host in ["tumbleweed-pc.local", "type", "x", "bürö:{}"] {
        let body = tumbleweed::http::device_info_json(host, "0.3.1");
        let info = parse_info(&body).unwrap();
        assert_eq!(info, PeerInfo { name: host.to_string(), kind: "pc".to_string(), port: 8000 });
    }
    let body = tumbleweed::http::device_info_json("port", "0.3.1");
    assert_eq!(parse_info(&body).unwrap().port, 0);
}
