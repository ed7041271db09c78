use tumbleweed::explorer::fuzzy_match;
use tumbleweed::http::{parse_request_line, url_decode};
use tumbleweed::ssh::{scp_control, ScpStep};
use tumbleweed::text::{lines_vec, parse_u16, parse_u64, str_eq_ignore_ascii_case, trim_ws, u64_decimal};

#[test]
fn numbers() {
    assert_eq!(u64_decimal(0), "0");
    assert_eq!(u64_decimal(18446744073709551615), "18446744073709551615");
    assert_eq!(parse_u64("+42"), Some(42));
    assert_eq!(parse_u64("18446744073709551616"), None);
    assert_eq!(parse_u64(""), None);
    assert_eq!(parse_u64("1 2"), None);
    assert_eq!(parse_u16("65535"), Some(65535));
    assert_eq!(parse_u16("65536"), None);
}

#[test]
fn outside_text_conversions() {
    // `String::from_utf8_lossy`, through the SCP control-line reader.
    assert_eq!(
        scp_control(&b"C0644 5 ok\xffgo".to_vec()),
        ScpStep::File { name: "ok\u{FFFD}go".to_string(), size: 5 }
    );
    // `String::from_utf8`, through URL decoding.
    assert_eq!(url_decode("%C3%A9").as_deref(), Some("é"));
    assert_eq!(url_decode("%C3"), None);
    // `str::to_uppercase`, through the request-line method.
    assert_eq!(parse_request_line("straße / HTTP/1.1").method, "STRASSE");
    assert_eq!(parse_request_line("get / HTTP/1.1").method, "GET");
    // `str::to_lowercase`, through fuzzy matching.
    assert!(fuzzy_match("àb", "ÀBC"));
    assert!(fuzzy_match("ÀB", "xàyb"));
    assert!(!fuzzy_match("ÀB", "ba"));
}

#[test]
fn trimming_lines_and_case() {
    assert_eq!(trim_ws("\t a b \u{3000}"), "a b");
    let ls: Vec<String> = lines_vec("a\r\nb\n\nc\n").iter().map(|l| l.iter().collect()).collect();
    assert_eq!(ls, vec!["a", "b", "", "c"]);
    assert!(str_eq_ignore_ascii_case("Content-Length", "content-LENGTH"));
    assert!(!str_eq_ignore_ascii_case("É", "é"));
}
