use tumbleweed::dns::{
    build_announcement, build_query, build_response, encode_name, ip_eq, parse_discovery_response,
    parse_response, read_name, read_record, response_for_query, service_answers, service_instance,
    service_type, skip_name, Answer, IpAddress, ReplyTo,
};

fn labels(parts: &[&str]) -> Vec<u8> {
    let mut v = Vec::new();
    for p in parts {
        v.push(p.len() as u8);
        v.extend_from_slice(p.as_bytes());
    }
    v.push(0);
    v
}

#[test]
fn encodes_names_as_labels() {
    assert_eq!(encode_name("tumbleweed.local"), labels(&["tumbleweed", "local"]));
    assert_eq!(encode_name(""), vec![0, 0]);
    assert_eq!(encode_name("a..b"), vec![1, b'a', 0, 1, b'b', 0]);
}

#[test]
fn builds_queries_with_the_unicast_bit() {
    let q = build_query("a.local", 1);
    let mut want = vec![0, 0, 0, 0, 0, 1, 0, 0, 0, 0, 0, 0];
    want.extend(labels(&["a", "local"]));
    want.extend([0, 1, 0x80, 0x01]);
    assert_eq!(q, want);
}

#[test]
fn reads_plain_and_compressed_names() {
    let mut pkt = vec![0u8; 12];
    pkt.extend(labels(&["host", "local"]));
    let ptr_at = pkt.len();
    pkt.extend([0xC0, 12]);
    assert_eq!(read_name(&pkt, 12), Some(("host.local".to_string(), 12)));
    assert_eq!(read_name(&pkt, ptr_at), Some(("host.local".to_string(), 2)));
    assert_eq!(skip_name(&pkt, 12), Some(12));
    assert_eq!(skip_name(&pkt, ptr_at), Some(2));
}

#[test]
fn refuses_pointer_loops_and_truncated_names() {
    let mut pkt = vec![0u8; 12];
    pkt.extend([0xC0, 12]);
    assert_eq!(read_name(&pkt, 12), None);
    let mut cut = vec![0u8; 12];
    cut.extend([5, b'a', b'b']);
    assert_eq!(read_name(&cut, 12), None);
    assert_eq!(skip_name(&cut, 12), None);
    assert_eq!(read_name(&cut, 40), None);
}

#[test]
fn reads_a_record_header() {
    let pkt = build_response(
        7,
        0x8400,
        None,
        &[Answer { name: "x.local".to_string(), rtype: 1, class: 1, ttl: 120, rdata: vec![1, 2, 3, 4] }],
    );
    let r = read_record(&pkt, 12).unwrap();
    assert_eq!(r.0, "x.local");
    assert_eq!((r.1, r.2), (1, 1));
    assert_eq!(r.4, 4);
    assert_eq!(&pkt[r.3..r.3 + 4], &[1, 2, 3, 4]);
}

#[test]
fn response_packets_have_header_question_and_answers() {
    let q = [9u8, 9, 9];
    let pkt = build_response(
        0x1234,
        0x8400,
        Some(&q),
        &[Answer { name: "a".to_string(), rtype: 16, class: 1, ttl: 1, rdata: vec![7] }],
    );
    let mut want = vec![0x12, 0x34, 0x84, 0x00, 0, 1, 0, 1, 0, 0, 0, 0, 9, 9, 9];
    want.extend([1, b'a', 0, 0, 16, 0, 1, 0, 0, 0, 1, 0, 1, 7]);
    assert_eq!(pkt, want);
}

#[test]
fn collects_addresses_for_the_wanted_name() {
    let pkt = build_response(
        0,
        0x8400,
        None,
        &[
            Answer { name: "Host.Local".to_string(), rtype: 1, class: 0x8001, ttl: 120, rdata: vec![192, 168, 1, 5] },
            Answer { name: "other.local".to_string(), rtype: 1, class: 1, ttl: 120, rdata: vec![10, 0, 0, 1] },
            Answer { name: "host.local".to_string(), rtype: 28, class: 1, ttl: 120, rdata: vec![0xfe; 16] },
            Answer { name: "host.local".to_string(), rtype: 1, class: 3, ttl: 120, rdata: vec![1, 1, 1, 1] },
            Answer { name: "host.local".to_string(), rtype: 1, class: 1, ttl: 120, rdata: vec![1, 1, 1] },
        ],
    );
    let mut out = Vec::new();
    parse_response(&pkt, "host.local", &mut out);
    assert_eq!(out, vec![IpAddress::V4([192, 168, 1, 5]), IpAddress::V6([0xfe; 16])]);
    let mut none = Vec::new();
    parse_response(&pkt[..10], "host.local", &mut none);
    assert!(none.is_empty());
}

#[test]
fn compares_addresses() {
    assert!(ip_eq(&IpAddress::V4([1, 2, 3, 4]), &IpAddress::V4([1, 2, 3, 4])));
    assert!(!ip_eq(&IpAddress::V4([1, 2, 3, 4]), &IpAddress::V4([1, 2, 3, 5])));
    assert!(!ip_eq(&IpAddress::V4([0; 4]), &IpAddress::V6([0; 16])));
}

#[test]
fn service_names() {
    assert_eq!(service_type("anything"), "_tumbleweed._tcp.local");
    assert_eq!(service_instance("tumbleweed-pc.local"), "tumbleweed-pc._tcp.local");
    assert_eq!(service_instance("x.local.local"), "x._tcp.local");
}

#[test]
fn service_answers_advertise_ptr_srv_txt_and_a() {
    let a = service_answers("tumbleweed-pc.local", 2222, &[[10, 0, 0, 7], [192, 168, 0, 2]], "pc", "0.3.1");
    let kinds: Vec<u16> = a.iter().map(|x| x.rtype).collect();
    assert_eq!(kinds, vec![12, 33, 16, 1, 1]);
    assert_eq!(a[0].name, "_tumbleweed._tcp.local");
    assert_eq!(a[0].rdata, labels(&["tumbleweed-pc", "_tcp", "local"]));
    let mut srv = vec![0, 0, 0, 0, 0x08, 0xAE];
    srv.extend(labels(&["tumbleweed-pc", "local"]));
    assert_eq!(a[1].rdata, srv);
    assert_eq!(a[2].rdata, b"\x09txtvers=1\x07type=pc\x07v=0.3.1".to_vec());
    assert_eq!(a[3].class, 0x8001);
    assert_eq!(a[4].rdata, vec![192, 168, 0, 2]);
}

#[test]
fn announcements_are_discovered() {
    let pkt = build_announcement("tumbleweed-pc.local", 2222, &[[10, 0, 0, 7]], "pc", "0.3.1");
    assert_eq!(&pkt[..12], &[0, 0, 0x84, 0, 0, 0, 0, 4, 0, 0, 0, 0]);
    let (instances, ips) = parse_discovery_response(&pkt);
    assert_eq!(instances, vec!["tumbleweed-pc._tcp.local".to_string()]);
    assert_eq!(ips, vec![IpAddress::V4([10, 0, 0, 7])]);
    let (i2, a2) = parse_discovery_response(&[0u8; 5]);
    assert!(i2.is_empty() && a2.is_empty());
}

#[test]
fn answers_queries_for_our_names_only() {
    let addrs = [[10, 0, 0, 7]];
    let q = build_query("TUMBLEWEED-PC.local", 1);
    let (resp, dest) = response_for_query(&q, "tumbleweed-pc.local", 2222, &addrs, "pc", "0.3.1").unwrap();
    assert_eq!(dest, ReplyTo::Source);
    let mut out = Vec::new();
    parse_response(&resp, "tumbleweed-pc.local", &mut out);
    assert_eq!(out, vec![IpAddress::V4([10, 0, 0, 7])]);
    assert_eq!(&resp[..12], &[0, 0, 0x84, 0, 0, 1, 0, 1, 0, 0, 0, 0]);

    let ptr = build_query("_tumbleweed._tcp.local", 12);
    let (resp, _) = response_for_query(&ptr, "tumbleweed-pc.local", 2222, &addrs, "pc", "0.3.1").unwrap();
    assert_eq!(resp[7], 4);

    let mut multicast = build_query("tumbleweed-pc._tcp.local", 33);
    let n = multicast.len();
    multicast[n - 2] = 0x00;
    let (resp, dest) = response_for_query(&multicast, "tumbleweed-pc.local", 2222, &addrs, "pc", "0.3.1").unwrap();
    assert_eq!(dest, ReplyTo::Group);
    assert_eq!(resp[7], 2);

    assert!(response_for_query(&build_query("other.local", 1), "tumbleweed-pc.local", 2222, &addrs, "pc", "0.3.1").is_none());
    assert!(response_for_query(&build_query("tumbleweed-pc.local", 28), "tumbleweed-pc.local", 2222, &addrs, "pc", "0.3.1").is_none());
    let mut answer = build_query("tumbleweed-pc.local", 1);
    answer[2] = 0x84;
    assert!(response_for_query(&answer, "tumbleweed-pc.local", 2222, &addrs, "pc", "0.3.1").is_none());
    assert!(response_for_query(&[0u8; 11], "tumbleweed-pc.local", 2222, &addrs, "pc", "0.3.1").is_none());
}

#[test]
fn resolving_an_advertised_host_finds_all_its_addresses() {
    let addrs = [[192, 168, 1, 20], [10, 0, 0, 7], [172, 16, 5, 1]];
    for host in ["tumbleweed-pc.local", "tumbleweed-bürö.local"] {
        let q = build_query(host, 1);
        let (resp, dest) = response_for_query(&q, host, 2222, &addrs, "pc", "0.3.1").unwrap();
        assert_eq!(dest, ReplyTo::Source);
        let mut out = Vec::new();
        parse_response(&resp, host, &mut out);
        assert_eq!(
            out,
            vec![
                IpAddress::V4([192, 168, 1, 20]),
                IpAddress::V4([10, 0, 0, 7]),
                IpAddress::V4([172, 16, 5, 1]),
            ]
        );
    }
    let q = build_query("tumbleweed-pc.local", 1);
    assert!(response_for_query(&q, "tumbleweed-pc.local", 2222, &[], "pc", "0.3.1").is_none());
}

#[test]
fn discovery_reads_back_every_advertised_address() {
    let addrs = [[192, 168, 1, 20], [10, 0, 0, 7]];
    let pkt = build_announcement("tumbleweed-bürö.local", 2222, &addrs, "pc", "0.3.1");
    let (instances, ips) = parse_discovery_response(&pkt);
    assert_eq!(instances, vec!["tumbleweed-bürö._tcp.local".to_string()]);
    assert_eq!(ips, vec![IpAddress::V4([192, 168, 1, 20]), IpAddress::V4([10, 0, 0, 7])]);
    let pkt = build_announcement("tumbleweed-pc.local", 2222, &[], "pc", "0.3.1");
    let (instances, ips) = parse_discovery_response(&pkt);
    assert_eq!(instances, vec!["tumbleweed-pc._tcp.local".to_string()]);
    assert!(ips.is_empty());
}

#[test]
fn reading_and_skipping_a_name_agree() {
    let mut pkt = labels(&["a", "bc", "local"]);
    let at = pkt.len();
    pkt.extend([1, b'x', 0xC0, 0x00]);
    for start in [0, at] {
        let (_, c) = read_name(&pkt, start).unwrap();
        assert_eq!(skip_name(&pkt, start), Some(c));
        assert!(c >= 1 && start + c <= pkt.len());
    }
    assert_eq!(read_name(&[0xC0, 0x00], 0), None);
}
