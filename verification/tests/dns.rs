use sazanami::dns::{
    build_address_reply, build_format_error, build_query, build_server_failure,
    find_question_end, first_address, fit_for_udp, parse_query, QueryError,
};
use sazanami::fake_dns::{DnsAction, FakeDNS};
use sazanami::net::{ipv4, Ipv4Cidr};
use sazanami::storage::DomainIPAssociation;

fn query(id: u16, name: &str, qtype: u16) -> Vec<u8> {
    let mut m = Vec::new();
    m.extend_from_slice(&id.to_be_bytes());
    m.extend_from_slice(&[0x01, 0x00, 0, 1, 0, 0, 0, 0, 0, 0]);
    if !name.is_empty() {
        for label in name.split('.') {
            m.push(label.len() as u8);
            m.extend_from_slice(label.as_bytes());
        }
    }
    m.push(0);
    m.extend_from_slice(&qtype.to_be_bytes());
    m.extend_from_slice(&[0, 1]);
    m
}

fn store() -> DomainIPAssociation {
    DomainIPAssociation::new(Ipv4Cidr::parse("10.0.0.0/16").unwrap(), ipv4(10, 0, 0, 1))
}

#[test]
fn a_query_is_read() {
    let m = query(0xbeef, "www.Example.COM", 1);
    let q = parse_query(&m).unwrap();
    assert_eq!(q.name, Some("www.example.com".to_string()));
    assert_eq!(q.qtype, 1);
    assert_eq!(q.qclass, 1);
    assert_eq!(q.end, m.len());
    assert_eq!(find_question_end(&m), m.len());
    let aaaa = parse_query(&query(1, "a-b_c.d0", 28)).unwrap();
    assert_eq!(aaaa.name, Some("a-b_c.d0".to_string()));
    assert_eq!(aaaa.qtype, 28);
}

#[test]
fn the_root_and_odd_bytes_give_no_name() {
    let root = parse_query(&query(1, "", 1)).unwrap();
    assert_eq!(root.name, None);
    assert_eq!(root.end, 17);
    let mut odd = query(1, "a.b", 1);
    odd[13] = b'*';
    assert_eq!(parse_query(&odd).unwrap().name, None);
    let mut dot = query(1, "abc", 1);
    dot[14] = b'.';
    assert_eq!(parse_query(&dot).unwrap().name, None);
    let mut high = query(1, "abc", 1);
    high[14] = 0xe9;
    assert_eq!(parse_query(&high).unwrap().name, None);
}

#[test]
fn each_way_to_be_no_query_has_its_error() {
    let good = query(7, "example.com", 1);
    assert_eq!(parse_query(&good[..11].to_vec()).err(), Some(QueryError::NoHeader));
    assert_eq!(parse_query(&Vec::new()).err(), Some(QueryError::NoHeader));
    let mut response = good.clone();
    response[2] |= 0x80;
    assert_eq!(parse_query(&response).err(), Some(QueryError::NotAQuery));
    let mut none = good.clone();
    none[5] = 0;
    assert_eq!(parse_query(&none).err(), Some(QueryError::Malformed));
    let mut two = good.clone();
    two[5] = 2;
    assert_eq!(parse_query(&two).err(), Some(QueryError::Malformed));
    let mut many = good.clone();
    many[4] = 1;
    assert_eq!(parse_query(&many).err(), Some(QueryError::Malformed));
    let mut long_label = good.clone();
    long_label[12] = 64;
    assert_eq!(parse_query(&long_label).err(), Some(QueryError::Malformed));
    let mut pointer = good.clone();
    pointer[12] = 0xc0;
    assert_eq!(parse_query(&pointer).err(), Some(QueryError::Malformed));
    let mut overrun = good.clone();
    overrun[12] = 60;
    assert_eq!(parse_query(&overrun).err(), Some(QueryError::Malformed));
    assert_eq!(parse_query(&good[..good.len() - 1].to_vec()).err(), Some(QueryError::Malformed));
    assert_eq!(parse_query(&good[..good.len() - 5].to_vec()).err(), Some(QueryError::Malformed));
    assert_eq!(parse_query(&good[..12].to_vec()).err(), Some(QueryError::Malformed));
}

#[test]
fn a_name_of_more_than_255_bytes_is_refused() {
    let label = "a".repeat(63);
    let fits = format!("{}.{}.{}.{}", label, label, label, "b".repeat(61));
    let m = query(1, &fits, 1);
    assert_eq!(m.len(), 12 + 255 + 4);
    assert_eq!(parse_query(&m).unwrap().name, Some(fits));
    let over = format!("{}.{}.{}.{}", label, label, label, "b".repeat(62));
    assert_eq!(parse_query(&query(1, &over, 1)).err(), Some(QueryError::Malformed));
}

#[test]
fn the_address_reply_byte_by_byte() {
    let q = query(0x1234, "a.io", 1);
    let reply = build_address_reply(&q, q.len(), ipv4(10, 0, 0, 2), 2);
    let expected: Vec<u8> = vec![
        0x12, 0x34, 0x81, 0x80, 0, 1, 0, 1, 0, 0, 0, 0, // header
        1, b'a', 2, b'i', b'o', 0, 0, 1, 0, 1, // question
        0xc0, 0x0c, 0, 1, 0, 1, 0, 0, 0, 2, 0, 4, 10, 0, 0, 2, // answer
    ];
    assert_eq!(reply, expected);
}

#[test]
fn the_error_replies_byte_by_byte() {
    let mut q = query(0xabcd, "a.io", 1);
    q[2] = 0x00;
    assert_eq!(build_format_error(&q), vec![0xab, 0xcd, 0x80, 0x81, 0, 0, 0, 0, 0, 0, 0, 0]);
    q[2] = 0x29;
    assert_eq!(build_format_error(&q), vec![0xab, 0xcd, 0xa9, 0x81, 0, 0, 0, 0, 0, 0, 0, 0]);
    q[2] = 0x01;
    assert_eq!(
        build_server_failure(&q, q.len()),
        vec![
            0xab, 0xcd, 0x81, 0x82, 0, 1, 0, 0, 0, 0, 0, 0, 1, b'a', 2, b'i', b'o', 0, 0, 1, 0, 1
        ]
    );
}

#[test]
fn a_query_for_an_address_gets_a_virtual_one() {
    let dns = FakeDNS::new(2, Vec::new());
    let mut s = store();
    let q = query(1, "a.example.com", 1);
    let r = dns.handle_query(&q, &mut s, 1_000);
    let ip = s.lookup_ip("a.example.com").unwrap();
    assert_eq!(ip, ipv4(10, 0, 0, 2));
    assert_eq!(r, DnsAction::Respond(build_address_reply(&q, q.len(), ip, 2)));
    // asked again while the lease is live: the same address, a longer lease
    let again = dns.handle_query(&query(2, "A.EXAMPLE.com", 1), &mut s, 2_500);
    match again {
        DnsAction::Respond(bytes) => assert_eq!(&bytes[bytes.len() - 4..], &[10, 0, 0, 2]),
        other => panic!("{:?}", other),
    }
    assert_eq!(s.gc(4_499), 0);
    assert_eq!(s.gc(4_500), 1);
    assert_eq!(dns.ttl(), 2);
}

#[test]
fn other_queries_are_handed_on() {
    let dns = FakeDNS::new(2, vec!["lan".to_string(), ".corp.example".to_string()]);
    let mut s = store();
    assert_eq!(dns.handle_query(&query(1, "example.com", 28), &mut s, 0), DnsAction::Forward);
    assert_eq!(dns.handle_query(&query(1, "example.com", 16), &mut s, 0), DnsAction::Forward);
    assert_eq!(dns.handle_query(&query(1, "", 1), &mut s, 0), DnsAction::Forward);
    assert_eq!(dns.handle_query(&query(1, "printer.lan", 1), &mut s, 0), DnsAction::Forward);
    assert_eq!(dns.handle_query(&query(1, "x.corp.example", 1), &mut s, 0), DnsAction::Forward);
    let mut chaos = query(1, "example.com", 1);
    let n = chaos.len();
    chaos[n - 1] = 3;
    assert_eq!(dns.handle_query(&chaos, &mut s, 0), DnsAction::Forward);
    let mut status = query(1, "example.com", 1);
    status[2] = 0x10;
    assert_eq!(dns.handle_query(&status, &mut s, 0), DnsAction::Forward);
    assert_eq!(s.len(), 0);
    assert!(dns.is_passed_through("lan"));
    assert!(!dns.is_passed_through("corp.example"));
    match dns.handle_query(&query(1, "corp.example", 1), &mut s, 0) {
        DnsAction::Respond(_) => {}
        other => panic!("{:?}", other),
    }
    assert_eq!(s.len(), 1);
}

#[test]
fn what_cannot_be_read_is_answered_or_ignored() {
    let dns = FakeDNS::new(2, Vec::new());
    let mut s = store();
    let mut bad = query(0x4242, "example.com", 1);
    bad[12] = 0xc0;
    assert_eq!(
        dns.handle_query(&bad, &mut s, 0),
        DnsAction::Respond(vec![0x42, 0x42, 0x81, 0x81, 0, 0, 0, 0, 0, 0, 0, 0])
    );
    assert_eq!(dns.handle_query(&vec![1, 2, 3], &mut s, 0), DnsAction::Ignore);
    let mut response = query(1, "example.com", 1);
    response[2] = 0x81;
    assert_eq!(dns.handle_query(&response, &mut s, 0), DnsAction::Ignore);
    assert_eq!(s.len(), 0);
}

#[test]
fn an_exhausted_pool_is_a_server_failure() {
    let dns = FakeDNS::new(1, Vec::new());
    let mut s = DomainIPAssociation::new(Ipv4Cidr::parse("10.0.0.0/30").unwrap(), ipv4(10, 0, 1, 1));
    for name in ["one.com", "two.com"] {
        match dns.handle_query(&query(1, name, 1), &mut s, 0) {
            DnsAction::Respond(bytes) => assert_eq!(bytes[3] & 0x0f, 0),
            other => panic!("{:?}", other),
        }
    }
    let q = query(9, "three.com", 1);
    assert_eq!(
        dns.handle_query(&q, &mut s, 0),
        DnsAction::Respond(build_server_failure(&q, q.len()))
    );
    // with two seconds between the queries and a collection in between, all are answered
    let mut t = DomainIPAssociation::new(Ipv4Cidr::parse("10.0.0.0/30").unwrap(), ipv4(10, 0, 1, 1));
    for (i, name) in ["one.com", "two.com", "three.com"].iter().enumerate() {
        let now = i as u64 * 2_000;
        match dns.handle_query(&query(1, name, 1), &mut t, now) {
            DnsAction::Respond(bytes) => {
                assert_eq!(bytes[3] & 0x0f, 0);
                assert_eq!(bytes[7], 1);
            }
            other => panic!("{:?}", other),
        }
        t.gc(now + 1_500);
    }
}

#[test]
fn a_failed_upstream_is_a_server_failure() {
    let q = query(0x0102, "a.io", 28);
    assert_eq!(FakeDNS::upstream_failed(&q), Some(build_server_failure(&q, q.len())));
    let mut odd = q.clone();
    odd[12] = 0xc0;
    assert_eq!(
        FakeDNS::upstream_failed(&odd),
        Some(vec![0x01, 0x02, 0x81, 0x82, 0, 0, 0, 0, 0, 0, 0, 0])
    );
    assert_eq!(FakeDNS::upstream_failed(&vec![0; 11]), None);
}

#[test]
fn a_long_response_is_cut_down_for_udp() {
    let q = query(0x0102, "a.io", 16);
    let mut long = q.clone();
    long[2] = 0x81;
    long[3] = 0x80;
    long[7] = 3;
    long.resize(513, 0x55);
    let cut = fit_for_udp(long.clone());
    let mut expected = vec![0x01, 0x02, 0x83, 0x80, 0, 1, 0, 0, 0, 0, 0, 0];
    expected.extend_from_slice(&q[12..]);
    assert_eq!(cut, expected);
    // one that fits is sent as it is
    long.truncate(512);
    assert_eq!(fit_for_udp(long.clone()), long);
    assert_eq!(fit_for_udp(Vec::new()), Vec::<u8>::new());
    // one whose question cannot be read keeps its header only
    let mut odd = vec![0x01, 0x02, 0x83, 0x83, 0, 2, 0, 9, 0, 0, 0, 0];
    odd.resize(600, 1);
    assert_eq!(fit_for_udp(odd), vec![0x01, 0x02, 0x83, 0x83, 0, 0, 0, 0, 0, 0, 0, 0]);
}

#[test]
fn the_query_for_an_address_byte_by_byte() {
    assert_eq!(
        build_query(0x1234, "a.io"),
        Some(vec![
            0x12, 0x34, 1, 0, 0, 1, 0, 0, 0, 0, 0, 0, 1, b'a', 2, b'i', b'o', 0, 0, 1, 0, 1
        ])
    );
    assert_eq!(build_query(7, "Example.COM"), Some(query(7, "Example.COM", 1)));
}

#[test]
fn a_name_that_no_message_can_hold_gets_no_query() {
    assert_eq!(build_query(1, ""), None);
    assert_eq!(build_query(1, "example.com."), None);
    assert_eq!(build_query(1, ".example.com"), None);
    assert_eq!(build_query(1, "a..b"), None);
    assert_eq!(build_query(1, "a b.com"), None);
    assert_eq!(build_query(1, "caf\u{e9}.fr"), None);
    assert_eq!(build_query(1, &format!("{}.com", "a".repeat(64))), None);
    assert!(build_query(1, &format!("{}.com", "a".repeat(63))).is_some());
    let label = "a".repeat(63);
    let fits = format!("{}.{}.{}.{}", label, label, label, "b".repeat(61));
    assert_eq!(build_query(1, &fits).unwrap().len(), 12 + 255 + 4);
    let over = format!("{}.{}.{}.{}", label, label, label, "b".repeat(62));
    assert_eq!(build_query(1, &over), None);
}

#[test]
fn what_is_asked_is_read_back() {
    for name in ["a.io", "www.Example.com", "xn--bcher-kva.example", "_dmarc.a-b.c0"] {
        let m = build_query(0xfeed, name).unwrap();
        let q = parse_query(&m).unwrap();
        assert_eq!(q.name, Some(name.to_lowercase()));
        assert_eq!((q.qtype, q.qclass, q.end), (1, 1, m.len()));
    }
}

fn response(id: u16, flags: [u8; 2], name: &str, records: &[(u16, u16, &[u8])]) -> Vec<u8> {
    let mut m = query(id, name, 1);
    m[2] = flags[0];
    m[3] = flags[1];
    m[7] = records.len() as u8;
    for (rtype, class, data) in records {
        m.extend_from_slice(&[0xc0, 0x0c]);
        m.extend_from_slice(&rtype.to_be_bytes());
        m.extend_from_slice(&class.to_be_bytes());
        m.extend_from_slice(&[0, 0, 0, 60]);
        m.extend_from_slice(&(data.len() as u16).to_be_bytes());
        m.extend_from_slice(data);
    }
    m
}

#[test]
fn the_first_address_of_a_response_is_read() {
    let cname: &[u8] = &[3, b'c', b'd', b'n', 0xc0, 0x0c];
    let m = response(
        9,
        [0x81, 0x80],
        "foo.org",
        &[(5, 1, cname), (1, 1, &[93, 184, 216, 34]), (1, 1, &[1, 1, 1, 1])],
    );
    assert_eq!(first_address(&m, 9), Some(ipv4(93, 184, 216, 34)));
    // another identifier, a query, an error, or no address
    assert_eq!(first_address(&m, 10), None);
    let asked = response(9, [0x01, 0x00], "foo.org", &[(1, 1, &[1, 2, 3, 4])]);
    assert_eq!(first_address(&asked, 9), None);
    let refused = response(9, [0x81, 0x83], "foo.org", &[(1, 1, &[1, 2, 3, 4])]);
    assert_eq!(first_address(&refused, 9), None);
    let none = response(9, [0x81, 0x80], "foo.org", &[(5, 1, cname), (28, 1, &[0; 16])]);
    assert_eq!(first_address(&none, 9), None);
    let other_class = response(9, [0x81, 0x80], "foo.org", &[(1, 3, &[1, 2, 3, 4])]);
    assert_eq!(first_address(&other_class, 9), None);
    let odd_length = response(9, [0x81, 0x80], "foo.org", &[(1, 1, &[1, 2, 3])]);
    assert_eq!(first_address(&odd_length, 9), None);
    assert_eq!(first_address(&vec![0, 9, 0x81], 9), None);
}

#[test]
fn a_response_that_ends_early_gives_no_address() {
    let m = response(9, [0x81, 0x80], "foo.org", &[(1, 1, &[93, 184, 216, 34])]);
    for cut in 12..m.len() {
        assert_eq!(first_address(&m[..cut].to_vec(), 9), None, "cut at {}", cut);
    }
    assert_eq!(first_address(&m, 9), Some(ipv4(93, 184, 216, 34)));
    // a record that says it is longer than the message
    let mut long = m.clone();
    let n = long.len();
    long[n - 5] = 5;
    assert_eq!(first_address(&long, 9), None);
    // a response without a question
    let mut bare = vec![0, 9, 0x81, 0x80, 0, 0, 0, 1, 0, 0, 0, 0];
    bare.extend_from_slice(&[1, b'a', 0, 0, 1, 0, 1, 0, 0, 0, 9, 0, 4, 10, 9, 8, 7]);
    assert_eq!(first_address(&bare, 9), Some(ipv4(10, 9, 8, 7)));
}

#[test]
fn the_answer_of_the_fake_resolver_is_read_back() {
    let dns = FakeDNS::new(2, Vec::new());
    let mut s = store();
    for (i, name) in ["a.io", "www.example.com", "x-1.y_2.z"].iter().enumerate() {
        let id = 0x4000 + i as u16;
        let q = build_query(id, name).unwrap();
        match dns.handle_query(&q, &mut s, 0) {
            DnsAction::Respond(bytes) => {
                assert_eq!(first_address(&bytes, id), s.lookup_ip(name));
                assert!(first_address(&bytes, id).is_some());
                assert_eq!(first_address(&bytes, id + 1), None);
            }
            other => panic!("{:?}", other),
        }
    }
}
