use authdns::dns::compression::Compressed;
use authdns::dns::data::RData;
use authdns::dns::header::{DNSHeader, Rcode, TcpHeaderField};
use authdns::dns::name::DNSName;
use authdns::dns::question::{DNSQuestion, Question};
use authdns::dns::record::DNSRecord;
use authdns::dns::response::Response;
use authdns::dns::rtypes::{to_int, RType};
use authdns::kv::KvStore;
use authdns::nameserver::records::Records;
use authdns::servers::shared::{emit, handle_dns_packet1, overwrite_front, resolve, AppData};

fn server(lines: &[&str], use_kv: bool) -> AppData {
    let records = Records::from_lines(lines);
    assert_eq!(records.len(), lines.len());
    AppData { records, kv: KvStore::default(), use_kv, compression: true }
}

fn query(id: u16, name: &str, qtype: RType) -> Vec<u8> {
    let mut out = vec![(id >> 8) as u8, (id & 0xFF) as u8, 0x01, 0x00, 0, 1, 0, 0, 0, 0, 0, 0];
    for label in name.split('.').filter(|l| !l.is_empty()) {
        out.push(label.len() as u8);
        out.extend_from_slice(label.as_bytes());
    }
    out.push(0);
    let code = to_int(qtype);
    out.extend_from_slice(&[(code >> 8) as u8, (code & 0xFF) as u8, 0, 1]);
    out
}

fn framed(msg: &[u8]) -> Vec<u8> {
    let mut out = vec![(msg.len() >> 8) as u8, (msg.len() & 0xFF) as u8];
    out.extend_from_slice(msg);
    out
}

fn parsed(bytes: &[u8], tcp: bool) -> Question {
    let q = Question::read(bytes, tcp).unwrap();
    assert_eq!(q.header.ancount as usize, q.answer.len());
    assert_eq!(q.header.nscount as usize, q.authority.len());
    assert_eq!(q.header.arcount as usize, q.additional.len());
    q
}

fn text_of(record: &DNSRecord) -> Vec<u8> {
    match &record.rdata {
        RData::Text(t) => t.content(),
        _ => panic!("text expected"),
    }
}

#[test]
fn address_record_is_answered() {
    let mut ad = server(&["example.com A 127.0.0.1"], false);
    let out = handle_dns_packet1(&mut ad, &query(0x1234, "example.com", RType::A), false);
    let mut expected = vec![0x12, 0x34, 0x84, 0x00, 0, 1, 0, 1, 0, 0, 0, 0];
    expected.extend_from_slice(b"\x07example\x03com\x00\x00\x01\x00\x01");
    expected.extend_from_slice(b"\x07example\x03com\x00\x00\x01\x00\x01\x00\x00\x00\x3c\x00\x04");
    expected.extend_from_slice(&[127, 0, 0, 1]);
    assert_eq!(out, expected);

    let r = parsed(&out, false);
    assert_eq!(r.header.id, 0x1234);
    assert_eq!((r.header.qr, r.header.aa, r.header.tc), (1, 1, 0));
    assert_eq!((r.header.opcode, r.header.rd, r.header.ra, r.header.z), (0, 0, 0, 0));
    assert_eq!(r.header.rcode, Rcode::NoError);
    assert_eq!(r.header.qdcount, 1);
    assert_eq!(r.header.ancount, 1);
    assert_eq!(r.answer.0[0], DNSRecord::try_from("example.com A 127.0.0.1").unwrap());
    assert_eq!(
        r.question,
        DNSQuestion { qname: DNSName::from_url("example.com"), qtype: RType::A, qclass: 1 }
    );
}

#[test]
fn delegation_comes_with_glue() {
    let mut ad = server(
        &["sub.example.com NS ns1.example.com", "ns1.example.com A 10.0.0.2"],
        false,
    );
    let out = handle_dns_packet1(&mut ad, &query(7, "x.sub.example.com", RType::A), false);
    let r = parsed(&out, false);
    assert_eq!(r.header.rcode, Rcode::NoError);
    assert_eq!((r.header.ancount, r.header.nscount, r.header.arcount), (0, 1, 1));
    assert_eq!(
        r.authority.0[0],
        DNSRecord::try_from("sub.example.com NS ns1.example.com").unwrap()
    );
    assert_eq!(r.additional.0[0], DNSRecord::try_from("ns1.example.com A 10.0.0.2").unwrap());
}

#[test]
fn unknown_name_is_not_found() {
    let mut ad = server(&["example.com A 127.0.0.1"], false);
    let out = handle_dns_packet1(&mut ad, &query(0xABCD, "nope.test", RType::A), false);
    let r = parsed(&out, false);
    assert_eq!(r.header.id, 0xABCD);
    assert_eq!(r.header.rcode, Rcode::NxDomain);
    assert_eq!(r.header.rcode.code(), 3);
    assert_eq!((r.header.ancount, r.header.nscount, r.header.arcount), (0, 0, 0));
    assert_eq!(out.len(), 12 + 11 + 4);
}

#[test]
fn address_in_a_name_is_routed() {
    let mut ad = server(&["example.com A 127.0.0.1"], false);
    let out = handle_dns_packet1(&mut ad, &query(1, "1.2.3.4.ip.henryn.ca", RType::A), false);
    let r = parsed(&out, false);
    assert_eq!(r.header.rcode, Rcode::NoError);
    assert_eq!(r.header.ancount, 1);
    assert_eq!(r.answer.0[0].rdata, RData::Vec(vec![1, 2, 3, 4]));
    assert_eq!(r.answer.0[0].rtype, RType::A);
    assert_eq!(r.answer.0[0].ttl, 0);

    let out = handle_dns_packet1(&mut ad, &query(1, "ip.henryn.ca", RType::A), false);
    assert_eq!(parsed(&out, false).answer.0[0].rdata, RData::Vec(vec![10, 0, 0, 1]));
}

#[test]
fn address_spelled_with_dashes_is_refused() {
    let mut ad = server(&[], false);
    let out = handle_dns_packet1(&mut ad, &query(1, "1-2-3-4.ip.henryn.ca", RType::A), false);
    let r = parsed(&out, false);
    assert_eq!(r.header.rcode, Rcode::Refused);
    assert_eq!(r.header.ancount, 0);
}

#[test]
fn name_that_spells_no_address_is_refused() {
    let mut ad = server(&["xx.yy.zz.ww.ip.henryn.ca A 1.1.1.1"], false);
    let out = handle_dns_packet1(&mut ad, &query(1, "xx.yy.zz.ww.ip.henryn.ca", RType::A), false);
    let r = parsed(&out, false);
    assert_eq!(r.header.rcode, Rcode::Refused);
    assert_eq!((r.header.ancount, r.header.nscount, r.header.arcount), (0, 0, 0));
}

#[test]
fn store_write_then_read() {
    let mut ad = server(&["foo A 1.2.3.4"], true);
    let first = handle_dns_packet1(&mut ad, &query(1, "foo.bar", RType::A), false);
    let r = parsed(&first, false);
    assert_eq!(r.header.rcode, Rcode::NoError);
    assert_eq!(r.header.ancount, 1);

    let second = handle_dns_packet1(&mut ad, &query(2, "foo", RType::TXT), false);
    let r = parsed(&second, false);
    assert_eq!(r.header.id, 2);
    assert_eq!(r.header.rcode, Rcode::NoError);
    assert_eq!((r.header.ancount, r.header.nscount, r.header.arcount), (1, 0, 0));
    assert_eq!(r.answer.0[0].rtype, RType::TXT);
    assert_eq!(r.answer.0[0].name, DNSName::from_url("foo"));
    assert_eq!(text_of(&r.answer.0[0]), b"bar".to_vec());
    // the record's data on the wire: length 4, then the string of three bytes
    assert_eq!(&second[second.len() - 6..], b"\x00\x04\x03bar");

    let third = handle_dns_packet1(&mut ad, &query(3, "a.b.c", RType::TXT), false);
    assert_eq!(parsed(&third, false).header.rcode, Rcode::ServerFailure);
    let fourth = handle_dns_packet1(&mut ad, &query(4, "missing", RType::TXT), false);
    assert_eq!(parsed(&fourth, false).header.rcode, Rcode::NxDomain);
}

#[test]
fn long_answer_is_truncated_on_a_datagram() {
    let line = format!("big.example.com TXT {}", "t".repeat(600));
    let mut ad = server(&[&line, "big.example.com TXT short"], false);
    let request = query(0x5151, "big.example.com", RType::TXT);
    let out = handle_dns_packet1(&mut ad, &request, false);
    assert!(out.len() <= 512);
    assert_eq!(out.len(), 12 + 17 + 4);
    let r = parsed(&out, false);
    assert_eq!(r.header.id, 0x5151);
    assert_eq!(r.header.tc, 1);
    assert_eq!((r.header.ancount, r.header.nscount, r.header.arcount), (0, 0, 0));
    assert_eq!(r.header.rcode, Rcode::NoError);
    assert_eq!(r.question.qname, DNSName::from_url("big.example.com"));

    // the same over a stream comes whole
    let out = handle_dns_packet1(&mut ad, &framed(&request), true);
    assert!(out.len() > 514);
    let r = parsed(&out, true);
    assert_eq!(r.header.tc, 0);
    assert_eq!(r.header.ancount, 2);
    assert_eq!(text_of(&r.answer.0[0]).len(), 600);
    assert_eq!(text_of(&r.answer.0[1]), b"short".to_vec());
}

#[test]
fn datagram_of_512_bytes_goes_out_whole() {
    // header 12, question 7 + 4, record 7 + 10 + data; data = text + counts
    // 512 = 12 + 11 + 17 + 472: a text of 470 bytes takes 472
    let line = format!("a.bcd TXT {}", "t".repeat(470));
    let mut ad = server(&[&line], false);
    let out = handle_dns_packet1(&mut ad, &query(1, "a.bcd", RType::TXT), false);
    assert_eq!(out.len(), 512);
    let r = parsed(&out, false);
    assert_eq!((r.header.tc, r.header.ancount), (0, 1));

    let line = format!("a.bcd TXT {}", "t".repeat(471));
    let mut ad = server(&[&line], false);
    let out = handle_dns_packet1(&mut ad, &query(1, "a.bcd", RType::TXT), false);
    assert_eq!(out.len(), 23);
    let r = parsed(&out, false);
    assert_eq!((r.header.tc, r.header.ancount), (1, 0));
}

#[test]
fn datagram_is_short_or_truncated() {
    let predefined = Records::predefined();
    let names = [
        "henryn.xyz",
        "a.henryn.xyz",
        "www1.henryn.xyz",
        "a.www2.henryn.xyz",
        "acme.www2.henryn.xyz",
        "b.www2.henryn.xyz",
        "xyz",
        "nothing.example",
    ];
    for compression in [true, false] {
        let mut ad = AppData {
            records: Records::from_vec(authdns::dns::record::clone_records(&predefined.inner)),
            kv: KvStore::default(),
            use_kv: false,
            compression,
        };
        for name in names {
            for qtype in [RType::A, RType::NS, RType::CNAME, RType::TXT, RType::AAAA] {
                let out = handle_dns_packet1(&mut ad, &query(1, name, qtype), false);
                let r = parsed(&out, false);
                assert!(
                    out.len() <= 512
                        || (r.header.tc == 1
                            && r.header.ancount == 0
                            && r.header.nscount == 0
                            && r.header.arcount == 0)
                );
                // the long text is an answer or, for another type, additional
                assert_eq!(r.header.tc == 1, name == "acme.www2.henryn.xyz");
            }
        }
    }
}

#[test]
fn stream_response_starts_with_its_length() {
    let mut ad = server(
        &[
            "example.com A 127.0.0.1",
            "example.com NS ns1.example.com",
            "ns1.example.com A 10.0.0.2",
        ],
        false,
    );
    for (name, qtype) in [
        ("example.com", RType::A),
        ("example.com", RType::NS),
        ("www.example.com", RType::A),
        ("nope.test", RType::TXT),
        ("1.2.3.4.ip.henryn.ca", RType::A),
        ("example.com", RType::Unknown(999)),
    ] {
        let out = handle_dns_packet1(&mut ad, &framed(&query(0x0102, name, qtype)), true);
        assert!(out.len() >= 14);
        assert_eq!(((out[0] as usize) << 8) | out[1] as usize, out.len() - 2);
        let r = parsed(&out, true);
        assert_eq!(r.header.id, 0x0102);
        assert_eq!(r.header.tcp_header_field, TcpHeaderField(Some((out.len() - 2) as u16)));
        // without its length bytes, the message is the one a datagram gets
        let plain = handle_dns_packet1(&mut ad, &query(0x0102, name, qtype), false);
        assert_eq!(&out[2..], &plain[..]);
    }
}

#[test]
fn pointers_in_a_stream_response_count_from_the_header() {
    let mut ad = server(
        &["example.com NS ns1.example.com", "example.com NS ns1.example.com"],
        false,
    );
    let out = handle_dns_packet1(&mut ad, &framed(&query(1, "example.com", RType::NS)), true);
    // the question's name is at offset 12 of the message and is remembered,
    // for the queried type supports compression
    let mut expected = vec![0, 0, 0, 1, 0x84, 0, 0, 1, 0, 0, 0, 2, 0, 0];
    expected.extend_from_slice(b"\x07example\x03com\x00\x00\x02\x00\x01");
    expected.extend_from_slice(b"\xC0\x0C\x00\x02\x00\x01\x00\x00\x00\x3c\x00\x06\x03ns1\xC0\x0C");
    expected.extend_from_slice(b"\xC0\x0C\x00\x02\x00\x01\x00\x00\x00\x3c\x00\x06\x03ns1\xC0\x0C");
    expected[1] = (expected.len() - 2) as u8;
    assert_eq!(out, expected);
    let r = parsed(&out, true);
    assert_eq!(r.authority.0[1], DNSRecord::try_from("example.com NS ns1.example.com").unwrap());
}

#[test]
fn compression_can_be_switched_off() {
    let lines = ["example.com NS ns1.example.com", "example.com NS ns1.example.com"];
    let mut on = server(&lines, false);
    let mut off = server(&lines, false);
    off.compression = false;
    let request = query(1, "example.com", RType::NS);
    let packed = handle_dns_packet1(&mut on, &request, false);
    let plain = handle_dns_packet1(&mut off, &request, false);
    assert_eq!(packed.len(), 12 + 17 + 2 * 18);
    assert_eq!(plain.len(), 12 + 17 + 2 * (13 + 10 + 17));
    assert!(!plain.contains(&0xC0));
    let a = parsed(&packed, false);
    let b = parsed(&plain, false);
    assert_eq!(a.authority, b.authority);
    assert_eq!(a.header, b.header);
}

#[test]
fn unknown_type_is_not_implemented() {
    for use_kv in [false, true] {
        let mut ad = server(&["example.com A 127.0.0.1"], use_kv);
        let out = handle_dns_packet1(&mut ad, &query(5, "example.com", RType::Unknown(12345)), false);
        let r = parsed(&out, false);
        assert_eq!(r.header.rcode, Rcode::NotImplemented);
        assert_eq!((r.header.ancount, r.header.nscount, r.header.arcount), (0, 0, 0));
        assert_eq!(r.question.qtype, RType::Unknown(12345));
        let out = handle_dns_packet1(&mut ad, &query(5, "k.v", RType::Unknown(0)), false);
        assert_eq!(parsed(&out, false).header.rcode, Rcode::NotImplemented);
        assert_eq!(ad.kv.get(b"k"), None);
    }
}

#[test]
fn request_that_cannot_be_read_gets_no_answer() {
    let mut ad = server(&["example.com A 127.0.0.1"], false);
    let good = query(1, "example.com", RType::A);
    assert!(handle_dns_packet1(&mut ad, &[], false).is_empty());
    assert!(handle_dns_packet1(&mut ad, &[], true).is_empty());
    assert!(handle_dns_packet1(&mut ad, &good[..11], false).is_empty());
    assert!(handle_dns_packet1(&mut ad, &good[..good.len() - 1], false).is_empty());
    let mut reserved = good.clone();
    reserved[12] = 0x47;
    assert!(handle_dns_packet1(&mut ad, &reserved, false).is_empty());
    let mut counted = good.clone();
    counted[7] = 1;
    assert!(handle_dns_packet1(&mut ad, &counted, false).is_empty());
    let mut code = good.clone();
    code[3] = 0x0F;
    assert!(handle_dns_packet1(&mut ad, &code, false).is_empty());
    assert!(!handle_dns_packet1(&mut ad, &good, false).is_empty());
}

#[test]
fn request_with_an_option_record_is_answered() {
    let mut ad = server(&["example.com A 127.0.0.1"], false);
    let mut request = query(0x0909, "example.com", RType::A);
    request[11] = 1;
    request.extend_from_slice(&[0, 0, 41, 0x10, 0, 0, 0, 0, 0, 0, 0]);
    let out = handle_dns_packet1(&mut ad, &request, false);
    let r = parsed(&out, false);
    assert_eq!(r.header.rcode, Rcode::NoError);
    assert_eq!((r.header.ancount, r.header.arcount), (1, 0));
}

#[test]
fn question_name_behind_pointers_is_written_in_full() {
    let mut ad = server(&["example.com A 127.0.0.1"], false);
    // the name "example" + pointer to "com" that stands behind the question
    let mut request = vec![0, 9, 0x01, 0x00, 0, 1, 0, 0, 0, 0, 0, 0];
    request.extend_from_slice(b"\x07example\xC0\x1A\x00\x01\x00\x01");
    assert_eq!(request.len(), 26);
    request.extend_from_slice(b"\x03com\x00");
    let out = handle_dns_packet1(&mut ad, &request, false);
    let r = parsed(&out, false);
    assert_eq!(r.header.ancount, 1);
    assert_eq!(&out[12..25], b"\x07example\x03com\x00");
}

#[test]
fn emit_follows_the_length_rules() {
    let question = DNSQuestion { qname: DNSName::from_url("a.test"), qtype: RType::A, qclass: 1 };
    let record = DNSRecord {
        name: DNSName::from_url("a.test"),
        rtype: RType::Unknown(300),
        class: 1,
        ttl: 1,
        rdata: RData::Vec(vec![0; 480]),
    };
    // 12 + 12 + (8 + 10 + 480) = 522 bytes
    let whole = Response::new(1, question.clone(), vec![record.clone()], vec![], vec![], false, Rcode::NoError);
    let out = emit(whole);
    assert_eq!(out.len(), 24);
    assert_eq!(out[2] & 0x02, 0x02);
    assert_eq!(&out[4..12], &[0, 1, 0, 0, 0, 0, 0, 0]);

    // a response that is already marked goes out as it is
    let mut marked = Response::new(1, question.clone(), vec![record.clone()], vec![], vec![], false, Rcode::NoError);
    marked.header.tc = 1;
    let out = emit(marked);
    assert_eq!(out.len(), 522);
    assert_eq!(&out[4..12], &[0, 1, 0, 1, 0, 0, 0, 0]);

    let stream = Response::new(1, question.clone(), vec![record.clone()], vec![], vec![], true, Rcode::NoError);
    let out = emit(stream);
    assert_eq!(out.len(), 524);
    assert_eq!(&out[..2], &[0x02, 0x0A]);
    assert_eq!(out[4] & 0x02, 0);
}

#[test]
fn stream_response_too_long_for_its_length_field_is_not_sent() {
    let question = DNSQuestion { qname: DNSName::from_url("a.test"), qtype: RType::A, qclass: 1 };
    let record = DNSRecord {
        name: DNSName::from_url("a.test"),
        rtype: RType::Unknown(300),
        class: 1,
        ttl: 1,
        rdata: RData::Vec(vec![0; 0xFFFF]),
    };
    let stream = Response::new(1, question.clone(), vec![record.clone()], vec![], vec![], true, Rcode::NoError);
    assert!(emit(stream).is_empty());
    let datagram = Response::new(1, question.clone(), vec![record.clone()], vec![], vec![], false, Rcode::NoError);
    let out = emit(datagram);
    assert_eq!(out.len(), 24);

    // the longest that fits: 12 + 12 + 18 + data = 65535
    let fits = DNSRecord { rdata: RData::Vec(vec![0; 65535 - 42]), ..record };
    let stream = Response::new(1, question, vec![fits], vec![], vec![], true, Rcode::NoError);
    let out = emit(stream);
    assert_eq!(out.len(), 65537);
    assert_eq!(&out[..2], &[0xFF, 0xFF]);
}

#[test]
fn overwrite_front_replaces_the_first_bytes() {
    let mut out = vec![1, 2, 3, 4, 5];
    overwrite_front(&mut out, &[9, 8]);
    assert_eq!(out, vec![9, 8, 3, 4, 5]);
    overwrite_front(&mut out, &[]);
    assert_eq!(out, vec![9, 8, 3, 4, 5]);
    overwrite_front(&mut out, &[0, 0, 0, 0, 0]);
    assert_eq!(out, vec![0; 5]);
}

#[test]
fn resolve_picks_the_resolver() {
    let request = |name: &str, qtype: RType| Question::read(&query(3, name, qtype), false).unwrap();
    let mut zone = server(&["foo A 1.2.3.4"], false);
    let r = resolve(&mut zone, request("foo", RType::A), false);
    assert_eq!(r.answer.0[0].rdata, RData::Vec(vec![1, 2, 3, 4]));
    let r = resolve(&mut zone, request("foo.bar", RType::A), false);
    assert_eq!(r.header.rcode, Rcode::NxDomain);
    assert_eq!(zone.kv.get(b"foo"), None);

    let mut kv = server(&["foo A 1.2.3.4"], true);
    let r = resolve(&mut kv, request("foo", RType::A), false);
    assert_eq!(r.header.rcode, Rcode::NxDomain);
    let r = resolve(&mut kv, request("1.2.3.4.ip.henryn.ca", RType::A), false);
    assert_eq!(r.header.rcode, Rcode::ServerFailure);
    let r = resolve(&mut kv, request("foo.bar", RType::A), true);
    assert_eq!(r.header.ancount, 1);
    assert_eq!(kv.kv.get(b"foo"), Some(&b"bar".to_vec()));
    assert!(r.compress.is_tcp);
}

#[test]
fn header_written_by_hand_matches() {
    let h = DNSHeader {
        tcp_header_field: TcpHeaderField(None),
        id: 0x1234,
        qr: 0,
        opcode: 0,
        aa: 0,
        tc: 0,
        rd: 1,
        ra: 0,
        z: 0,
        rcode: Rcode::NoError,
        qdcount: 1,
        ancount: 0,
        nscount: 0,
        arcount: 0,
    };
    let mut out = Vec::new();
    h.write(&mut out);
    let q = DNSQuestion { qname: DNSName::from_url("example.com"), qtype: RType::A, qclass: 1 };
    q.write(&mut out, &mut Compressed::new(false));
    assert_eq!(out, query(0x1234, "example.com", RType::A));
}
