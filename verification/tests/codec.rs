use authdns::dns::compression::Compressed;
use authdns::dns::data::RData;
use authdns::dns::header::{response_header, DNSHeader, Rcode, TcpHeaderField, TRUNCATE_BYTES};
use authdns::dns::name::DNSName;
use authdns::dns::question::{DNSQuestion, Question};
use authdns::dns::record::{clone_records, DNSRecord, VecDNSRecord};
use authdns::dns::rtypes::{from_int, to_int, ContainsIP, RType};
use authdns::dns::text::{write_text, DNSText};
use authdns::dns::wire::{
    append_bytes, bytes_eq, copy_range, read_u16, read_u32, write_u16, write_u32,
};
use authdns::errors::WireError;

fn a_record(name: &str, ip: [u8; 4]) -> DNSRecord {
    DNSRecord {
        name: DNSName::from_url(name),
        rtype: RType::A,
        class: 1,
        ttl: 60,
        rdata: RData::Vec(ip.to_vec()),
    }
}

fn ns_record(name: &str, target: &str) -> DNSRecord {
    DNSRecord {
        name: DNSName::from_url(name),
        rtype: RType::NS,
        class: 1,
        ttl: 60,
        rdata: RData::Name(DNSName::from_url(target)),
    }
}

fn plain_header(id: u16) -> DNSHeader {
    DNSHeader {
        tcp_header_field: TcpHeaderField(None),
        id,
        qr: 0,
        opcode: 0,
        aa: 0,
        tc: 0,
        rd: 0,
        ra: 0,
        z: 0,
        rcode: Rcode::NoError,
        qdcount: 1,
        ancount: 0,
        nscount: 0,
        arcount: 0,
    }
}

#[test]
fn integers_go_out_in_network_order() {
    let mut out = vec![9u8];
    write_u16(&mut out, 0x1234);
    write_u16(&mut out, 0);
    write_u16(&mut out, 0xFFFF);
    write_u32(&mut out, 0x0102_0304);
    write_u32(&mut out, 0xFFFF_FFFE);
    assert_eq!(
        out,
        vec![9, 0x12, 0x34, 0, 0, 0xFF, 0xFF, 1, 2, 3, 4, 0xFF, 0xFF, 0xFF, 0xFE]
    );
    assert_eq!(read_u16(&out, 1), Some(0x1234));
    assert_eq!(read_u16(&out, 5), Some(0xFFFF));
    assert_eq!(read_u32(&out, 7), Some(0x0102_0304));
    assert_eq!(read_u32(&out, 11), Some(0xFFFF_FFFE));
    assert_eq!(read_u16(&out, 13), Some(0xFFFE));
    assert_eq!(read_u16(&out, 14), None);
    assert_eq!(read_u16(&out, 15), None);
    assert_eq!(read_u16(&out, usize::MAX), None);
    assert_eq!(read_u32(&out, 12), None);
    assert_eq!(read_u32(&out, usize::MAX - 1), None);
}

#[test]
fn byte_helpers() {
    assert!(bytes_eq(b"abc", b"abc"));
    assert!(bytes_eq(b"", b""));
    assert!(!bytes_eq(b"abc", b"abd"));
    assert!(!bytes_eq(b"abc", b"ab"));
    let mut out = vec![1u8];
    append_bytes(&mut out, b"xy");
    append_bytes(&mut out, b"");
    assert_eq!(out, vec![1, b'x', b'y']);
    assert_eq!(copy_range(b"hello", 1, 3), b"el".to_vec());
    assert_eq!(copy_range(b"hello", 5, 5), Vec::<u8>::new());
}

#[test]
fn record_type_codes() {
    let known = [
        (RType::A, 1u16),
        (RType::NS, 2),
        (RType::CNAME, 5),
        (RType::TXT, 16),
        (RType::AAAA, 28),
        (RType::OPT, 41),
        (RType::DS, 43),
        (RType::HTTPS, 65),
        (RType::CAA, 257),
    ];
    for (rtype, code) in known {
        assert_eq!(to_int(rtype), code);
        assert_eq!(from_int(code), rtype);
    }
    assert_eq!(from_int(0), RType::Unknown(0));
    assert_eq!(from_int(255), RType::Unknown(255));
    assert_eq!(from_int(65535), RType::Unknown(65535));
    assert_eq!(to_int(RType::Unknown(1234)), 1234);
    for code in [0u16, 1, 2, 3, 5, 16, 28, 41, 43, 65, 257, 258, 40000, 65535] {
        assert_eq!(to_int(from_int(code)), code);
    }
    assert!(RType::Unknown(7).is_unknown());
    assert!(!RType::A.is_unknown());
}

#[test]
fn only_alias_and_name_server_records_compress() {
    assert!(RType::CNAME.supports_compression());
    assert!(RType::NS.supports_compression());
    for rtype in [
        RType::A,
        RType::OPT,
        RType::AAAA,
        RType::TXT,
        RType::HTTPS,
        RType::CAA,
        RType::DS,
        RType::Unknown(2),
    ] {
        assert!(!rtype.supports_compression());
    }
}

#[test]
fn contains_ip_is_yes_for_addresses_only() {
    assert_eq!(ContainsIP::from_class(RType::A), ContainsIP::Yes);
    assert_eq!(ContainsIP::from_class(RType::AAAA), ContainsIP::No);
    assert_eq!(ContainsIP::from_class(RType::NS), ContainsIP::No);
    assert_eq!(ContainsIP::from_class(RType::Unknown(1)), ContainsIP::No);
}

#[test]
fn response_codes() {
    let all = [
        Rcode::NoError,
        Rcode::FormatError,
        Rcode::ServerFailure,
        Rcode::NxDomain,
        Rcode::NotImplemented,
        Rcode::Refused,
        Rcode::YXDomain,
        Rcode::YXRRSet,
        Rcode::NotAuth,
        Rcode::NotZone,
    ];
    for (i, rcode) in all.iter().enumerate() {
        assert_eq!(rcode.code() as usize, i);
        assert_eq!(Rcode::from_code(i as u8), Some(*rcode));
    }
    for code in 10..=255u8 {
        assert_eq!(Rcode::from_code(code), None);
    }
}

#[test]
fn header_bytes() {
    let h = DNSHeader {
        tcp_header_field: TcpHeaderField(None),
        id: 0xBEEF,
        qr: 1,
        opcode: 0b1010,
        aa: 1,
        tc: 0,
        rd: 1,
        ra: 1,
        z: 0b101,
        rcode: Rcode::Refused,
        qdcount: 1,
        ancount: 0x0203,
        nscount: 4,
        arcount: 0xFFFF,
    };
    let mut out = Vec::new();
    h.write(&mut out);
    assert_eq!(
        out,
        vec![0xBE, 0xEF, 0b1101_0101, 0b1101_0101, 0, 1, 2, 3, 0, 4, 0xFF, 0xFF]
    );
    assert_eq!(DNSHeader::read(&out, false), Ok((h, 12)));

    let stream = DNSHeader { tcp_header_field: TcpHeaderField(Some(0x0102)), tc: 1, ..h };
    let mut out = Vec::new();
    stream.write(&mut out);
    assert_eq!(out.len(), 14);
    assert_eq!(&out[..5], &[1, 2, 0xBE, 0xEF, 0b1101_0111]);
    assert_eq!(DNSHeader::read(&out, true), Ok((stream, 14)));
}

#[test]
fn header_read_failures() {
    let mut out = Vec::new();
    plain_header(7).write(&mut out);
    assert_eq!(DNSHeader::read(&out[..11], false), Err(WireError::Malformed));
    assert_eq!(DNSHeader::read(&out, true), Err(WireError::Malformed));
    assert_eq!(DNSHeader::read(&[], false), Err(WireError::Malformed));
    assert_eq!(DNSHeader::read(&[0], true), Err(WireError::Malformed));
    for code in 10..16u8 {
        let mut bad = out.clone();
        bad[3] = 0x80 | code;
        assert_eq!(DNSHeader::read(&bad, false), Err(WireError::Malformed));
    }
    let mut ok = out.clone();
    ok[3] = 0x89;
    let (h, _) = DNSHeader::read(&ok, false).unwrap();
    assert_eq!(h.rcode, Rcode::NotZone);
    assert_eq!(h.ra, 1);
}

#[test]
fn response_header_fields() {
    let h = response_header(0x1234, 1, 2, 3, false, false, Rcode::NxDomain);
    assert_eq!(
        h,
        DNSHeader {
            tcp_header_field: TcpHeaderField(None),
            id: 0x1234,
            qr: 1,
            opcode: 0,
            aa: 1,
            tc: 0,
            rd: 0,
            ra: 0,
            z: 0,
            rcode: Rcode::NxDomain,
            qdcount: 1,
            ancount: 1,
            nscount: 2,
            arcount: 3,
        }
    );
    let t = response_header(1, 0xFFFF, 0, 0, true, true, Rcode::NoError);
    assert_eq!(t.tcp_header_field, TcpHeaderField(Some(0)));
    assert_eq!(t.tc, 1);
    assert_eq!(t.ancount, 0xFFFF);
}

#[test]
fn length_fixup_of_the_header() {
    assert_eq!(TRUNCATE_BYTES, 512);
    let mut h = response_header(1, 1, 0, 0, false, false, Rcode::NoError);
    assert_eq!(h.message_len_offset(), 0);
    assert!(!h.update_from_total_msg_len(512));
    assert_eq!(h.tc, 0);
    assert!(h.update_from_total_msg_len(513));
    assert_eq!(h.tc, 1);
    assert_eq!(h.ancount, 1);
    assert!(!h.update_from_total_msg_len(513));
    assert_eq!(h.tcp_header_field, TcpHeaderField(None));

    let mut s = response_header(1, 1, 0, 0, true, false, Rcode::NoError);
    assert_eq!(s.message_len_offset(), 2);
    assert!(s.update_from_total_msg_len(40));
    assert_eq!(s.tcp_header_field, TcpHeaderField(Some(40)));
    assert!(s.update_from_total_msg_len(6000));
    assert_eq!(s.tcp_header_field, TcpHeaderField(Some(6000)));
    assert_eq!(s.tc, 0);
}

#[test]
fn stream_length_field() {
    let mut none = TcpHeaderField(None);
    none.set(5);
    assert_eq!(none, TcpHeaderField(None));
    assert!(!none.is_tcp());
    let mut some = TcpHeaderField(Some(1));
    some.set(0x0A0B);
    assert_eq!(some, TcpHeaderField(Some(0x0A0B)));
    assert!(some.is_tcp());
    let mut out = vec![7u8];
    none.write(&mut out);
    some.write(&mut out);
    assert_eq!(out, vec![7, 0x0A, 0x0B]);
    assert_eq!(TcpHeaderField::read(&[3, 4, 5], true), Ok((TcpHeaderField(Some(0x0304)), 2)));
    assert_eq!(TcpHeaderField::read(&[3, 4, 5], false), Ok((TcpHeaderField(None), 0)));
    assert_eq!(TcpHeaderField::read(&[3], true), Err(WireError::Malformed));
}

#[test]
fn text_is_cut_into_counted_strings() {
    let mut out = Vec::new();
    write_text(&mut out, b"");
    assert_eq!(out, vec![0]);

    let mut out = Vec::new();
    write_text(&mut out, b"bar");
    assert_eq!(out, b"\x03bar".to_vec());

    let mut out = Vec::new();
    write_text(&mut out, &[b'x'; 255]);
    assert_eq!(out.len(), 256);
    assert_eq!(out[0], 255);

    let mut out = Vec::new();
    write_text(&mut out, &[b'x'; 256]);
    assert_eq!(out.len(), 258);
    assert_eq!(out[0], 255);
    assert_eq!(out[256], 1);

    let mut out = Vec::new();
    write_text(&mut out, &[b'y'; 600]);
    assert_eq!(out.len(), 603);
    assert_eq!((out[0], out[256], out[512]), (255, 255, 90));
}

#[test]
fn text_round_trip() {
    for n in [0usize, 1, 63, 254, 255, 256, 510, 511, 1000] {
        let content: Vec<u8> = (0..n).map(|i| (i % 251) as u8).collect();
        let text = DNSText::from_bytes(content.clone());
        assert_eq!(text.content(), content);
        let mut out = vec![0xEE];
        text.write(&mut out);
        let back = DNSText::read(&out, 1, out.len()).unwrap();
        assert_eq!(back.content(), content);
    }
    assert_eq!(DNSText::from_text("héllo").content(), "héllo".as_bytes().to_vec());
    let parts = DNSText { inner: DNSName(vec![b"ab".to_vec(), b"".to_vec(), b"cd".to_vec()]) };
    assert_eq!(parts.content(), b"abcd".to_vec());
    assert_eq!(parts.clone(), parts);
}

#[test]
fn text_read_failures() {
    assert_eq!(DNSText::read(&[3, b'a', b'b'], 0, 3), Err(WireError::Malformed));
    assert_eq!(DNSText::read(&[1, b'a', 2, b'b', b'c'], 0, 4), Err(WireError::Malformed));
    let ok = DNSText::read(&[1, b'a', 2, b'b', b'c'], 0, 5).unwrap();
    assert_eq!(ok.inner, DNSName(vec![b"a".to_vec(), b"bc".to_vec()]));
    assert_eq!(DNSText::read(&[9, 9], 1, 1).unwrap().inner, DNSName(vec![]));
    assert_eq!(DNSText::read(&[0, 0], 2, 1), Err(WireError::Malformed));
    assert_eq!(DNSText::read(&[0, 0], 1, 9), Err(WireError::Malformed));
    assert_eq!(DNSText::read(&[0, 0], 5, 5).unwrap().inner, DNSName(vec![]));
}

#[test]
fn record_bytes() {
    let mut out = Vec::new();
    let mut dict = Compressed::new(false);
    a_record("example.com", [127, 0, 0, 1]).write(&mut out, &mut dict);
    let mut expected = b"\x07example\x03com\x00".to_vec();
    expected.extend_from_slice(&[0, 1, 0, 1, 0, 0, 0, 60, 0, 4, 127, 0, 0, 1]);
    assert_eq!(out, expected);
    assert!(dict.pointers.is_empty());
}

#[test]
fn record_with_names_uses_pointers() {
    let mut out = vec![0u8; 12];
    let mut dict = Compressed::new(false);
    ns_record("example.com", "ns.example.com").write(&mut out, &mut dict);
    let mut expected = vec![0u8; 12];
    expected.extend_from_slice(b"\x07example\x03com\x00");
    expected.extend_from_slice(&[0, 2, 0, 1, 0, 0, 0, 60, 0, 5]);
    expected.extend_from_slice(b"\x02ns\xC0\x0C");
    assert_eq!(out, expected);
    let at = out.len();
    ns_record("example.com", "example.com").write(&mut out, &mut dict);
    assert_eq!(&out[at..], &[0xC0, 12, 0, 2, 0, 1, 0, 0, 0, 60, 0, 2, 0xC0, 12]);

    let (first, next) = DNSRecord::read(&out, 12).unwrap();
    assert_eq!(first, ns_record("example.com", "ns.example.com"));
    assert_eq!(next, at);
    let (second, end) = DNSRecord::read(&out, next).unwrap();
    assert_eq!(second, ns_record("example.com", "example.com"));
    assert_eq!(end, out.len());
}

#[test]
fn name_data_is_remembered_where_it_starts() {
    let mut out = vec![0u8; 12];
    let mut dict = Compressed::new(false);
    ns_record("a.test", "b.test").write(&mut out, &mut dict);
    // owner at 12, 8 bytes long; ten fixed bytes; the data starts at 30.
    assert_eq!(dict.query(&DNSName::from_url("a.test"), 0), Some(12));
    assert_eq!(dict.query(&DNSName::from_url("b.test"), 0), Some(30));
    assert_eq!(&out[28..30], &[0, 8]);
}

#[test]
fn records_round_trip() {
    let records = vec![
        a_record("example.com", [1, 2, 3, 4]),
        ns_record("example.com", "ns1.example.com"),
        ns_record("sub.example.com", "ns1.example.com"),
        DNSRecord {
            name: DNSName::from_url("alias.example.com"),
            rtype: RType::CNAME,
            class: 1,
            ttl: 0xFFFF_FFFF,
            rdata: RData::Name(DNSName::from_url("example.com")),
        },
        DNSRecord {
            name: DNSName::from_url("txt.example.com"),
            rtype: RType::TXT,
            class: 3,
            ttl: 0,
            rdata: RData::Text(DNSText::from_bytes(vec![b'k'; 300])),
        },
        DNSRecord {
            name: DNSName::from_url(""),
            rtype: RType::OPT,
            class: 4096,
            ttl: 0,
            rdata: RData::Vec(vec![]),
        },
        DNSRecord {
            name: DNSName::from_url("x"),
            rtype: RType::Unknown(999),
            class: 1,
            ttl: 5,
            rdata: RData::Vec(vec![1, 2, 3]),
        },
    ];
    let list = VecDNSRecord::from(clone_records(&records));
    assert_eq!(list.len(), 7);
    let mut out = vec![0u8; 12];
    let mut dict = Compressed::new(false);
    list.write(&mut out, &mut dict, 7);
    let (back, end) = VecDNSRecord::read(&out, 12, 7).unwrap();
    assert_eq!(end, out.len());
    assert_eq!(back.0.len(), 7);
    for (got, want) in back.0.iter().zip(records.iter()) {
        assert_eq!(got.name, want.name);
        assert_eq!(got.rtype, want.rtype);
        assert_eq!(got.class, want.class);
        assert_eq!(got.ttl, want.ttl);
        match (&got.rdata, &want.rdata) {
            (RData::Text(a), RData::Text(b)) => assert_eq!(a.content(), b.content()),
            (a, b) => assert_eq!(a, b),
        }
    }
    assert_eq!(VecDNSRecord::read(&out, 12, 8).err(), Some(WireError::Malformed));
}

#[test]
fn only_counted_records_are_written() {
    let list = VecDNSRecord::from(vec![
        a_record("a.test", [1, 1, 1, 1]),
        a_record("b.test", [2, 2, 2, 2]),
        a_record("c.test", [3, 3, 3, 3]),
    ]);
    let mut dict = Compressed::new(false);
    let mut none = Vec::new();
    list.write(&mut none, &mut dict, 0);
    assert!(none.is_empty());
    let mut two = Vec::new();
    list.write(&mut two, &mut dict, 2);
    assert_eq!(two.len(), 2 * 22);
    let mut all = Vec::new();
    list.write(&mut all, &mut dict, 3);
    let mut more = Vec::new();
    list.write(&mut more, &mut dict, 9);
    assert_eq!(all.len(), 3 * 22);
    assert_eq!(all, more);
    assert_eq!(&all[..44], &two[..]);
}

#[test]
fn record_data_read_by_type() {
    // length 4, then four bytes and something behind them
    let msg = [0, 4, 10, 0, 0, 2, 99];
    assert_eq!(RData::read(&msg, 0, RType::A), Ok((RData::Vec(vec![10, 0, 0, 2]), 6)));
    assert_eq!(RData::read(&msg, 0, RType::AAAA), Ok((RData::Vec(vec![10, 0, 0, 2]), 6)));
    let three = [0, 3, 10, 0, 0];
    assert_eq!(RData::read(&three, 0, RType::A), Err(WireError::Malformed));
    assert_eq!(RData::read(&three, 0, RType::DS), Ok((RData::Vec(vec![10, 0, 0]), 5)));
    assert_eq!(RData::read(&three, 1, RType::DS), Err(WireError::Malformed));
    assert_eq!(RData::read(&[0], 0, RType::DS), Err(WireError::Malformed));
    assert_eq!(RData::read(&[0, 0], 0, RType::OPT), Ok((RData::Vec(vec![]), 2)));

    let name = [0, 3, 1, b'a', 0];
    assert_eq!(
        RData::read(&name, 0, RType::NS),
        Ok((RData::Name(DNSName::from_url("a")), 5))
    );
    let short = [0, 2, 1, b'a', 0];
    assert_eq!(RData::read(&short, 0, RType::CNAME), Err(WireError::Malformed));
    let long = [0, 4, 1, b'a', 0, 0];
    assert_eq!(RData::read(&long, 0, RType::CNAME), Err(WireError::Malformed));

    let text = [0, 4, 1, b'a', 1, b'b'];
    let (got, end) = RData::read(&text, 0, RType::TXT).unwrap();
    assert_eq!(end, 6);
    match got {
        RData::Text(t) => assert_eq!(t.content(), b"ab".to_vec()),
        _ => panic!("text expected"),
    }
    let bad = [0, 4, 1, b'a', 2, b'b'];
    assert_eq!(RData::read(&bad, 0, RType::TXT), Err(WireError::Malformed));
}

#[test]
fn try_get_name_gives_names_only() {
    let name = DNSName::from_url("ns.example.com");
    assert_eq!(RData::Name(name.clone()).try_get_name(), Some(&name));
    assert_eq!(RData::Vec(vec![1]).try_get_name(), None);
    assert_eq!(RData::Text(DNSText::from_text("ns.example.com")).try_get_name(), None);
    assert_eq!(RData::Name(name.clone()).clone(), RData::Name(name));
}

#[test]
fn question_bytes() {
    let q = DNSQuestion { qname: DNSName::from_url("example.com"), qtype: RType::TXT, qclass: 1 };
    let mut out = vec![0u8; 12];
    let mut dict = Compressed::new(false);
    q.write(&mut out, &mut dict);
    assert_eq!(&out[12..], b"\x07example\x03com\x00\x00\x10\x00\x01");
    assert_eq!(DNSQuestion::read(&out, 12), Ok((q.clone(), out.len())));
    assert_eq!(DNSQuestion::read(&out[..out.len() - 1], 12), Err(WireError::Malformed));
    assert_eq!(DNSQuestion::read(&out[..20], 12), Err(WireError::Malformed));
}

#[test]
fn message_is_read_with_its_records() {
    let mut msg = Vec::new();
    let header = DNSHeader { ancount: 1, arcount: 1, rd: 1, ..plain_header(0x0A0B) };
    header.write(&mut msg);
    let mut dict = Compressed::new(false);
    let q = DNSQuestion { qname: DNSName::from_url("example.com"), qtype: RType::A, qclass: 1 };
    q.write(&mut msg, &mut dict);
    a_record("example.com", [1, 2, 3, 4]).write(&mut msg, &mut dict);
    let opt = DNSRecord {
        name: DNSName::from_url(""),
        rtype: RType::OPT,
        class: 1232,
        ttl: 0,
        rdata: RData::Vec(vec![0, 10, 0, 2, 7, 7]),
    };
    opt.write(&mut msg, &mut dict);
    msg.extend_from_slice(b"trailing bytes are not looked at");

    let got = Question::read(&msg, false).unwrap();
    assert_eq!(got.header, header);
    assert_eq!(got.question, q);
    assert_eq!(got.answer, VecDNSRecord(vec![a_record("example.com", [1, 2, 3, 4])]));
    assert_eq!(got.authority, VecDNSRecord(vec![]));
    assert_eq!(got.additional, VecDNSRecord(vec![opt]));

    let mut framed = vec![0, 0];
    let len = msg.len() as u16;
    framed[0] = (len >> 8) as u8;
    framed[1] = (len & 0xFF) as u8;
    framed.extend_from_slice(&msg);
    let got = Question::read(&framed, true).unwrap();
    assert_eq!(got.header.tcp_header_field, TcpHeaderField(Some(len)));
    assert_eq!(got.header.id, 0x0A0B);
    assert_eq!(got.question, q);
    assert_eq!(got.answer.len(), 1);
}

#[test]
fn message_read_failures() {
    let mut msg = Vec::new();
    let header = DNSHeader { ancount: 2, ..plain_header(1) };
    header.write(&mut msg);
    let mut dict = Compressed::new(false);
    let q = DNSQuestion { qname: DNSName::from_url("a.test"), qtype: RType::A, qclass: 1 };
    q.write(&mut msg, &mut dict);
    a_record("a.test", [1, 2, 3, 4]).write(&mut msg, &mut dict);
    // two answers counted, one there
    assert_eq!(Question::read(&msg, false), Err(WireError::Malformed));
    assert_eq!(Question::read(&msg[..11], false), Err(WireError::Malformed));
    assert_eq!(Question::read(&msg[..14], false), Err(WireError::Malformed));
    assert_eq!(Question::read(&[], false), Err(WireError::Malformed));
    assert_eq!(Question::read(&[], true), Err(WireError::Malformed));
    a_record("a.test", [1, 2, 3, 4]).write(&mut msg, &mut dict);
    assert!(Question::read(&msg, false).is_ok());
    // the same bytes taken as a stream lose their first two bytes to the length
    assert_eq!(Question::read(&msg, true), Err(WireError::Malformed));
}

#[test]
fn pointers_in_a_stream_count_from_the_header() {
    let mut msg = vec![0u8, 0];
    let header = DNSHeader {
        tcp_header_field: TcpHeaderField(Some(0)),
        ancount: 1,
        ..plain_header(3)
    };
    let mut body = Vec::new();
    DNSHeader { tcp_header_field: TcpHeaderField(None), ..header }.write(&mut body);
    body.extend_from_slice(b"\x01a\x04test\x00\x00\x02\x00\x01");
    // an answer whose owner points at the question's name, offset 12
    body.extend_from_slice(&[0xC0, 12, 0, 2, 0, 1, 0, 0, 0, 9, 0, 2, 0xC0, 14]);
    msg.extend_from_slice(&body);
    let got = Question::read(&msg, true).unwrap();
    assert_eq!(got.answer.0[0].name, DNSName::from_url("a.test"));
    assert_eq!(got.answer.0[0].rdata, RData::Name(DNSName::from_url("test")));
    assert_eq!(got.answer.0[0].ttl, 9);
}
