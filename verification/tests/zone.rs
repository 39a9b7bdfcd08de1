use authdns::dns::data::RData;
use authdns::dns::header::Rcode;
use authdns::dns::name::{DNSName, NameCmp};
use authdns::dns::name_wire::fits_rdata;
use authdns::dns::question::DNSQuestion;
use authdns::dns::record::DNSRecord;
use authdns::dns::record_text::{
    blank_byte, ipv4_octet, parse_ipv4, parse_rdata_from_rtype, scan, scan_dot,
};
use authdns::dns::response::{push_section, Response};
use authdns::dns::rtypes::RType;
use authdns::errors::RecordParseError;
use authdns::nameserver::default_records::DEFAULT_RECORDS;
use authdns::nameserver::records::{relation_to, section_of, Records, ResponseSection};

fn zone(lines: &[&str]) -> Records {
    let records = Records::from_lines(lines);
    assert_eq!(records.len(), lines.len());
    records
}

fn ask(name: &str, qtype: RType) -> DNSQuestion {
    DNSQuestion { qname: DNSName::from_url(name), qtype, qclass: 1 }
}

fn owners(records: &[DNSRecord]) -> Vec<String> {
    records
        .iter()
        .map(|r| {
            r.name
                .0
                .iter()
                .map(|l| String::from_utf8(l.clone()).unwrap())
                .collect::<Vec<String>>()
                .join(".")
        })
        .collect()
}

#[test]
fn line_spells_an_address_record() {
    let record = DNSRecord::try_from("example.com A 10.10.10.10").unwrap();
    assert_eq!(
        record,
        DNSRecord {
            name: DNSName::from_url("example.com"),
            rtype: RType::A,
            class: 1,
            ttl: 60,
            rdata: RData::Vec(vec![10, 10, 10, 10]),
        }
    );
}

#[test]
fn line_spells_name_records() {
    let record = DNSRecord::try_from("www.example.com CNAME www.example.org").unwrap();
    assert_eq!(record.name, DNSName::from_url("www.example.com"));
    assert_eq!(record.rtype, RType::CNAME);
    assert_eq!(record.rdata, RData::Name(DNSName::from_url("www.example.org")));
    assert_eq!((record.class, record.ttl), (1, 60));

    let record = DNSRecord::try_from("\t sub.example.com \t NS ns1.example.com.").unwrap();
    assert_eq!(record.name, DNSName::from_url("sub.example.com"));
    assert_eq!(record.rtype, RType::NS);
    assert_eq!(record.rdata, RData::Name(DNSName::from_url("ns1.example.com")));
}

#[test]
fn text_data_is_the_rest_of_the_line() {
    let record = DNSRecord::try_from("t.example.com TXT  two  words ").unwrap();
    assert_eq!(record.rtype, RType::TXT);
    match &record.rdata {
        RData::Text(t) => assert_eq!(t.content(), b" two  words ".to_vec()),
        _ => panic!("text expected"),
    }
    let empty = DNSRecord::parse_line(b"t.example.com TXT ").unwrap();
    match &empty.rdata {
        RData::Text(t) => assert_eq!(t.content(), Vec::<u8>::new()),
        _ => panic!("text expected"),
    }
    let long = format!("t.example.com TXT {}", "x".repeat(700));
    match DNSRecord::try_from(&long).unwrap().rdata {
        RData::Text(t) => {
            assert_eq!(t.content().len(), 700);
            assert_eq!(t.inner.0.iter().map(|l| l.len()).collect::<Vec<usize>>(), vec![255, 255, 190]);
        }
        _ => panic!("text expected"),
    }
}

#[test]
fn line_errors() {
    assert_eq!(DNSRecord::try_from(""), Err(RecordParseError::MissingName));
    assert_eq!(DNSRecord::try_from(" \t\n"), Err(RecordParseError::MissingName));
    assert_eq!(DNSRecord::try_from("example.com"), Err(RecordParseError::MissingType));
    assert_eq!(DNSRecord::try_from("example.com   "), Err(RecordParseError::MissingType));
    assert_eq!(DNSRecord::try_from("example.com A"), Err(RecordParseError::MissingData));
    assert_eq!(DNSRecord::try_from("example.com MX 10 mail"), Err(RecordParseError::InvalidType));
    assert_eq!(DNSRecord::try_from("example.com a 1.2.3.4"), Err(RecordParseError::InvalidType));
    assert_eq!(
        DNSRecord::try_from("example.com AAAA ::1"),
        Err(RecordParseError::UnsupportedType)
    );
    assert_eq!(DNSRecord::try_from("example.com OPT x"), Err(RecordParseError::UnsupportedType));
    assert_eq!(DNSRecord::try_from("example.com A "), Err(RecordParseError::InvalidAddress));
    assert_eq!(
        DNSRecord::try_from("example.com A  1.2.3.4"),
        Err(RecordParseError::InvalidAddress)
    );
    assert_eq!(
        DNSRecord::try_from("example.com A 1.2.3.4 "),
        Err(RecordParseError::InvalidAddress)
    );
    assert_eq!(
        DNSRecord::try_from("example.com A 1.2.3.256"),
        Err(RecordParseError::InvalidAddress)
    );
    let long_label = format!("{}.com A 1.2.3.4", "a".repeat(64));
    assert_eq!(DNSRecord::try_from(&long_label), Err(RecordParseError::InvalidName));
    let ok_label = format!("{}.com A 1.2.3.4", "a".repeat(63));
    assert!(DNSRecord::try_from(&ok_label).is_ok());
    let long_target = format!("example.com NS {}.com", "b".repeat(64));
    assert_eq!(DNSRecord::try_from(&long_target), Err(RecordParseError::InvalidName));
    let long_text = format!("example.com TXT {}", "c".repeat(65536));
    assert_eq!(DNSRecord::try_from(&long_text), Err(RecordParseError::DataTooLong));
}

#[test]
fn text_data_must_fit_the_length_field() {
    // 65279 bytes take 65279 + 256 = 65535 bytes on the wire; one more does not fit.
    let fits = vec![b'a'; 65279];
    assert!(parse_rdata_from_rtype(&fits, RType::TXT).is_ok());
    let over = vec![b'a'; 65280];
    assert_eq!(parse_rdata_from_rtype(&over, RType::TXT), Err(RecordParseError::DataTooLong));
}

#[test]
fn name_data_must_fit_the_length_field() {
    assert!(fits_rdata(&DNSName::from_url("ns1.example.com")));
    assert!(fits_rdata(&DNSName::from_url("")));
    assert!(!fits_rdata(&DNSName(vec![vec![b'a'; 64]])));
    // 1023 labels of 63 bytes: 1023 * 64 + 1 = 65473 bytes
    assert!(fits_rdata(&DNSName(vec![vec![b'a'; 63]; 1023])));
    // 1024 labels of 63 bytes: 65537 bytes
    assert!(!fits_rdata(&DNSName(vec![vec![b'a'; 63]; 1024])));
}

#[test]
fn rdata_by_type() {
    assert_eq!(
        parse_rdata_from_rtype(b"a.b", RType::NS),
        Ok(RData::Name(DNSName::from_url("a.b")))
    );
    assert_eq!(
        parse_rdata_from_rtype(b"a.b", RType::CNAME),
        Ok(RData::Name(DNSName::from_url("a.b")))
    );
    assert_eq!(parse_rdata_from_rtype(b"1.2.3.4", RType::A), Ok(RData::Vec(vec![1, 2, 3, 4])));
    assert_eq!(
        parse_rdata_from_rtype(b"1.2.3", RType::A),
        Err(RecordParseError::InvalidAddress)
    );
    for rtype in [RType::OPT, RType::AAAA, RType::HTTPS, RType::CAA, RType::DS, RType::Unknown(1)] {
        assert_eq!(
            parse_rdata_from_rtype(b"1.2.3.4", rtype),
            Err(RecordParseError::UnsupportedType)
        );
    }
}

#[test]
fn record_type_names() {
    assert_eq!(RType::from_str("CNAME"), Ok(RType::CNAME));
    assert_eq!(RType::from_str("A"), Ok(RType::A));
    assert_eq!(RType::from_str("NS"), Ok(RType::NS));
    assert_eq!(RType::from_str("OPT"), Ok(RType::OPT));
    assert_eq!(RType::from_str("AAAA"), Ok(RType::AAAA));
    assert_eq!(RType::from_str("TXT"), Ok(RType::TXT));
    for other in ["", "a", "ns", "HTTPS", "CAA", "DS", "AAA", "AAAAA", "TXT ", "CNAME\0", "1"] {
        assert_eq!(RType::from_str(other), Err(RecordParseError::InvalidType));
        assert_eq!(RType::from_word(other.as_bytes()), None);
    }
}

#[test]
fn dotted_quads() {
    assert_eq!(parse_ipv4(b"127.0.0.1"), Some(vec![127, 0, 0, 1]));
    assert_eq!(parse_ipv4(b"0.0.0.0"), Some(vec![0, 0, 0, 0]));
    assert_eq!(parse_ipv4(b"255.255.255.255"), Some(vec![255, 255, 255, 255]));
    for bad in [
        "", "1", "1.2", "1.2.3", "1.2.3.4.5", "1.2.3.", ".1.2.3", "1..2.3", "1.2.3.4.", "256.1.1.1",
        "1.1.1.256", "01.2.3.4", "1.2.3.04", "00.0.0.0", "1.2.3.4 ", " 1.2.3.4", "+1.2.3.4",
        "1.2.3.a", "1.2.3.-4", "1111.2.3.4", "0x1.2.3.4", "1,2,3,4",
    ] {
        assert_eq!(parse_ipv4(bad.as_bytes()), None, "{}", bad);
    }
    assert_eq!(ipv4_octet(b"0"), Some(0));
    assert_eq!(ipv4_octet(b"9"), Some(9));
    assert_eq!(ipv4_octet(b"10"), Some(10));
    assert_eq!(ipv4_octet(b"255"), Some(255));
    assert_eq!(ipv4_octet(b"256"), None);
    assert_eq!(ipv4_octet(b"00"), None);
    assert_eq!(ipv4_octet(b"0255"), None);
    assert_eq!(ipv4_octet(b""), None);
}

#[test]
fn scanning() {
    let line = b"  ab\tcd ";
    assert_eq!(scan(line, 0, false), 2);
    assert_eq!(scan(line, 2, true), 4);
    assert_eq!(scan(line, 4, false), 5);
    assert_eq!(scan(line, 5, true), 7);
    assert_eq!(scan(line, 7, false), 8);
    assert_eq!(scan(line, 8, true), 8);
    assert_eq!(scan(b"abc", 0, true), 3);
    assert_eq!(scan_dot(b"ab.cd", 0), 2);
    assert_eq!(scan_dot(b"ab.cd", 2), 2);
    assert_eq!(scan_dot(b"ab.cd", 3), 5);
    for b in 0..=255u8 {
        assert_eq!(blank_byte(b), b == b' ' || (9..=13).contains(&b));
    }
}

#[test]
fn lines_that_spell_no_record_are_passed_over() {
    let records = Records::from_lines(&["a.test A 1.2.3.4", "broken", "b.test NS a.test", ""]);
    assert_eq!(records.len(), 2);
    assert_eq!(owners(&records.inner), vec!["a.test", "b.test"]);
    assert_eq!(Records::from_lines(&[]).len(), 0);
    assert_eq!(Records::from_vec(vec![]).len(), 0);
}

#[test]
fn predefined_zone() {
    let records = Records::predefined();
    assert_eq!(DEFAULT_RECORDS.len(), 15);
    assert_eq!(records.len(), 15);
    assert_eq!(records.inner[0], DNSRecord::try_from("henryn.xyz A 127.0.0.5").unwrap());
    assert_eq!(records.inner[3].rdata, RData::Name(DNSName::from_url("ns1.henryn.xyz")));
    assert_eq!(records.inner[12].rtype, RType::TXT);
    match &records.inner[12].rdata {
        RData::Text(t) => {
            let content = t.content();
            assert_eq!(content.len(), 1363 - "acme.www2.henryn.xyz TXT ".len());
            assert!(content.starts_with(b"AAAAAAAAAAAAAAAAAAAAAAAAAAAAAAAAAAAA\n    fldsakjf"));
            assert!(content.ends_with(b"AAAA "));
        }
        _ => panic!("text expected"),
    }
    assert_eq!(records.inner[14].name, DNSName::from_url("cb.www2.henryn.xyz"));
}

#[test]
fn relation_and_section_of_a_record() {
    let ns = DNSRecord::try_from("example.com NS ns.example.com").unwrap();
    let a = DNSRecord::try_from("example.com A 1.2.3.4").unwrap();
    let cname = DNSRecord::try_from("example.com CNAME other.test").unwrap();
    assert_eq!(relation_to(&ns, &DNSName::from_url("www.example.com")), NameCmp::Subdomain);
    assert_eq!(relation_to(&ns, &DNSName::from_url("com")), NameCmp::Superdomain);
    assert_eq!(relation_to(&ns, &DNSName::from_url("example.com")), NameCmp::Equal);
    assert_eq!(relation_to(&ns, &DNSName::from_url("example.org")), NameCmp::Different);

    for relation in [NameCmp::Equal, NameCmp::Subdomain, NameCmp::Superdomain] {
        assert_eq!(section_of(&ns, relation, &RType::A), Some(ResponseSection::Authority));
        assert_eq!(section_of(&ns, relation, &RType::NS), Some(ResponseSection::Authority));
    }
    assert_eq!(section_of(&a, NameCmp::Equal, &RType::A), Some(ResponseSection::Answer));
    assert_eq!(section_of(&a, NameCmp::Equal, &RType::TXT), Some(ResponseSection::Additional));
    assert_eq!(section_of(&cname, NameCmp::Equal, &RType::A), Some(ResponseSection::Answer));
    assert_eq!(section_of(&cname, NameCmp::Equal, &RType::CNAME), Some(ResponseSection::Answer));
    assert_eq!(section_of(&a, NameCmp::Subdomain, &RType::A), None);
    assert_eq!(section_of(&a, NameCmp::Superdomain, &RType::A), None);
    assert_eq!(section_of(&cname, NameCmp::Subdomain, &RType::CNAME), None);
}

#[test]
fn query_classifies_in_zone_order() {
    let records = zone(&[
        "example.com A 1.1.1.1",
        "www.example.com A 2.2.2.2",
        "example.com NS ns1.example.com",
        "example.com TXT hello",
        "com NS ns.com",
        "a.example.com NS deep.example.com",
        "example.com CNAME alias.test",
        "example.org A 9.9.9.9",
        "example.com A 3.3.3.3",
    ]);
    let qname = DNSName::from_url("example.com");
    let items = records.query(&qname, &RType::A);
    let got: Vec<(usize, ResponseSection)> = items
        .iter()
        .map(|item| {
            let at = records.inner.iter().position(|r| std::ptr::eq(r, item.record)).unwrap();
            (at, item.section)
        })
        .collect();
    assert_eq!(
        got,
        vec![
            (0, ResponseSection::Answer),
            (2, ResponseSection::Authority),
            (3, ResponseSection::Additional),
            (4, ResponseSection::Authority),
            (5, ResponseSection::Authority),
            (6, ResponseSection::Answer),
            (8, ResponseSection::Answer),
        ]
    );
    let matching = records.map_matching(&qname);
    let relations: Vec<NameCmp> = matching.iter().map(|m| m.1).collect();
    assert_eq!(
        relations,
        vec![
            NameCmp::Equal,
            NameCmp::Superdomain,
            NameCmp::Equal,
            NameCmp::Equal,
            NameCmp::Subdomain,
            NameCmp::Superdomain,
            NameCmp::Equal,
            NameCmp::Equal,
        ]
    );
    assert!(records.query(&DNSName::from_url("nothing.test"), &RType::A).is_empty());
}

#[test]
fn additional_section_is_the_glue() {
    let records = zone(&[
        "ns1.example.com A 10.0.0.2",
        "ns1.example.com TXT not glue",
        "a.ns1.example.com A 10.0.0.3",
        "example.com A 10.0.0.4",
        "ns1.example.com A 10.0.0.5",
    ]);
    let glue = records.additional_section(&DNSName::from_url("ns1.example.com"));
    assert_eq!(glue.len(), 2);
    assert!(glue.iter().all(|g| g.section == ResponseSection::Additional));
    assert_eq!(glue[0].record.rdata, RData::Vec(vec![10, 0, 0, 2]));
    assert_eq!(glue[1].record.rdata, RData::Vec(vec![10, 0, 0, 5]));
    assert!(records.additional_section(&DNSName::from_url("example.org")).is_empty());
}

#[test]
fn push_section_copies_one_section() {
    let records = zone(&["example.com A 1.1.1.1", "example.com NS ns.example.com", "example.com A 2.2.2.2"]);
    let items = records.query(&DNSName::from_url("example.com"), &RType::A);
    let mut into = vec![DNSRecord::try_from("first.test A 0.0.0.0").unwrap()];
    push_section(&mut into, &items, ResponseSection::Answer);
    assert_eq!(owners(&into), vec!["first.test", "example.com", "example.com"]);
    assert_eq!(into[2].rdata, RData::Vec(vec![2, 2, 2, 2]));
    push_section(&mut into, &items, ResponseSection::Additional);
    assert_eq!(into.len(), 3);
    push_section(&mut into, &items, ResponseSection::Authority);
    assert_eq!(into.len(), 4);
    assert_eq!(into[3].rtype, RType::NS);
}

#[test]
fn zone_response_for_an_address() {
    let records = zone(&["example.com A 127.0.0.1"]);
    let r = Response::build_from_record_iter(0x1234, ask("example.com", RType::A), &records, false);
    assert_eq!(r.header.id, 0x1234);
    assert_eq!(r.header.rcode, Rcode::NoError);
    assert_eq!((r.header.ancount, r.header.nscount, r.header.arcount), (1, 0, 0));
    assert_eq!(r.answer.0, vec![DNSRecord::try_from("example.com A 127.0.0.1").unwrap()]);
    assert!(r.authority.0.is_empty() && r.additional.0.is_empty());
    assert_eq!(r.question, ask("example.com", RType::A));
}

#[test]
fn zone_response_with_delegation_and_glue() {
    let records = zone(&[
        "sub.example.com NS ns1.example.com",
        "ns1.example.com A 10.0.0.2",
        "sub.example.com NS ns2.example.com",
        "ns2.example.com A 10.0.0.3",
        "ns2.example.com A 10.0.0.4",
        "ns1.example.com TXT no glue",
    ]);
    let r = Response::build_from_record_iter(1, ask("x.sub.example.com", RType::A), &records, false);
    assert_eq!(r.header.rcode, Rcode::NoError);
    assert_eq!((r.header.ancount, r.header.nscount, r.header.arcount), (0, 2, 3));
    assert_eq!(owners(&r.authority.0), vec!["sub.example.com", "sub.example.com"]);
    assert_eq!(
        owners(&r.additional.0),
        vec!["ns1.example.com", "ns2.example.com", "ns2.example.com"]
    );
    assert_eq!(r.additional.0[2].rdata, RData::Vec(vec![10, 0, 0, 4]));
}

#[test]
fn zone_response_puts_other_types_first_in_additional() {
    let records = zone(&[
        "example.com TXT note",
        "example.com NS example.com",
        "example.com A 1.2.3.4",
    ]);
    let r = Response::build_from_record_iter(1, ask("example.com", RType::CNAME), &records, true);
    assert_eq!((r.header.ancount, r.header.nscount, r.header.arcount), (0, 1, 3));
    assert_eq!(r.additional.0[0].rtype, RType::TXT);
    assert_eq!(r.additional.0[1].rtype, RType::A);
    assert_eq!(r.additional.0[2].rtype, RType::A);
    assert!(r.header.tcp_header_field.is_tcp());
    assert!(r.compress.is_tcp);
}

#[test]
fn zone_response_for_an_unknown_name() {
    let records = zone(&["example.com A 127.0.0.1"]);
    let r = Response::build_from_record_iter(9, ask("nope.test", RType::A), &records, false);
    assert_eq!(r.header.rcode, Rcode::NxDomain);
    assert_eq!((r.header.ancount, r.header.nscount, r.header.arcount), (0, 0, 0));
    assert!(r.answer.0.is_empty() && r.authority.0.is_empty() && r.additional.0.is_empty());
}

#[test]
fn zone_response_fails_when_a_section_cannot_be_counted() {
    let mut lines: Vec<String> = Vec::new();
    for i in 0..257 {
        lines.push(format!("example.com NS ns{}.example.com", i % 2));
    }
    for _ in 0..128 {
        lines.push("ns0.example.com A 10.0.0.1".to_string());
        lines.push("ns1.example.com A 10.0.0.2".to_string());
    }
    let refs: Vec<&str> = lines.iter().map(|l| l.as_str()).collect();
    let records = Records::from_lines(&refs);
    assert_eq!(records.len(), 257 + 256);
    // 257 name servers with 128 addresses each: 32896 glue records fit.
    let r = Response::build_from_record_iter(1, ask("example.com", RType::NS), &records, false);
    assert_eq!(r.header.rcode, Rcode::NoError);
    assert_eq!((r.header.ancount, r.header.nscount, r.header.arcount), (0, 257, 32896));

    for _ in 0..256 {
        lines.push("example.com NS ns0.example.com".to_string());
    }
    let refs: Vec<&str> = lines.iter().map(|l| l.as_str()).collect();
    let records = Records::from_lines(&refs);
    // 513 name servers with 128 addresses each: 65664 glue records do not.
    let r = Response::build_from_record_iter(1, ask("example.com", RType::NS), &records, false);
    assert_eq!(r.header.rcode, Rcode::ServerFailure);
    assert_eq!((r.header.ancount, r.header.nscount, r.header.arcount), (0, 0, 0));
    assert!(r.answer.0.is_empty() && r.authority.0.is_empty() && r.additional.0.is_empty());
}

#[test]
fn response_constructors() {
    let q = ask("example.com", RType::A);
    let r = Response::from_rcode(77, q.clone(), Rcode::NotImplemented, true);
    assert_eq!(r.header.rcode, Rcode::NotImplemented);
    assert_eq!(r.header.id, 77);
    assert_eq!((r.header.qr, r.header.aa, r.header.tc, r.header.qdcount), (1, 1, 0, 1));
    assert_eq!((r.header.ancount, r.header.nscount, r.header.arcount), (0, 0, 0));
    assert!(r.compress.enabled && r.compress.is_tcp && r.compress.pointers.is_empty());

    let a = DNSRecord::try_from("example.com A 1.2.3.4").unwrap();
    let mut r = Response::new(
        5,
        q,
        vec![a.clone(), a.clone()],
        vec![],
        vec![a.clone()],
        false,
        Rcode::NoError,
    );
    assert_eq!((r.header.ancount, r.header.nscount, r.header.arcount), (2, 0, 1));
    r.set_return_code(Rcode::Refused);
    assert_eq!(r.header.rcode, Rcode::Refused);
    assert_eq!(r.answer.len(), 2);

    let mut out = Vec::new();
    r.write(&mut out);
    assert_eq!(out.len(), 12 + 17 + 3 * 27);
    r.compress.add(DNSName::from_url("x"), 3);
    r.clear();
    assert!(r.compress.pointers.is_empty());
    assert_eq!(r.answer.len(), 2);
}
