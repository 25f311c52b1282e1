use dns_resolver::dns::question::{Question, RecordClass, RecordType, RecordTypeOrUnknown};
use dns_resolver::dns::wire::{WireReader, WireWriter};

#[test]
fn record_type_codes() {
    assert_eq!(RecordType::from_u16(28), RecordTypeOrUnknown::Known(RecordType::AAAA));
    assert_eq!(RecordType::from_u16(99), RecordTypeOrUnknown::Unknown(99));
    assert_eq!(RecordType::SRV.to_u16(), 33);
    assert_eq!(RecordTypeOrUnknown::Unknown(99).to_u16(), 99);
    assert_eq!(RecordTypeOrUnknown::Known(RecordType::ANY).to_u16(), 255);
    for v in 0..=u16::MAX {
        assert_eq!(RecordType::from_u16(v).to_u16(), v);
    }
}

#[test]
fn record_type_from_text() {
    assert_eq!(RecordType::from_str("aaaa"), Some(RecordTypeOrUnknown::Known(RecordType::AAAA)));
    assert_eq!(RecordType::from_str("Mx"), Some(RecordTypeOrUnknown::Known(RecordType::MX)));
    assert_eq!(RecordType::from_str("65"), Some(RecordTypeOrUnknown::Unknown(65)));
    assert_eq!(RecordType::from_str("+7"), Some(RecordTypeOrUnknown::Unknown(7)));
    assert_eq!(RecordType::from_str("1"), Some(RecordTypeOrUnknown::Unknown(1)));
    assert_eq!(RecordType::from_str("70000"), None);
    assert_eq!(RecordType::from_str("bogus"), None);
    assert_eq!(RecordType::from_str(""), None);
    assert_eq!(RecordType::from_upper_str("txt"), None);
    assert_eq!(RecordType::from_upper_str("TXT"), Some(RecordTypeOrUnknown::Known(RecordType::TXT)));
}

#[test]
fn record_type_names_and_text() {
    assert_eq!(RecordType::CNAME.name(), "CNAME");
    assert_eq!(RecordTypeOrUnknown::Known(RecordType::A).text(), "A");
    assert_eq!(RecordTypeOrUnknown::Unknown(65).text(), "TYPE65");
}

#[test]
fn record_classes() {
    assert_eq!(RecordClass::from_u16(3), RecordClass::CH);
    assert_eq!(RecordClass::from_u16(2), RecordClass::IN);
    assert_eq!(RecordClass::ANY.to_u16(), 255);
    assert_eq!(RecordClass::from_u16(RecordClass::HS.to_u16()), RecordClass::HS);
}

#[test]
fn new_question_is_lower_case_without_final_dot() {
    let q = Question::new("WWW.Example.COM.", RecordTypeOrUnknown::Known(RecordType::A));
    assert_eq!(q.qname, "www.example.com");
    assert_eq!(q.qclass, RecordClass::IN);
    assert_eq!(q.text(), "www.example.com A IN");
}

#[test]
fn question_wire_and_back() {
    let q = Question::new("example.org", RecordTypeOrUnknown::Known(RecordType::MX));
    let mut w = WireWriter::new();
    q.to_wire(&mut w).unwrap();
    let bytes = w.into_bytes();
    assert_eq!(
        bytes,
        vec![7, b'e', b'x', b'a', b'm', b'p', b'l', b'e', 3, b'o', b'r', b'g', 0, 0, 15, 0, 1]
    );
    let mut r = WireReader::new(&bytes);
    let back = Question::from_reader(&mut r).unwrap();
    assert_eq!(back.qname, "example.org");
    assert_eq!(back.qtype, q.qtype);
    assert_eq!(back.qclass, RecordClass::IN);
    assert_eq!(r.position(), bytes.len());
}

#[test]
fn question_with_refused_name_writes_partially() {
    let q = Question {
        qname: "a..b".to_string(),
        qtype: RecordTypeOrUnknown::Known(RecordType::A),
        qclass: RecordClass::IN,
    };
    let mut w = WireWriter::new();
    assert!(q.to_wire(&mut w).is_err());
    assert_eq!(w.into_bytes(), vec![1, b'a']);
}

#[test]
fn every_type_name_reads_back() {
    for t in [
        RecordType::A,
        RecordType::NS,
        RecordType::CNAME,
        RecordType::SOA,
        RecordType::MX,
        RecordType::TXT,
        RecordType::AAAA,
        RecordType::SRV,
        RecordType::ANY,
    ] {
        assert_eq!(RecordType::from_str(t.name()), Some(RecordTypeOrUnknown::Known(t)));
        assert_eq!(RecordType::from_u16(t.to_u16()), RecordTypeOrUnknown::Known(t));
    }
    for n in [0u16, 1, 28, 255, 65535] {
        assert_eq!(RecordType::from_str(&n.to_string()), Some(RecordTypeOrUnknown::Unknown(n)));
    }
}

#[test]
fn ascii_question_reads_back_as_made() {
    for (name, qtype) in [
        ("WWW.Example.COM.", RecordTypeOrUnknown::Known(RecordType::AAAA)),
        ("MiXeD-Case_1.net", RecordTypeOrUnknown::Unknown(4242)),
        (".", RecordTypeOrUnknown::Known(RecordType::NS)),
    ] {
        let q = Question::new(name, qtype);
        let mut w = WireWriter::new();
        q.to_wire(&mut w).unwrap();
        let bytes = w.into_bytes();
        let mut r = WireReader::new(&bytes);
        let back = Question::from_reader(&mut r).unwrap();
        assert_eq!(back.qname, q.qname);
        assert_eq!(back.qtype, q.qtype);
        assert_eq!(back.qclass, q.qclass);
        assert_eq!(r.position(), bytes.len());
    }
}

#[test]
fn every_type_name_reads_in_any_case() {
    for t in [
        RecordType::A,
        RecordType::NS,
        RecordType::CNAME,
        RecordType::SOA,
        RecordType::MX,
        RecordType::TXT,
        RecordType::AAAA,
        RecordType::SRV,
        RecordType::ANY,
    ] {
        let name = t.name();
        let lower = name.to_ascii_lowercase();
        let mixed: String = name
            .chars()
            .enumerate()
            .map(|(i, c)| if i % 2 == 0 { c.to_ascii_lowercase() } else { c })
            .collect();
        for text in [name.to_string(), lower, mixed] {
            assert_eq!(RecordType::from_str(&text), Some(RecordTypeOrUnknown::Known(t)));
        }
    }
}
