use dns_resolver::dns::answer::RData;
use dns_resolver::dns::header::Rcode;
use dns_resolver::dns::message::Message;
use dns_resolver::dns::question::{Question, RecordClass, RecordType, RecordTypeOrUnknown};

#[test]
fn query_bytes() {
    let q = Question::new("example.com", RecordTypeOrUnknown::Known(RecordType::A));
    let m = Message::new(0xbeef, q);
    let bytes = m.to_bytes();
    let mut expected = vec![0xbe, 0xef, 0x01, 0x00, 0, 1, 0, 0, 0, 0, 0, 0];
    expected.extend_from_slice(&[7, b'e', b'x', b'a', b'm', b'p', b'l', b'e', 3, b'c', b'o', b'm', 0, 0, 1, 0, 1]);
    assert_eq!(bytes, expected);
}

#[test]
fn query_round_trips() {
    let q = Question::new("Example.NET", RecordTypeOrUnknown::Known(RecordType::TXT));
    let m = Message::new(42, q);
    let back = Message::from_bytes(&m.to_bytes()).unwrap();
    assert_eq!(back.header.id, 42);
    assert!(back.header.rd && !back.header.qr);
    assert_eq!(back.header.qdcount, 1);
    assert_eq!(back.questions.len(), 1);
    assert_eq!(back.questions[0].qname, "example.net");
    assert_eq!(back.questions[0].qtype, RecordTypeOrUnknown::Known(RecordType::TXT));
    assert_eq!(back.questions[0].qclass, RecordClass::IN);
    assert!(back.answers.is_empty() && back.authorities.is_empty() && back.additionals.is_empty());
}

#[test]
fn counts_follow_the_sections() {
    let q = Question::new("a.b", RecordTypeOrUnknown::Known(RecordType::A));
    let mut m = Message::new(1, q.clone());
    m.questions.push(q);
    let bytes = m.to_bytes();
    assert_eq!(&bytes[4..12], &[0, 2, 0, 0, 0, 0, 0, 0]);
}

#[test]
fn response_with_answer() {
    let mut b = vec![0x12, 0x34, 0x81, 0x80, 0, 1, 0, 1, 0, 0, 0, 0];
    b.extend_from_slice(&[7, b'e', b'x', b'a', b'm', b'p', b'l', b'e', 3, b'c', b'o', b'm', 0, 0, 1, 0, 1]);
    b.extend_from_slice(&[0xC0, 12, 0, 1, 0, 1, 0, 0, 0x0e, 0x10, 0, 4, 1, 2, 3, 4]);
    let m = Message::from_bytes(&b).unwrap();
    assert!(m.header.qr && m.header.ra);
    assert_eq!(m.header.rcode, Rcode::NoError);
    assert_eq!(m.answers.len(), 1);
    assert_eq!(m.answers[0].name, "example.com");
    assert_eq!(m.answers[0].ttl, 3600);
    assert!(matches!(m.answers[0].rdata, RData::A(0x01020304)));
}

#[test]
fn missing_records_are_an_error() {
    let b = vec![0, 0, 0x81, 0x80, 0, 0, 0, 1, 0, 0, 0, 0];
    assert!(Message::from_bytes(&b).is_err());
}

#[test]
fn overrunning_label_is_reported() {
    let b = vec![0, 0, 0x81, 0x80, 0, 1, 0, 0, 0, 0, 0, 0, 0x50, b'a'];
    assert!(Message::from_bytes_checked(&b).is_none());
}
