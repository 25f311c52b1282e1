use dns_resolver::dns::header::{Header, Opcode, Rcode};
use dns_resolver::dns::wire::WireReader;

#[test]
fn new_query_header_bytes() {
    let h = Header::new_query(0x1234);
    assert!(!h.is_response());
    assert!(!h.is_truncated());
    assert_eq!(h.to_bytes(), vec![0x12, 0x34, 0x01, 0x00, 0, 1, 0, 0, 0, 0, 0, 0]);
}

#[test]
fn header_flags_are_read_from_their_bits() {
    let bytes = [0xab, 0xcd, 0x80 | (5 << 3) | 0x04 | 0x02, 0x80 | 0x20 | 0x10 | 0x03, 0, 2, 0, 3, 0, 4, 0, 5];
    let mut r = WireReader::new(&bytes);
    let h = Header::from_header(&mut r).unwrap();
    assert_eq!(r.position(), 12);
    assert_eq!(h.id, 0xabcd);
    assert!(h.qr && h.aa && h.tc && !h.rd);
    assert_eq!(h.opcode, Opcode::Update);
    assert!(h.ra && h.ad && h.cd);
    assert_eq!((h.qdcount, h.ancount, h.nscount, h.arcount), (2, 3, 4, 5));
}

#[test]
fn response_code_always_reads_as_no_error() {
    let bytes = [0, 1, 0x80, 0x03, 0, 0, 0, 0, 0, 0, 0, 0];
    let mut r = WireReader::new(&bytes);
    let h = Header::from_header(&mut r).unwrap();
    assert_eq!(h.rcode, Rcode::NoError);
}

#[test]
fn unnamed_opcode_reads_as_query() {
    let bytes = [0, 1, 3 << 3, 0, 0, 0, 0, 0, 0, 0, 0, 0];
    let mut r = WireReader::new(&bytes);
    assert_eq!(Header::from_header(&mut r).unwrap().opcode, Opcode::Query);
}

#[test]
fn short_header_reports_the_first_short_read() {
    let bytes = [0u8, 1, 2];
    let mut r = WireReader::new(&bytes);
    match Header::from_header(&mut r) {
        Err(dns_resolver::error::ResolverError::Protocol(s)) => {
            assert_eq!(s, "Unexpected end of message: need 1 bytes at position 3, have 3")
        }
        other => panic!("unexpected {other:?}"),
    }
}

#[test]
fn header_round_trips_with_no_error_code() {
    let h = Header {
        id: 777,
        qr: true,
        opcode: Opcode::Dso,
        aa: true,
        tc: false,
        rd: true,
        ra: false,
        ad: true,
        cd: false,
        rcode: Rcode::ServFail,
        qdcount: 1,
        ancount: 65535,
        nscount: 256,
        arcount: 9,
    };
    let bytes = h.to_bytes();
    assert_eq!(bytes.len(), 12);
    let mut r = WireReader::new(&bytes);
    let back = Header::from_header(&mut r).unwrap();
    assert_eq!(back.id, h.id);
    assert_eq!(back.opcode, h.opcode);
    assert_eq!((back.qr, back.aa, back.tc, back.rd), (h.qr, h.aa, h.tc, h.rd));
    assert_eq!((back.ra, back.ad, back.cd), (h.ra, h.ad, h.cd));
    assert_eq!((back.qdcount, back.ancount, back.nscount, back.arcount), (1, 65535, 256, 9));
    assert_eq!(back.rcode, Rcode::NoError);
}

#[test]
fn rcode_descriptions() {
    assert_eq!(Rcode::NoError.description(), "No error");
    assert_eq!(Rcode::NxDomain.description(), "Non-existent domain");
    assert_eq!(Rcode::NotZone.description(), "Name not contained in zone");
}

#[test]
fn every_opcode_reads_back_whatever_the_other_bits() {
    let named = [
        (0u8, Opcode::Query),
        (1, Opcode::IQuery),
        (2, Opcode::Status),
        (4, Opcode::Notify),
        (5, Opcode::Update),
        (6, Opcode::Dso),
    ];
    for (value, op) in named {
        for other in [0x00u8, 0x87, 0xff] {
            let hi = (other & !0x78) | (value << 3);
            let bytes = [0, 1, hi, 0, 0, 0, 0, 0, 0, 0, 0, 0];
            let mut r = WireReader::new(&bytes);
            assert_eq!(Header::from_header(&mut r).unwrap().opcode, op);
        }
    }
}

#[test]
fn every_unnamed_opcode_value_reads_as_query() {
    for value in [0u8, 3, 7, 8, 12, 15] {
        let bytes = [0, 1, 0x87 | (value << 3), 0, 0, 0, 0, 0, 0, 0, 0, 0];
        let mut r = WireReader::new(&bytes);
        assert_eq!(Header::from_header(&mut r).unwrap().opcode, Opcode::Query);
    }
}
