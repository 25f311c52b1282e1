use dns_resolver::dns::answer::{RData, ResourceRecord};
use dns_resolver::dns::question::{RecordClass, RecordType, RecordTypeOrUnknown};
use dns_resolver::dns::wire::WireReader;

/// Owner name "example.com" at offset 0 of the buffer, then a record header.
fn record(rtype: u16, ttl: i32, rdata: &[u8]) -> Vec<u8> {
    let mut b = vec![7, b'E', b'x', b'a', b'm', b'p', b'l', b'e', 3, b'c', b'o', b'm', 0];
    b.extend_from_slice(&rtype.to_be_bytes());
    b.extend_from_slice(&1u16.to_be_bytes());
    b.extend_from_slice(&ttl.to_be_bytes());
    b.extend_from_slice(&(rdata.len() as u16).to_be_bytes());
    b.extend_from_slice(rdata);
    b
}

fn read(bytes: &[u8]) -> (ResourceRecord, usize) {
    let mut r = WireReader::new(bytes);
    let rr = ResourceRecord::from_reader(&mut r).unwrap();
    (rr, r.position())
}

#[test]
fn a_record() {
    let bytes = record(1, 300, &[93, 184, 216, 34]);
    let (rr, pos) = read(&bytes);
    assert_eq!(rr.name, "example.com");
    assert_eq!(rr.rtype, RecordTypeOrUnknown::Known(RecordType::A));
    assert_eq!(rr.class, RecordClass::IN);
    assert_eq!(rr.ttl, 300);
    assert!(matches!(rr.rdata, RData::A(0x5db8d822)));
    assert_eq!(pos, bytes.len());
    assert_eq!(rr.text(""), "example.com\t300\tA\t93.184.216.34");
}

#[test]
fn aaaa_record() {
    let addr: [u8; 16] = [0x20, 0x01, 0x0d, 0xb8, 0, 0, 0, 0, 0, 0, 0, 0, 0, 0, 0, 1];
    let bytes = record(28, 60, &addr);
    let (rr, _) = read(&bytes);
    match rr.rdata {
        RData::Aaaa(v) => assert_eq!(v, u128::from_be_bytes(addr)),
        other => panic!("unexpected {other:?}"),
    }
}

#[test]
fn mx_record_with_compressed_exchange() {
    let bytes = record(15, 3600, &[0, 10, 4, b'm', b'a', b'i', b'l', 0xC0, 0x00]);
    let (rr, pos) = read(&bytes);
    match &rr.rdata {
        RData::Mx { preference, exchange } => {
            assert_eq!(*preference, 10);
            assert_eq!(exchange, "mail.example.com.");
        }
        other => panic!("unexpected {other:?}"),
    }
    assert_eq!(pos, bytes.len());
    assert_eq!(rr.text(""), "example.com\t3600\tMX\t10 mail.example.com.");
}

#[test]
fn txt_record_with_invalid_utf8() {
    let bytes = record(16, 5, &[2, b'h', b'i', 3, 0xff, b'o', b'k']);
    let (rr, _) = read(&bytes);
    match &rr.rdata {
        RData::Txt(strings) => {
            assert_eq!(strings.len(), 2);
            assert_eq!(strings[0], "hi");
            assert_eq!(strings[1], "\u{FFFD}ok");
        }
        other => panic!("unexpected {other:?}"),
    }
    assert_eq!(rr.text(""), "example.com\t5\tTXT\t\"hi\"\t\"\u{FFFD}ok\"");
}

#[test]
fn soa_record() {
    let mut data = vec![2, b'n', b's', 0xC0, 0x00, 0xC0, 0x00];
    data.extend_from_slice(&2024u32.to_be_bytes());
    data.extend_from_slice(&7200i32.to_be_bytes());
    data.extend_from_slice(&(-1i32).to_be_bytes());
    data.extend_from_slice(&1209600i32.to_be_bytes());
    data.extend_from_slice(&300u32.to_be_bytes());
    let bytes = record(6, 100, &data);
    let (rr, pos) = read(&bytes);
    assert_eq!(pos, bytes.len());
    assert_eq!(
        rr.text(""),
        "example.com\t100\tSOA\tns.example.com. example.com. 2024 7200 -1 1209600 300"
    );
}

#[test]
fn srv_record() {
    let data = [0, 1, 0, 2, 0x13, 0xc4, 0xC0, 0x00];
    let bytes = record(33, 10, &data);
    let (rr, _) = read(&bytes);
    assert_eq!(rr.text(""), "example.com\t10\tSRV\t1 2 5060 example.com.");
}

#[test]
fn unknown_type_keeps_raw_bytes() {
    let bytes = record(99, -5, &[1, 2, 3]);
    let (rr, pos) = read(&bytes);
    assert_eq!(rr.rtype, RecordTypeOrUnknown::Unknown(99));
    assert!(matches!(&rr.rdata, RData::Unknown(b) if b == &vec![1, 2, 3]));
    assert_eq!(pos, bytes.len());
    assert_eq!(rr.text(""), "example.com\t-5\tTYPE99\t<3 bytes>");
}

#[test]
fn rest_of_data_is_skipped() {
    // A CNAME whose data length claims more than the name takes.
    let mut bytes = record(5, 1, &[1, b'x', 0xC0, 0x00, 9, 9]);
    bytes.push(0x77);
    let (rr, pos) = read(&bytes);
    assert!(matches!(&rr.rdata, RData::Cname(c) if c == "x.example.com."));
    assert_eq!(pos, bytes.len() - 1);
}

#[test]
fn short_data_is_an_error() {
    let mut bytes = record(1, 1, &[1, 2, 3, 4]);
    bytes.truncate(bytes.len() - 2);
    let mut r = WireReader::new(&bytes);
    assert!(ResourceRecord::from_reader(&mut r).is_err());
}
