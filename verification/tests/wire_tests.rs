use dns_resolver::dns::wire::{WireReader, WireWriter};
use dns_resolver::error::ResolverError;

fn protocol_text(e: ResolverError) -> String {
    match e {
        ResolverError::Protocol(s) => s,
        other => panic!("expected a protocol error, got {other:?}"),
    }
}

#[test]
fn reads_big_endian_integers() {
    let buf = [0x12, 0x34, 0x56, 0x78, 0x9a, 0xbc, 0xde, 0xf0, 0xff, 0xff, 0xff, 0xfe];
    let mut r = WireReader::new(&buf);
    assert_eq!(r.read_u8().unwrap(), 0x12);
    assert_eq!(r.read_u16().unwrap(), 0x3456);
    assert_eq!(r.position(), 3);
    assert_eq!(r.read_u32().unwrap(), 0x789abcde);
    r.skip(1).unwrap();
    assert_eq!(r.read_i32().unwrap(), -2);
    assert_eq!(r.position(), 12);
    assert_eq!(r.len(), 12);
}

#[test]
fn read_i32_positive_and_extremes() {
    let buf = [0x7f, 0xff, 0xff, 0xff, 0x80, 0x00, 0x00, 0x00];
    let mut r = WireReader::new(&buf);
    assert_eq!(r.read_i32().unwrap(), i32::MAX);
    assert_eq!(r.read_i32().unwrap(), i32::MIN);
}

#[test]
fn shortage_error_names_need_position_and_length() {
    let buf = [1u8, 2, 3];
    let mut r = WireReader::new(&buf);
    r.skip(2).unwrap();
    let e = r.read_u16().unwrap_err();
    assert_eq!(protocol_text(e), "Unexpected end of message: need 2 bytes at position 2, have 3");
    assert_eq!(r.position(), 2);
    let e = r.read_vec(5).unwrap_err();
    assert_eq!(protocol_text(e), "Unexpected end of message: need 5 bytes at position 2, have 3");
}

#[test]
fn peek_does_not_move_and_read_vec_does() {
    let buf = [9u8, 8, 7, 6];
    let mut r = WireReader::new(&buf);
    assert_eq!(r.peek(2).unwrap(), &[9, 8]);
    assert_eq!(r.position(), 0);
    assert_eq!(r.read_vec(3).unwrap(), vec![9, 8, 7]);
    assert_eq!(r.position(), 3);
    assert!(r.peek(2).is_err());
}

#[test]
fn reads_plain_name_in_lower_case() {
    let buf = [3, b'W', b'w', b'W', 7, b'E', b'x', b'a', b'm', b'p', b'l', b'e', 3, b'c', b'o', b'm', 0, 0xaa];
    let mut r = WireReader::new(&buf);
    assert_eq!(r.read_name().unwrap(), "www.example.com.");
    assert_eq!(r.position(), 17);
}

#[test]
fn reads_root_name() {
    let buf = [0u8, 1];
    let mut r = WireReader::new(&buf);
    assert_eq!(r.read_name().unwrap(), ".");
    assert_eq!(r.position(), 1);
}

#[test]
fn follows_compression_pointer_and_stops_after_it() {
    // "example.com" at 0, then "www" + pointer to 0 at 13.
    let mut buf = vec![7, b'e', b'x', b'a', b'm', b'p', b'l', b'e', 3, b'c', b'o', b'm', 0];
    buf.extend_from_slice(&[3, b'w', b'w', b'w', 0xC0, 0x00, 0x55]);
    let mut r = WireReader::new(&buf);
    r.skip(13).unwrap();
    assert_eq!(r.read_name().unwrap(), "www.example.com.");
    assert_eq!(r.position(), 19);
}

#[test]
fn pointer_to_root_reads_as_root() {
    let buf = [0u8, 0xC0, 0x00];
    let mut r = WireReader::new(&buf);
    r.skip(1).unwrap();
    assert_eq!(r.read_name().unwrap(), ".");
    assert_eq!(r.position(), 3);
}

#[test]
fn pointer_loop_is_refused() {
    let buf = [0xC0u8, 0x00];
    let mut r = WireReader::new(&buf);
    assert!(matches!(r.read_name(), Err(ResolverError::PointerLoop)));
}

#[test]
fn pointer_out_of_bounds_is_refused() {
    let buf = [0xC0u8, 0x10];
    let mut r = WireReader::new(&buf);
    assert!(matches!(r.read_name(), Err(ResolverError::InvalidPointer { offset: 16, len: 2 })));
}

#[test]
fn truncated_pointer_and_label_and_end() {
    let mut r = WireReader::new(&[0xC0u8]);
    assert_eq!(protocol_text(r.read_name().unwrap_err()), "truncated compression pointer");
    let mut r = WireReader::new(&[3u8, b'a', b'b']);
    assert_eq!(protocol_text(r.read_name().unwrap_err()), "truncated label in name");
    let mut r = WireReader::new(&[1u8, b'a']);
    assert_eq!(
        protocol_text(r.read_name().unwrap_err()),
        "unexpected end of message while reading label"
    );
    assert_eq!(r.position(), 2);
}

#[test]
fn too_long_label_is_refused_with_its_text() {
    let mut buf = vec![64u8];
    buf.extend(std::iter::repeat(b'x').take(64));
    let mut r = WireReader::new(&buf);
    match r.read_name() {
        Err(ResolverError::LabelTooLong { label }) => assert_eq!(label, "x".repeat(64)),
        other => panic!("unexpected {other:?}"),
    }
}

#[test]
fn too_long_label_past_the_end_is_reported_as_overrun() {
    let buf = [64u8, b'x', b'y'];
    let mut r = WireReader::new(&buf);
    assert!(r.read_name_checked().is_none());
}

#[test]
fn writes_integers_big_endian() {
    let mut w = WireWriter::new();
    assert!(w.is_empty());
    w.write_u8(1);
    w.write_u16(0x0203);
    w.write_u32(0x04050607);
    w.write_bytes(&[8, 9]);
    assert_eq!(w.len(), 9);
    w.set_u16(0, 0xaabb);
    assert_eq!(w.into_bytes(), vec![0xaa, 0xbb, 3, 4, 5, 6, 7, 8, 9]);
}

#[test]
fn writes_names_as_labels() {
    let mut w = WireWriter::with_capacity(32);
    w.write_name("www.example.com").unwrap();
    let expected = vec![3, b'w', b'w', b'w', 7, b'e', b'x', b'a', b'm', b'p', b'l', b'e', 3, b'c', b'o', b'm', 0];
    assert_eq!(w.into_bytes(), expected);

    let mut w = WireWriter::new();
    w.write_name("www.example.com.").unwrap();
    assert_eq!(w.into_bytes(), expected);
}

#[test]
fn writes_root_name() {
    let mut w = WireWriter::new();
    w.write_name("").unwrap();
    w.write_name(".").unwrap();
    assert_eq!(w.into_bytes(), vec![0, 0]);
}

#[test]
fn empty_label_stops_after_earlier_labels() {
    let mut w = WireWriter::new();
    match w.write_name("a..b") {
        Err(ResolverError::EmptyLabel(name)) => assert_eq!(name, "a..b"),
        other => panic!("unexpected {other:?}"),
    }
    assert_eq!(w.into_bytes(), vec![1, b'a']);
}

#[test]
fn long_label_and_long_name_are_refused() {
    let label = "y".repeat(64);
    let mut w = WireWriter::new();
    match w.write_name(&format!("ok.{label}.com")) {
        Err(ResolverError::LabelTooLong { label: l }) => assert_eq!(l, label),
        other => panic!("unexpected {other:?}"),
    }
    assert_eq!(w.into_bytes(), vec![2, b'o', b'k']);

    let long = vec!["abcdefg"; 32].join(".");
    assert_eq!(long.len(), 255);
    let mut w = WireWriter::new();
    w.write_name(&long).unwrap();

    let too_long = format!("{long}x");
    let mut w = WireWriter::new();
    match w.write_name(&too_long) {
        Err(ResolverError::NameTooLong(n)) => assert_eq!(n, too_long),
        other => panic!("unexpected {other:?}"),
    }
    assert!(w.is_empty());
}

#[test]
fn name_round_trips_through_writer_and_reader() {
    let mut w = WireWriter::new();
    w.write_name("Mail.Example.ORG.").unwrap();
    w.write_u8(0xee);
    let bytes = w.into_bytes();
    let mut r = WireReader::new(&bytes);
    assert_eq!(r.read_name().unwrap(), "mail.example.org.");
    assert_eq!(r.position(), bytes.len() - 1);
}

#[test]
fn label_limit_counts_bytes_not_characters() {
    let mut w = WireWriter::new();
    w.write_name(&"z".repeat(63)).unwrap();
    assert_eq!(w.len(), 65);

    let accented = "é".repeat(32);
    let mut w = WireWriter::new();
    match w.write_name(&accented) {
        Err(ResolverError::LabelTooLong { label }) => assert_eq!(label, accented),
        other => panic!("unexpected {other:?}"),
    }
    assert!(w.is_empty());
}

#[test]
fn chain_of_pointers_to_fresh_offsets_is_followed() {
    let buf = [0u8, 0xC0, 0x00, 0xC0, 0x01];
    let mut r = WireReader::new(&buf);
    r.skip(3).unwrap();
    assert_eq!(r.read_name().unwrap(), ".");
    assert_eq!(r.position(), 5);
}

#[test]
fn any_run_of_reads_keeps_the_cursor_in_the_buffer() {
    let buf = [3u8, b'a', b'b', b'c', 0, 0x12, 0x34, 0xC0, 0x00, 0xff, 0x01];
    let mut r = WireReader::new(&buf);
    let check = |r: &WireReader| {
        assert!(r.position() <= r.len());
        assert_eq!(r.len(), buf.len());
    };
    assert_eq!(r.read_name().unwrap(), "abc.");
    check(&r);
    assert_eq!(r.read_u16().unwrap(), 0x1234);
    check(&r);
    assert!(r.peek(100).is_err());
    check(&r);
    assert_eq!(r.read_name().unwrap(), "abc.");
    check(&r);
    assert!(r.read_u32().is_err());
    check(&r);
    assert!(r.read_vec(3).is_err());
    check(&r);
    assert!(r.skip(5).is_err());
    check(&r);
    assert_eq!(r.read_i32().is_err(), true);
    check(&r);
    assert_eq!(r.read_u8().unwrap(), 0xff);
    check(&r);
    assert_eq!(r.read_vec(1).unwrap(), vec![0x01]);
    check(&r);
    assert!(r.read_u8().is_err());
    assert!(r.read_name().is_err());
    check(&r);
    assert_eq!(r.position(), r.len());
}

#[test]
fn writes_only_append_in_call_order() {
    let mut w = WireWriter::with_capacity(4);
    w.write_u8(7);
    w.write_u16(0x0102);
    w.write_u32(0x03040506);
    w.write_bytes(&[9, 9]);
    w.write_name("a.B").unwrap();
    assert!(w.write_name("x..y").is_err());
    w.write_u8(0xee);
    assert_eq!(w.len(), 1 + 2 + 4 + 2 + 5 + 2 + 1);
    assert_eq!(
        w.into_bytes(),
        vec![7, 1, 2, 3, 4, 5, 6, 9, 9, 1, b'a', 1, b'B', 0, 1, b'x', 0xee]
    );
}
