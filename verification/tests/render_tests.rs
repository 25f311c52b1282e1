use dns_resolver::dns::answer::RData;
use dns_resolver::render::{format_rdata, format_ttl, format_type, summary_line};

#[test]
fn type_labels_are_bold_and_coloured() {
    assert_eq!(format_type(&RData::A(0)), "\x1b[1m\x1b[34mA\x1b[39m\x1b[0m");
    assert_eq!(format_type(&RData::Srv { priority: 0, weight: 0, port: 0, target: String::new() }), "\x1b[1m\x1b[35mSRV\x1b[39m\x1b[0m");
    assert_eq!(format_type(&RData::Unknown(vec![])), "\x1b[1m\x1b[37m?\x1b[39m\x1b[0m");
}

#[test]
fn ttls() {
    assert_eq!(format_ttl(-1), "\x1b[2m-\x1b[0m");
    assert_eq!(format_ttl(59), "\x1b[2m59s\x1b[0m");
    assert_eq!(format_ttl(60), "\x1b[2m1m\x1b[0m");
    assert_eq!(format_ttl(3600), "\x1b[2m60m\x1b[0m");
    assert_eq!(format_ttl(7201), "\x1b[2m2h\x1b[0m");
}

#[test]
fn rdata_texts() {
    assert_eq!(format_rdata(&RData::A(0x01020304), ""), "\x1b[32m1.2.3.4\x1b[39m");
    assert_eq!(format_rdata(&RData::A(0), ""), "\x1b[32m0.0.0.0\x1b[39m");
    assert_eq!(format_rdata(&RData::A(0xFFFF_FFFF), ""), "\x1b[32m255.255.255.255\x1b[39m");
    assert_eq!(format_rdata(&RData::A(0x0A00_FF01), "::1"), "\x1b[32m10.0.255.1\x1b[39m");
    assert_eq!(format_rdata(&RData::Cname("x.".to_string()), ""), "-> \x1b[97mx.\x1b[39m");
    assert_eq!(
        format_rdata(&RData::Mx { preference: 5, exchange: "m.".to_string() }, ""),
        "5 \x1b[97mm.\x1b[39m"
    );
    assert_eq!(
        format_rdata(&RData::Txt(vec!["a".to_string(), "b c".to_string()]), ""),
        "\"a\" \"b c\""
    );
    assert_eq!(
        format_rdata(
            &RData::Soa {
                mname: "ns.".to_string(),
                rname: "admin.".to_string(),
                serial: 1,
                refresh: 2,
                retry: -3,
                expire: 4,
                minimum: 5
            },
            ""
        ),
        "MNAME=ns. RNAME=admin.\n\n                SERIAL=1 REFRESH=2\n \n                RETRY=-3 EXPIRE=4 MINIMUM=5"
    );
    assert_eq!(
        format_rdata(&RData::Unknown(vec![1, 2]), ""),
        "\x1b[2m\n                <2 bytes of unknown data>\n                    \x1b[0m"
    );
}

#[test]
fn every_type_label() {
    let bold = |code: &str, name: &str| format!("\x1b[1m\x1b[{code}m{name}\x1b[39m\x1b[0m");
    assert_eq!(format_type(&RData::Aaaa(1)), bold("34", "AAAA"));
    assert_eq!(format_type(&RData::Ns(String::new())), bold("35", "NS"));
    assert_eq!(format_type(&RData::Cname(String::new())), bold("33", "CNAME"));
    let soa = RData::Soa {
        mname: String::new(),
        rname: String::new(),
        serial: 0,
        refresh: 0,
        retry: 0,
        expire: 0,
        minimum: 0,
    };
    assert_eq!(format_type(&soa), bold("31", "SOA"));
    assert_eq!(format_type(&RData::Mx { preference: 0, exchange: String::new() }), bold("32", "MX"));
    assert_eq!(format_type(&RData::Txt(vec![])), bold("36", "TXT"));
}

#[test]
fn srv_and_ns_texts() {
    assert_eq!(format_rdata(&RData::Ns("ns1.".to_string()), ""), "\x1b[97mns1.\x1b[39m");
    assert_eq!(
        format_rdata(&RData::Srv { priority: 1, weight: 2, port: 3, target: "t.".to_string() }, ""),
        "\n        priority=1 weight=2 port=3 target=\x1b[97mt.\x1b[39m\n            "
    );
    assert_eq!(format_rdata(&RData::Aaaa(1), "::1"), "\x1b[32m::1\x1b[39m");
    assert_eq!(format_rdata(&RData::Txt(vec![]), ""), "");
}

#[test]
fn summary_lines() {
    assert_eq!(
        summary_line("example.com", 0),
        "\x1b[33m->\x1b[39m \x1b[1m\x1b[36mexample.com\x1b[39m\x1b[0m has no records of the requested type"
    );
    assert_eq!(
        summary_line("example.com", 1),
        "\x1b[33m->\x1b[39m \x1b[1m\x1b[36mexample.com\x1b[39m\x1b[0m (1 answer)"
    );
    assert_eq!(
        summary_line("a.b", 12),
        "\x1b[33m->\x1b[39m \x1b[1m\x1b[36ma.b\x1b[39m\x1b[0m (12 answers)"
    );
}
