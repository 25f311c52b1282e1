//! Resource records of the answer, authority and additional sections.

use vstd::prelude::*;

use crate::dns::question::{
    any_type_text, class_of_code, type_of_code, RecordClass, RecordType, RecordTypeOrUnknown,
};
use crate::dns::wire::{
    and_then, be32, be_number, decode_bytes, decode_i32, decode_name, decode_u16, decode_u32,
    lemma_be_number_four, lemma_be_number_of_four, lemma_integer_reads, lemma_name_ends_after,
    outcome_agrees, result_agrees, shortage_message, Decoded, WireReader,
};
use crate::error::{ErrorView, ResolverError};
use crate::text::{
    decimal, decimal_i64, decimal_u64, lossy_string, lossy_text, lower_text, signed_decimal, strip_dot,
    strip_trailing_dot, to_lowercase,
};

verus! {

/// The data of a record, by its type.  Addresses are kept as the number
/// their bytes spell, most significant first.
#[derive(Debug, Clone)]
pub enum RData {
    A(u32),
    Ns(String),
    Cname(String),
    Soa {
        mname: String,
        rname: String,
        serial: u32,
        refresh: i32,
        retry: i32,
        expire: i32,
        minimum: u32,
    },
    Mx { preference: u16, exchange: String },
    Txt(Vec<String>),
    Aaaa(u128),
    Srv { priority: u16, weight: u16, port: u16, target: String },
    Unknown(Vec<u8>),
}

/// The view of record data: texts as character sequences.
pub enum RDataView {
    A(u32),
    Ns(Seq<char>),
    Cname(Seq<char>),
    Soa {
        mname: Seq<char>,
        rname: Seq<char>,
        serial: u32,
        refresh: i32,
        retry: i32,
        expire: i32,
        minimum: u32,
    },
    Mx { preference: u16, exchange: Seq<char> },
    Txt(Seq<Seq<char>>),
    Aaaa(u128),
    Srv { priority: u16, weight: u16, port: u16, target: Seq<char> },
    Unknown(Seq<u8>),
}

impl View for RData {
    type V = RDataView;

    open spec fn view(&self) -> RDataView {
        match self {
            RData::A(a) => RDataView::A(*a),
            RData::Ns(s) => RDataView::Ns(s@),
            RData::Cname(s) => RDataView::Cname(s@),
            RData::Soa { mname, rname, serial, refresh, retry, expire, minimum } => RDataView::Soa {
                mname: mname@,
                rname: rname@,
                serial: *serial,
                refresh: *refresh,
                retry: *retry,
                expire: *expire,
                minimum: *minimum,
            },
            RData::Mx { preference, exchange } => RDataView::Mx {
                preference: *preference,
                exchange: exchange@,
            },
            RData::Txt(strings) => RDataView::Txt(strings@.map_values(|s: String| s@)),
            RData::Aaaa(a) => RDataView::Aaaa(*a),
            RData::Srv { priority, weight, port, target } => RDataView::Srv {
                priority: *priority,
                weight: *weight,
                port: *port,
                target: target@,
            },
            RData::Unknown(bytes) => RDataView::Unknown(bytes@),
        }
    }
}

/// A resource record.
#[derive(Debug, Clone)]
pub struct ResourceRecord {
    pub name: String,
    pub rtype: RecordTypeOrUnknown,
    pub class: RecordClass,
    pub ttl: i32,
    pub rdata: RData,
}

/// The view of a resource record.
pub struct RecordView {
    pub name: Seq<char>,
    pub rtype: RecordTypeOrUnknown,
    pub class: RecordClass,
    pub ttl: i32,
    pub rdata: RDataView,
}

impl View for ResourceRecord {
    type V = RecordView;

    open spec fn view(&self) -> RecordView {
        RecordView {
            name: self.name@,
            rtype: self.rtype,
            class: self.class,
            ttl: self.ttl,
            rdata: self.rdata@,
        }
    }
}

/// The value of sixteen bytes read as four 32-bit words, most significant
/// first.
pub open spec fn be128(w0: u32, w1: u32, w2: u32, w3: u32) -> int {
    w0 * 0x1_0000_0000_0000_0000_0000_0000 + w1 * 0x1_0000_0000_0000_0000 + w2 * 0x1_0000_0000 + w3
}

/// Reading the character strings of a TXT record from `pos` while the
/// position is before `end`: each is a length byte and that many bytes,
/// decoded as UTF-8 with replacement.  The last may run past `end`.
pub open spec fn decode_txt(buf: Seq<u8>, pos: int, end: int, acc: Seq<Seq<char>>) -> Decoded<Seq<Seq<char>>>
    decreases if pos < end { end - pos } else { 0 },
{
    if pos >= end {
        Decoded::Value(acc, pos)
    } else if pos + 1 > buf.len() {
        Decoded::Error(ErrorView::Protocol(shortage_message(1, pos, buf.len() as int)), pos)
    } else {
        let len = buf[pos] as int;
        if pos + 1 + len > buf.len() {
            Decoded::Error(ErrorView::Protocol(shortage_message(len, pos + 1, buf.len() as int)), pos + 1)
        } else {
            decode_txt(buf, pos + 1 + len, end, acc.push(lossy_text(buf.subrange(pos + 1, pos + 1 + len))))
        }
    }
}

/// Reading the last three numbers of SOA data.
pub open spec fn decode_soa_limits(
    buf: Seq<u8>,
    pos: int,
    mname: Seq<char>,
    rname: Seq<char>,
    serial: u32,
    refresh: i32,
) -> Decoded<RDataView> {
    and_then(
        decode_i32(buf, pos),
        |retry: i32, p1: int|
            and_then(
                decode_i32(buf, p1),
                |expire: i32, p2: int|
                    and_then(
                        decode_u32(buf, p2),
                        |minimum: u32, p3: int|
                            Decoded::Value(
                                RDataView::Soa { mname, rname, serial, refresh, retry, expire, minimum },
                                p3,
                            ),
                    ),
            ),
    )
}

/// Reading SOA data: two names, then serial, refresh, retry, expire and
/// minimum.
pub open spec fn decode_soa(buf: Seq<u8>, pos: int) -> Decoded<RDataView> {
    and_then(
        decode_name(buf, pos),
        |mname: Seq<char>, p1: int|
            and_then(
                decode_name(buf, p1),
                |rname: Seq<char>, p2: int|
                    and_then(
                        decode_u32(buf, p2),
                        |serial: u32, p3: int|
                            and_then(
                                decode_i32(buf, p3),
                                |refresh: i32, p4: int| decode_soa_limits(buf, p4, mname, rname, serial, refresh),
                            ),
                    ),
            ),
    )
}

/// Reading AAAA data: four 32-bit words.
pub open spec fn decode_aaaa(buf: Seq<u8>, pos: int) -> Decoded<RDataView> {
    and_then(
        decode_u32(buf, pos),
        |w0: u32, p1: int|
            and_then(
                decode_u32(buf, p1),
                |w1: u32, p2: int|
                    and_then(
                        decode_u32(buf, p2),
                        |w2: u32, p3: int|
                            and_then(
                                decode_u32(buf, p3),
                                |w3: u32, p4: int| Decoded::Value(RDataView::Aaaa(be128(w0, w1, w2, w3) as u128), p4),
                            ),
                    ),
            ),
    )
}

/// Reading SRV data: priority, weight, port and target name.
pub open spec fn decode_srv(buf: Seq<u8>, pos: int) -> Decoded<RDataView> {
    and_then(
        decode_u16(buf, pos),
        |priority: u16, p1: int|
            and_then(
                decode_u16(buf, p1),
                |weight: u16, p2: int|
                    and_then(
                        decode_u16(buf, p2),
                        |port: u16, p3: int|
                            and_then(
                                decode_name(buf, p3),
                                |target: Seq<char>, p4: int| Decoded::Value(RDataView::Srv { priority, weight, port, target }, p4),
                            ),
                    ),
            ),
    )
}

/// Reading the data of a record of type `rtype` whose data length is
/// `rdlen`, from `pos`: by the layout of its type, or as `rdlen` raw bytes
/// for any other type.
pub open spec fn decode_rdata(buf: Seq<u8>, pos: int, rtype: RecordTypeOrUnknown, rdlen: u16) -> Decoded<RDataView> {
    match rtype {
        RecordTypeOrUnknown::Known(RecordType::A) => and_then(
            decode_u32(buf, pos),
            |a: u32, p: int| Decoded::Value(RDataView::A(a), p),
        ),
        RecordTypeOrUnknown::Known(RecordType::NS) => and_then(
            decode_name(buf, pos),
            |n: Seq<char>, p: int| Decoded::Value(RDataView::Ns(n), p),
        ),
        RecordTypeOrUnknown::Known(RecordType::CNAME) => and_then(
            decode_name(buf, pos),
            |n: Seq<char>, p: int| Decoded::Value(RDataView::Cname(n), p),
        ),
        RecordTypeOrUnknown::Known(RecordType::SOA) => decode_soa(buf, pos),
        RecordTypeOrUnknown::Known(RecordType::MX) => and_then(
            decode_u16(buf, pos),
            |preference: u16, p1: int|
                and_then(
                    decode_name(buf, p1),
                    |exchange: Seq<char>, p2: int| Decoded::Value(RDataView::Mx { preference, exchange }, p2),
                ),
        ),
        RecordTypeOrUnknown::Known(RecordType::TXT) => and_then(
            decode_txt(buf, pos, pos + rdlen, seq![]),
            |strings: Seq<Seq<char>>, p: int| Decoded::Value(RDataView::Txt(strings), p),
        ),
        RecordTypeOrUnknown::Known(RecordType::AAAA) => decode_aaaa(buf, pos),
        RecordTypeOrUnknown::Known(RecordType::SRV) => decode_srv(buf, pos),
        _ => and_then(
            decode_bytes(buf, pos, rdlen as int),
            |bytes: Seq<u8>, p: int| Decoded::Value(RDataView::Unknown(bytes), p),
        ),
    }
}

/// After the data of a record read from `start` to `p`: the rest of its
/// `rdlen` bytes, if the data took fewer, are skipped.
pub open spec fn skip_rest(buf: Seq<u8>, start: int, p: int, rdlen: u16) -> Decoded<()> {
    if p - start < rdlen {
        and_then(decode_bytes(buf, p, rdlen - (p - start)), |b: Seq<u8>, q: int| Decoded::Value((), q))
    } else {
        Decoded::Value((), p)
    }
}

/// Reading a record's data and what follows it, given its owner name, type
/// and class codes, time to live and data length.
pub open spec fn decode_record_body(
    buf: Seq<u8>,
    pos: int,
    name: Seq<char>,
    t: u16,
    c: u16,
    ttl: i32,
    rdlen: u16,
) -> Decoded<RecordView> {
    and_then(
        decode_rdata(buf, pos, type_of_code(t), rdlen),
        |rdata: RDataView, p: int|
            and_then(
                skip_rest(buf, pos, p, rdlen),
                |u: (), q: int|
                    Decoded::Value(
                        RecordView {
                            name: lower_text(strip_dot(name)),
                            rtype: type_of_code(t),
                            class: class_of_code(c),
                            ttl,
                            rdata,
                        },
                        q,
                    ),
            ),
    )
}

/// Reading a record: its owner name, type, class, time to live and data
/// length, then its data.  The owner name is kept without its final dot,
/// and lower-cased.
pub open spec fn decode_record(buf: Seq<u8>, pos: int) -> Decoded<RecordView> {
    and_then(
        decode_name(buf, pos),
        |name: Seq<char>, p1: int|
            and_then(
                decode_u16(buf, p1),
                |t: u16, p2: int|
                    and_then(
                        decode_u16(buf, p2),
                        |c: u16, p3: int|
                            and_then(
                                decode_i32(buf, p3),
                                |ttl: i32, p4: int|
                                    and_then(
                                        decode_u16(buf, p4),
                                        |rdlen: u16, p5: int| decode_record_body(buf, p5, name, t, c, ttl, rdlen),
                                    ),
                            ),
                    ),
            ),
    )
}

impl ResourceRecord {
    /// Reads a record.  `None` is the case of a too-long label, in the
    /// owner name or in a name of the data, whose bytes run past the end of
    /// the buffer.
    pub fn from_reader_checked(reader: &mut WireReader<'_>) -> (r: Option<Result<Self, ResolverError>>)
        requires
            old(reader).wf(),
        ensures
            final(reader).wf(),
            final(reader).bytes() == old(reader).bytes(),
            outcome_agrees(r, decode_record(old(reader).bytes(), old(reader).cursor()), final(reader).cursor()),
    {
        let name = match reader.read_name_checked() {
            None => {
                return None;
            },
            Some(Err(e)) => {
                return Some(Err(e));
            },
            Some(Ok(n)) => n,
        };
        let raw_type = match reader.read_u16() {
            Err(e) => {
                return Some(Err(e));
            },
            Ok(v) => v,
        };
        let raw_class = match reader.read_u16() {
            Err(e) => {
                return Some(Err(e));
            },
            Ok(v) => v,
        };
        let ttl = match reader.read_i32() {
            Err(e) => {
                return Some(Err(e));
            },
            Ok(v) => v,
        };
        let rd_length_raw = match reader.read_u16() {
            Err(e) => {
                return Some(Err(e));
            },
            Ok(v) => v,
        };
        let rd_length = rd_length_raw as usize;

        let rtype = RecordType::from_u16(raw_type);
        let class = RecordClass::from_u16(raw_class);

        let rdata_start = reader.position();
        let rdata = match Self::read_rdata(reader, rtype, rd_length_raw) {
            None => {
                return None;
            },
            Some(Err(e)) => {
                return Some(Err(e));
            },
            Some(Ok(d)) => d,
        };

        let consumed = reader.position() - rdata_start;
        if consumed < rd_length {
            if let Err(e) = reader.skip(rd_length - consumed) {
                return Some(Err(e));
            }
        }

        Some(
            Ok(
                Self {
                    name: to_lowercase(strip_trailing_dot(name.as_str())),
                    rtype,
                    class,
                    ttl,
                    rdata,
                },
            ),
        )
    }

    pub fn from_reader(reader: &mut WireReader<'_>) -> (r: Result<Self, ResolverError>)
        requires
            old(reader).wf(),
            !decode_record(old(reader).bytes(), old(reader).cursor()).is_overrun(),
        ensures
            final(reader).wf(),
            final(reader).bytes() == old(reader).bytes(),
            result_agrees(r, decode_record(old(reader).bytes(), old(reader).cursor()), final(reader).cursor()),
    {
        Self::from_reader_checked(reader).unwrap()
    }

    /// Reads the data of a record of type `rtype` and data length
    /// `rd_length`; the reader ends no earlier than it started.
    fn read_rdata(reader: &mut WireReader<'_>, rtype: RecordTypeOrUnknown, rd_length: u16) -> (r: Option<Result<RData, ResolverError>>)
        requires
            old(reader).wf(),
        ensures
            final(reader).wf(),
            final(reader).bytes() == old(reader).bytes(),
            outcome_agrees(r, decode_rdata(old(reader).bytes(), old(reader).cursor(), rtype, rd_length), final(reader).cursor()),
            r matches Some(Ok(_)) ==> final(reader).cursor() >= old(reader).cursor(),
    {
        let ghost start = reader.cursor();
        match rtype {
            RecordTypeOrUnknown::Known(RecordType::A) => match reader.read_u32() {
                Err(e) => Some(Err(e)),
                Ok(v) => Some(Ok(RData::A(v))),
            },
            RecordTypeOrUnknown::Known(RecordType::NS) => match reader.read_name_checked() {
                None => None,
                Some(Err(e)) => Some(Err(e)),
                Some(Ok(n)) => {
                    proof {
                        lemma_name_ends_after(old(reader).bytes(), start);
                    }
                    Some(Ok(RData::Ns(n)))
                },
            },
            RecordTypeOrUnknown::Known(RecordType::CNAME) => match reader.read_name_checked() {
                None => None,
                Some(Err(e)) => Some(Err(e)),
                Some(Ok(n)) => {
                    proof {
                        lemma_name_ends_after(old(reader).bytes(), start);
                    }
                    Some(Ok(RData::Cname(n)))
                },
            },
            RecordTypeOrUnknown::Known(RecordType::SOA) => Self::read_soa(reader),
            RecordTypeOrUnknown::Known(RecordType::MX) => {
                let preference = match reader.read_u16() {
                    Err(e) => {
                        return Some(Err(e));
                    },
                    Ok(v) => v,
                };
                let ghost p1 = reader.cursor();
                match reader.read_name_checked() {
                    None => None,
                    Some(Err(e)) => Some(Err(e)),
                    Some(Ok(exchange)) => {
                        proof {
                            lemma_name_ends_after(old(reader).bytes(), p1);
                        }
                        Some(Ok(RData::Mx { preference, exchange }))
                    },
                }
            },
            RecordTypeOrUnknown::Known(RecordType::TXT) => {
                let end = reader.position() + rd_length as usize;
                match Self::read_txt(reader, end) {
                    Err(e) => Some(Err(e)),
                    Ok(strings) => Some(Ok(RData::Txt(strings))),
                }
            },
            RecordTypeOrUnknown::Known(RecordType::AAAA) => match Self::read_aaaa(reader) {
                Err(e) => Some(Err(e)),
                Ok(v) => Some(Ok(RData::Aaaa(v))),
            },
            RecordTypeOrUnknown::Known(RecordType::SRV) => Self::read_srv(reader),
            _ => match reader.read_vec(rd_length as usize) {
                Err(e) => Some(Err(e)),
                Ok(bytes) => Some(Ok(RData::Unknown(bytes))),
            },
        }
    }

    /// Reads SOA data: two names, then serial, refresh, retry, expire and
    /// minimum.
    fn read_soa(reader: &mut WireReader<'_>) -> (r: Option<Result<RData, ResolverError>>)
        requires
            old(reader).wf(),
        ensures
            final(reader).wf(),
            final(reader).bytes() == old(reader).bytes(),
            outcome_agrees(r, decode_soa(old(reader).bytes(), old(reader).cursor()), final(reader).cursor()),
            r matches Some(Ok(_)) ==> final(reader).cursor() >= old(reader).cursor(),
    {
        let ghost p0 = reader.cursor();
        let mname = match reader.read_name_checked() {
            None => {
                return None;
            },
            Some(Err(e)) => {
                return Some(Err(e));
            },
            Some(Ok(n)) => n,
        };
        let ghost p1 = reader.cursor();
        let rname = match reader.read_name_checked() {
            None => {
                return None;
            },
            Some(Err(e)) => {
                return Some(Err(e));
            },
            Some(Ok(n)) => n,
        };
        proof {
            lemma_name_ends_after(old(reader).bytes(), p0);
            lemma_name_ends_after(old(reader).bytes(), p1);
        }
        let serial = match reader.read_u32() {
            Err(e) => {
                return Some(Err(e));
            },
            Ok(v) => v,
        };
        let refresh = match reader.read_i32() {
            Err(e) => {
                return Some(Err(e));
            },
            Ok(v) => v,
        };
        let retry = match reader.read_i32() {
            Err(e) => {
                return Some(Err(e));
            },
            Ok(v) => v,
        };
        let expire = match reader.read_i32() {
            Err(e) => {
                return Some(Err(e));
            },
            Ok(v) => v,
        };
        let minimum = match reader.read_u32() {
            Err(e) => {
                return Some(Err(e));
            },
            Ok(v) => v,
        };
        Some(Ok(RData::Soa { mname, rname, serial, refresh, retry, expire, minimum }))
    }

    /// Reads SRV data: priority, weight, port and target name.
    fn read_srv(reader: &mut WireReader<'_>) -> (r: Option<Result<RData, ResolverError>>)
        requires
            old(reader).wf(),
        ensures
            final(reader).wf(),
            final(reader).bytes() == old(reader).bytes(),
            outcome_agrees(r, decode_srv(old(reader).bytes(), old(reader).cursor()), final(reader).cursor()),
            r matches Some(Ok(_)) ==> final(reader).cursor() >= old(reader).cursor(),
    {
        let priority = match reader.read_u16() {
            Err(e) => {
                return Some(Err(e));
            },
            Ok(v) => v,
        };
        let weight = match reader.read_u16() {
            Err(e) => {
                return Some(Err(e));
            },
            Ok(v) => v,
        };
        let port = match reader.read_u16() {
            Err(e) => {
                return Some(Err(e));
            },
            Ok(v) => v,
        };
        let ghost p3 = reader.cursor();
        match reader.read_name_checked() {
            None => None,
            Some(Err(e)) => Some(Err(e)),
            Some(Ok(target)) => {
                proof {
                    lemma_name_ends_after(old(reader).bytes(), p3);
                }
                Some(Ok(RData::Srv { priority, weight, port, target }))
            },
        }
    }

    /// Reads AAAA data: four 32-bit words, as one 128-bit number.
    fn read_aaaa(reader: &mut WireReader<'_>) -> (r: Result<u128, ResolverError>)
        requires
            old(reader).wf(),
        ensures
            final(reader).wf(),
            final(reader).bytes() == old(reader).bytes(),
            match decode_aaaa(old(reader).bytes(), old(reader).cursor()) {
                Decoded::Value(v, p) => r == Ok::<u128, ResolverError>(v->Aaaa_0) && final(reader).cursor() == p
                    && v is Aaaa && p >= old(reader).cursor(),
                Decoded::Error(e, p) => r matches Err(x) && x@ == e && final(reader).cursor() == p,
                Decoded::LabelOverrun => false,
            },
    {
        let w0 = reader.read_u32()?;
        let w1 = reader.read_u32()?;
        let w2 = reader.read_u32()?;
        let w3 = reader.read_u32()?;
        Ok((w0 as u128) * 0x1_0000_0000_0000_0000_0000_0000 + (w1 as u128) * 0x1_0000_0000_0000_0000
            + (w2 as u128) * 0x1_0000_0000 + w3 as u128)
    }

    /// Reads the character strings of a TXT record while the reader stands
    /// before `end`.
    fn read_txt(reader: &mut WireReader<'_>, end: usize) -> (r: Result<Vec<String>, ResolverError>)
        requires
            old(reader).wf(),
        ensures
            final(reader).wf(),
            final(reader).bytes() == old(reader).bytes(),
            match decode_txt(old(reader).bytes(), old(reader).cursor(), end as int, seq![]) {
                Decoded::Value(v, p) => r matches Ok(strings) && strings@.map_values(|s: String| s@) == v
                    && final(reader).cursor() == p && p >= old(reader).cursor(),
                Decoded::Error(e, p) => r matches Err(x) && x@ == e && final(reader).cursor() == p,
                Decoded::LabelOverrun => false,
            },
    {
        let ghost buf = reader.bytes();
        let ghost target = decode_txt(buf, reader.cursor(), end as int, seq![]);
        let mut strings: Vec<String> = Vec::new();
        assert(strings@.map_values(|s: String| s@) =~= Seq::<Seq<char>>::empty());
        while reader.position() < end
            invariant
                reader.wf(),
                reader.bytes() == buf,
                buf == old(reader).bytes(),
                target == decode_txt(old(reader).bytes(), old(reader).cursor(), end as int, seq![]),
                reader.cursor() >= old(reader).cursor(),
                decode_txt(buf, reader.cursor(), end as int, strings@.map_values(|s: String| s@)) == target,
            decreases if reader.cursor() < end { end - reader.cursor() } else { 0 },
        {
            let len = reader.read_u8()? as usize;
            let bytes = reader.read_vec(len)?;
            let ghost before = strings@.map_values(|s: String| s@);
            strings.push(lossy_string(bytes.as_slice()));
            proof {
                assert(strings@.map_values(|s: String| s@) =~= before.push(lossy_text(bytes@)));
            }
        }
        Ok(strings)
    }

}

/// The text of an IPv4 address: its four bytes, most significant first, in
/// decimal, separated by dots.
pub open spec fn ipv4_dotted(bits: u32) -> Seq<char> {
    decimal((bits / 16777216) as nat) + "."@ + decimal(((bits / 65536) % 256) as nat) + "."@
        + decimal(((bits / 256) % 256) as nat) + "."@ + decimal((bits % 256) as nat)
}

/// Writes an IPv4 address as four decimal bytes separated by dots.
pub(crate) fn ipv4_text(bits: u32) -> (s: String)
    ensures
        s@ == ipv4_dotted(bits),
{
    let mut s = decimal_u64((bits / 16777216) as u64);
    s.append(".");
    s.append(decimal_u64(((bits / 65536) % 256) as u64).as_str());
    s.append(".");
    s.append(decimal_u64(((bits / 256) % 256) as u64).as_str());
    s.append(".");
    s.append(decimal_u64((bits % 256) as u64).as_str());
    s
}

/// The fields of record data as a line shows them, each after a tab.
/// `ipv6` stands for the text of the address of AAAA data, which is made
/// elsewhere.
pub open spec fn rdata_fields(rdata: RDataView, ipv6: Seq<char>) -> Seq<char> {
    match rdata {
        RDataView::A(bits) => "\t"@ + ipv4_dotted(bits),
        RDataView::Aaaa(_) => "\t"@ + ipv6,
        RDataView::Ns(ns) => "\t"@ + ns,
        RDataView::Cname(cname) => "\t"@ + cname,
        RDataView::Soa { mname, rname, serial, refresh, retry, expire, minimum } => "\t"@ + mname
            + " "@ + rname + " "@ + decimal(serial as nat) + " "@ + signed_decimal(refresh as int)
            + " "@ + signed_decimal(retry as int) + " "@ + signed_decimal(expire as int) + " "@
            + decimal(minimum as nat),
        RDataView::Mx { preference, exchange } => "\t"@ + decimal(preference as nat) + " "@ + exchange,
        RDataView::Txt(strings) => tabbed_quotes(strings),
        RDataView::Srv { priority, weight, port, target } => "\t"@ + decimal(priority as nat) + " "@
            + decimal(weight as nat) + " "@ + decimal(port as nat) + " "@ + target,
        RDataView::Unknown(bytes) => "\t<"@ + decimal(bytes.len()) + " bytes>"@,
    }
}

/// Each string after a tab, in double quotes.
pub open spec fn tabbed_quotes(strings: Seq<Seq<char>>) -> Seq<char>
    decreases strings.len(),
{
    if strings.len() == 0 {
        seq![]
    } else {
        tabbed_quotes(strings.drop_last()) + "\t\""@ + strings.last() + "\""@
    }
}

/// A record as a line shows it: its owner name, time to live and type,
/// separated by tabs, then the fields of its data.
pub open spec fn record_text(r: RecordView, ipv6: Seq<char>) -> Seq<char> {
    r.name + "\t"@ + signed_decimal(r.ttl as int) + "\t"@ + any_type_text(r.rtype) + rdata_fields(
        r.rdata,
        ipv6,
    )
}

impl ResourceRecord {
    /// The record as a line shows it: owner name, time to live and type,
    /// separated by tabs, then the fields of its data.  `ipv6` is the text
    /// of the address of AAAA data; other data does not use it.
    pub fn text(&self, ipv6: &str) -> (s: String)
        ensures
            s@ == record_text(self@, ipv6@),
    {
        let mut s = self.name.clone();
        s.append("\t");
        s.append(decimal_i64(self.ttl as i64).as_str());
        s.append("\t");
        s.append(self.rtype.text().as_str());
        append_fields(&mut s, &self.rdata, ipv6);
        s
    }
}

/// Appends the fields of record data, each after a tab.
fn append_fields(s: &mut String, rdata: &RData, ipv6: &str)
    ensures
        final(s)@ == old(s)@ + rdata_fields(rdata@, ipv6@),
{
    match rdata {
        RData::A(bits) => {
            s.append("\t");
            s.append(ipv4_text(*bits).as_str());
        },
        RData::Aaaa(_) => {
            s.append("\t");
            s.append(ipv6);
        },
        RData::Ns(ns) => {
            s.append("\t");
            s.append(ns.as_str());
        },
        RData::Cname(cname) => {
            s.append("\t");
            s.append(cname.as_str());
        },
        RData::Soa { .. } => append_soa_fields(s, rdata),
        RData::Mx { preference, exchange } => {
            s.append("\t");
            s.append(decimal_u64(*preference as u64).as_str());
            s.append(" ");
            s.append(exchange.as_str());
        },
        RData::Txt(strings) => {
            let ghost start = s@;
            let n = strings.len();
            for i in 0..n
                invariant
                    n == strings@.len(),
                    s@ == start + tabbed_quotes(strings@.map_values(|t: String| t@).take(i as int)),
            {
                s.append("\t\"");
                s.append(strings[i].as_str());
                s.append("\"");
                proof {
                    let all = strings@.map_values(|t: String| t@);
                    assert(all.take(i + 1).drop_last() =~= all.take(i as int));
                }
            }
            proof {
                let all = strings@.map_values(|t: String| t@);
                assert(all.take(n as int) =~= all);
                assert(all.take(0) =~= Seq::<Seq<char>>::empty());
            }
        },
        RData::Srv { priority, weight, port, target } => {
            s.append("\t");
            s.append(decimal_u64(*priority as u64).as_str());
            s.append(" ");
            s.append(decimal_u64(*weight as u64).as_str());
            s.append(" ");
            s.append(decimal_u64(*port as u64).as_str());
            s.append(" ");
            s.append(target.as_str());
        },
        RData::Unknown(bytes) => {
            s.append("\t<");
            s.append(decimal_u64(bytes.len() as u64).as_str());
            s.append(" bytes>");
        },
    }
}

/// Appends the fields of SOA data, each after a separator.
fn append_soa_fields(s: &mut String, rdata: &RData)
    requires
        rdata is Soa,
    ensures
        final(s)@ == old(s)@ + rdata_fields(rdata@, Seq::empty()),
{
    if let RData::Soa { mname, rname, serial, refresh, retry, expire, minimum } = rdata {
        s.append("\t");
        s.append(mname.as_str());
        s.append(" ");
        s.append(rname.as_str());
        s.append(" ");
        s.append(decimal_u64(*serial as u64).as_str());
        s.append(" ");
        s.append(decimal_i64(*refresh as i64).as_str());
        s.append(" ");
        s.append(decimal_i64(*retry as i64).as_str());
        s.append(" ");
        s.append(decimal_i64(*expire as i64).as_str());
        s.append(" ");
        s.append(decimal_u64(*minimum as u64).as_str());
    }
}

/// Sixteen bytes spell, in base 256, the four 32-bit words they hold, the
/// first most significant.
proof fn lemma_be_number_sixteen(b: Seq<u8>)
    requires
        b.len() == 16,
    ensures
        be_number(b) == be128(
            be32(b[0], b[1], b[2], b[3]) as u32,
            be32(b[4], b[5], b[6], b[7]) as u32,
            be32(b[8], b[9], b[10], b[11]) as u32,
            be32(b[12], b[13], b[14], b[15]) as u32,
        ),
        be_number(b) < 0x1_0000_0000_0000_0000_0000_0000_0000_0000,
{
    let c0 = b.subrange(0, 4);
    let c1 = b.subrange(4, 8);
    let c2 = b.subrange(8, 12);
    let c3 = b.subrange(12, 16);
    lemma_be_number_of_four(c0);
    lemma_be_number_four(c0, c1);
    assert(c0 + c1 =~= b.take(8));
    lemma_be_number_four(b.take(8), c2);
    assert(b.take(8) + c2 =~= b.take(12));
    lemma_be_number_four(b.take(12), c3);
    assert(b.take(12) + c3 =~= b);
    let w0 = be32(b[0], b[1], b[2], b[3]);
    let w1 = be32(b[4], b[5], b[6], b[7]);
    let w2 = be32(b[8], b[9], b[10], b[11]);
    let w3 = be32(b[12], b[13], b[14], b[15]);
    assert(0 <= w0 < 0x1_0000_0000 && 0 <= w1 < 0x1_0000_0000);
    assert(0 <= w2 < 0x1_0000_0000 && 0 <= w3 < 0x1_0000_0000);
    assert(((w0 * 0x1_0000_0000 + w1) * 0x1_0000_0000 + w2) * 0x1_0000_0000 + w3
        == w0 * 0x1_0000_0000_0000_0000_0000_0000 + w1 * 0x1_0000_0000_0000_0000 + w2 * 0x1_0000_0000 + w3)
        by (nonlinear_arith);
    assert(w0 * 0x1_0000_0000_0000_0000_0000_0000 + w1 * 0x1_0000_0000_0000_0000 + w2 * 0x1_0000_0000 + w3
        < 0x1_0000_0000_0000_0000_0000_0000_0000_0000) by (nonlinear_arith)
        requires
            0 <= w0 < 0x1_0000_0000,
            0 <= w1 < 0x1_0000_0000,
            0 <= w2 < 0x1_0000_0000,
            0 <= w3 < 0x1_0000_0000,
    ;
}

/// A addresses: the number four bytes spell, read when they are there.
proof fn lemma_a_data(buf: Seq<u8>, pos: int, rdlen: u16)
    requires
        0 <= pos,
    ensures
        decode_rdata(buf, pos, RecordTypeOrUnknown::Known(RecordType::A), rdlen) is Value <==> pos + 4 <= buf.len(),
        decode_rdata(buf, pos, RecordTypeOrUnknown::Known(RecordType::A), rdlen) matches Decoded::Value(v, p)
            ==> v matches RDataView::A(a) && a == be_number(buf.subrange(pos, pos + 4)) && p == pos + 4,
{
    lemma_integer_reads(buf, pos);
}

/// AAAA addresses: the number sixteen bytes spell, read when they are there.
proof fn lemma_aaaa_data(buf: Seq<u8>, pos: int, rdlen: u16)
    requires
        0 <= pos,
    ensures
        decode_rdata(buf, pos, RecordTypeOrUnknown::Known(RecordType::AAAA), rdlen) is Value <==> pos + 16
            <= buf.len(),
        decode_rdata(buf, pos, RecordTypeOrUnknown::Known(RecordType::AAAA), rdlen) matches Decoded::Value(v, p)
            ==> v matches RDataView::Aaaa(a) && a == be_number(buf.subrange(pos, pos + 16)) && p == pos + 16,
{
    lemma_integer_reads(buf, pos);
    lemma_integer_reads(buf, pos + 4);
    lemma_integer_reads(buf, pos + 8);
    lemma_integer_reads(buf, pos + 12);
    if pos + 16 <= buf.len() {
        let b = buf.subrange(pos, pos + 16);
        lemma_be_number_sixteen(b);
        lemma_be_number_of_four(buf.subrange(pos, pos + 4));
        lemma_be_number_of_four(buf.subrange(pos + 4, pos + 8));
        lemma_be_number_of_four(buf.subrange(pos + 8, pos + 12));
        lemma_be_number_of_four(buf.subrange(pos + 12, pos + 16));
        assert(buf.subrange(pos, pos + 4) =~= b.subrange(0, 4));
        assert(buf.subrange(pos + 4, pos + 8) =~= b.subrange(4, 8));
        assert(buf.subrange(pos + 8, pos + 12) =~= b.subrange(8, 12));
        assert(buf.subrange(pos + 12, pos + 16) =~= b.subrange(12, 16));
    }
}

/// MX and SRV data: their 16-bit numbers and the name after them.
proof fn lemma_mx_srv_data(buf: Seq<u8>, pos: int, rdlen: u16)
    requires
        0 <= pos,
    ensures
        decode_rdata(buf, pos, RecordTypeOrUnknown::Known(RecordType::MX), rdlen) matches Decoded::Value(v, p)
            ==> v matches RDataView::Mx { preference, exchange } && preference == be_number(
            buf.subrange(pos, pos + 2),
        ) && decode_name(buf, pos + 2) == Decoded::Value(exchange, p),
        decode_rdata(buf, pos, RecordTypeOrUnknown::Known(RecordType::SRV), rdlen) matches Decoded::Value(v, p)
            ==> v matches RDataView::Srv { priority, weight, port, target } && priority == be_number(
            buf.subrange(pos, pos + 2),
        ) && weight == be_number(buf.subrange(pos + 2, pos + 4)) && port == be_number(
            buf.subrange(pos + 4, pos + 6),
        ) && decode_name(buf, pos + 6) == Decoded::Value(target, p),
{
    lemma_integer_reads(buf, pos);
    lemma_integer_reads(buf, pos + 2);
    lemma_integer_reads(buf, pos + 4);
}

/// What the data of a record is read as, by its type: an A address is the
/// number its four bytes spell, an AAAA address the number its sixteen
/// bytes spell, both big-endian; NS and CNAME data are the name read there;
/// MX data a 16-bit preference and the name after it; SRV data three 16-bit
/// numbers and the name after them; SOA and TXT data their own layouts;
/// data of any other type its `rdlen` raw bytes.  The fixed-size data is
/// read exactly when the buffer holds it.
pub proof fn lemma_rdata_by_type(buf: Seq<u8>, pos: int, t: RecordTypeOrUnknown, rdlen: u16)
    requires
        0 <= pos,
    ensures
        decode_rdata(buf, pos, RecordTypeOrUnknown::Known(RecordType::A), rdlen) is Value <==> pos + 4 <= buf.len(),
        decode_rdata(buf, pos, RecordTypeOrUnknown::Known(RecordType::A), rdlen) matches Decoded::Value(v, p)
            ==> v matches RDataView::A(a) && a == be_number(buf.subrange(pos, pos + 4)) && p == pos + 4,
        decode_rdata(buf, pos, RecordTypeOrUnknown::Known(RecordType::AAAA), rdlen) is Value <==> pos + 16
            <= buf.len(),
        decode_rdata(buf, pos, RecordTypeOrUnknown::Known(RecordType::AAAA), rdlen) matches Decoded::Value(v, p)
            ==> v matches RDataView::Aaaa(a) && a == be_number(buf.subrange(pos, pos + 16)) && p == pos + 16,
        decode_rdata(buf, pos, RecordTypeOrUnknown::Known(RecordType::NS), rdlen) matches Decoded::Value(v, p)
            ==> v matches RDataView::Ns(n) && decode_name(buf, pos) == Decoded::Value(n, p),
        decode_rdata(buf, pos, RecordTypeOrUnknown::Known(RecordType::CNAME), rdlen) matches Decoded::Value(v, p)
            ==> v matches RDataView::Cname(n) && decode_name(buf, pos) == Decoded::Value(n, p),
        decode_rdata(buf, pos, RecordTypeOrUnknown::Known(RecordType::MX), rdlen) matches Decoded::Value(v, p)
            ==> v matches RDataView::Mx { preference, exchange } && preference == be_number(
            buf.subrange(pos, pos + 2),
        ) && decode_name(buf, pos + 2) == Decoded::Value(exchange, p),
        decode_rdata(buf, pos, RecordTypeOrUnknown::Known(RecordType::SRV), rdlen) matches Decoded::Value(v, p)
            ==> v matches RDataView::Srv { priority, weight, port, target } && priority == be_number(
            buf.subrange(pos, pos + 2),
        ) && weight == be_number(buf.subrange(pos + 2, pos + 4)) && port == be_number(
            buf.subrange(pos + 4, pos + 6),
        ) && decode_name(buf, pos + 6) == Decoded::Value(target, p),
        decode_rdata(buf, pos, RecordTypeOrUnknown::Known(RecordType::SOA), rdlen) matches Decoded::Value(v, _)
            ==> v is Soa,
        decode_rdata(buf, pos, RecordTypeOrUnknown::Known(RecordType::TXT), rdlen) matches Decoded::Value(v, _)
            ==> v is Txt,
        (t is Unknown || t == RecordTypeOrUnknown::Known(RecordType::ANY)) ==> (decode_rdata(buf, pos, t, rdlen)
            is Value <==> pos + rdlen <= buf.len()),
        (t is Unknown || t == RecordTypeOrUnknown::Known(RecordType::ANY)) ==> (decode_rdata(
            buf,
            pos,
            t,
            rdlen,
        ) matches Decoded::Value(v, p) ==> v == RDataView::Unknown(buf.subrange(pos, pos + rdlen)) && p == pos
            + rdlen),
{
    lemma_a_data(buf, pos, rdlen);
    lemma_aaaa_data(buf, pos, rdlen);
    lemma_mx_srv_data(buf, pos, rdlen);
}

} // verus!
