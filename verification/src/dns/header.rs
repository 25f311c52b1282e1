//! The twelve-byte header of a DNS message.

use vstd::prelude::*;

use crate::dns::wire::{
    and_then, be16_bytes, be_number, decode_u16, decode_u8, lemma_be16_read_back, lemma_be_number_of_two,
    lemma_integer_reads, result_agrees, Decoded, WireReader,
};
use crate::error::ResolverError;

verus! {

/// The kind of query a message carries.
#[derive(Debug, Clone, Copy, PartialEq, Eq, Structural)]
pub enum Opcode {
    Query,
    IQuery,
    Status,
    Notify,
    Update,
    /// DNS stateful operations.
    Dso,
}

/// The numeric value of an opcode.
pub open spec fn opcode_value(op: Opcode) -> u8 {
    match op {
        Opcode::Query => 0,
        Opcode::IQuery => 1,
        Opcode::Status => 2,
        Opcode::Notify => 4,
        Opcode::Update => 5,
        Opcode::Dso => 6,
    }
}

/// The opcode of a numeric value; values without a name are read as a query.
pub open spec fn opcode_of_value(v: u8) -> Opcode {
    if v == 1 {
        Opcode::IQuery
    } else if v == 2 {
        Opcode::Status
    } else if v == 4 {
        Opcode::Notify
    } else if v == 5 {
        Opcode::Update
    } else if v == 6 {
        Opcode::Dso
    } else {
        Opcode::Query
    }
}

impl Opcode {
    /// The opcode in bits 3 to 6 of the high flags byte.
    fn from_byte(byte: u8) -> (op: Self)
        ensures
            op == opcode_of_value((byte >> 3) & 0x0F),
    {
        match (byte >> 3) & 0x0F {
            0 => Self::Query,
            1 => Self::IQuery,
            2 => Self::Status,
            4 => Self::Notify,
            5 => Self::Update,
            6 => Self::Dso,
            _ => Self::Query,
        }
    }

    fn value(self) -> (v: u8)
        ensures
            v == opcode_value(self),
    {
        match self {
            Self::Query => 0,
            Self::IQuery => 1,
            Self::Status => 2,
            Self::Notify => 4,
            Self::Update => 5,
            Self::Dso => 6,
        }
    }

    /// The opcode placed in bits 3 to 6.
    fn to_bits(self) -> (b: u8)
        ensures
            b == opcode_value(self) << 3,
    {
        self.value() << 3
    }
}

/// The response code of a message.
#[derive(Debug, Clone, Copy, PartialEq, Eq, Structural)]
pub enum Rcode {
    NoError,
    FormErr,
    ServFail,
    NxDomain,
    NotImp,
    Refused,
    YXDomain,
    YXRRSet,
    NXRRSet,
    NotAuth,
    NotZone,
}

/// The numeric value of a response code.
pub open spec fn rcode_value(r: Rcode) -> u8 {
    match r {
        Rcode::NoError => 0,
        Rcode::FormErr => 1,
        Rcode::ServFail => 2,
        Rcode::NxDomain => 3,
        Rcode::NotImp => 4,
        Rcode::Refused => 5,
        Rcode::YXDomain => 6,
        Rcode::YXRRSet => 7,
        Rcode::NXRRSet => 8,
        Rcode::NotAuth => 9,
        Rcode::NotZone => 10,
    }
}

/// The text that describes a response code.
pub open spec fn rcode_description(r: Rcode) -> Seq<char> {
    match r {
        Rcode::NoError => "No error"@,
        Rcode::FormErr => "Format error"@,
        Rcode::ServFail => "Server failure"@,
        Rcode::NxDomain => "Non-existent domain"@,
        Rcode::NotImp => "Not implemented"@,
        Rcode::Refused => "Query refused"@,
        Rcode::YXDomain => "Name exists when it should not"@,
        Rcode::YXRRSet => "RR set exists when it should not"@,
        Rcode::NXRRSet => "RR set that should exist does not"@,
        Rcode::NotAuth => "Server not authoritative for zone"@,
        Rcode::NotZone => "Name not contained in zone"@,
    }
}

impl Rcode {
    /// The response code of the low flags byte.  The code matched is the
    /// mask `0x0F` itself, not the byte under it, so every byte decodes to
    /// `NoError`.
    fn from_byte(byte: u8) -> (r: Self)
        ensures
            r == Rcode::NoError,
    {
        match 0x0Fu8 {
            0 => Self::NoError,
            1 => Self::FormErr,
            2 => Self::ServFail,
            3 => Self::NxDomain,
            4 => Self::NotImp,
            5 => Self::Refused,
            6 => Self::YXDomain,
            7 => Self::YXRRSet,
            8 => Self::NXRRSet,
            9 => Self::NotAuth,
            10 => Self::NotZone,
            _ => Self::NoError,
        }
    }

    fn value(self) -> (v: u8)
        ensures
            v == rcode_value(self),
    {
        match self {
            Self::NoError => 0,
            Self::FormErr => 1,
            Self::ServFail => 2,
            Self::NxDomain => 3,
            Self::NotImp => 4,
            Self::Refused => 5,
            Self::YXDomain => 6,
            Self::YXRRSet => 7,
            Self::NXRRSet => 8,
            Self::NotAuth => 9,
            Self::NotZone => 10,
        }
    }

    pub fn description(self) -> (s: &'static str)
        ensures
            s@ == rcode_description(self),
    {
        match self {
            Self::NoError => "No error",
            Self::FormErr => "Format error",
            Self::ServFail => "Server failure",
            Self::NxDomain => "Non-existent domain",
            Self::NotImp => "Not implemented",
            Self::Refused => "Query refused",
            Self::YXDomain => "Name exists when it should not",
            Self::YXRRSet => "RR set exists when it should not",
            Self::NXRRSet => "RR set that should exist does not",
            Self::NotAuth => "Server not authoritative for zone",
            Self::NotZone => "Name not contained in zone",
        }
    }
}

/// The header of a DNS message.
#[derive(Debug, Clone, Copy)]
pub struct Header {
    pub id: u16,
    pub qr: bool,
    pub opcode: Opcode,
    pub aa: bool,
    pub tc: bool,
    pub rd: bool,
    pub ra: bool,
    pub ad: bool,
    pub cd: bool,
    pub rcode: Rcode,
    pub qdcount: u16,
    pub ancount: u16,
    pub nscount: u16,
    pub arcount: u16,
}

impl View for Header {
    type V = Header;

    open spec fn view(&self) -> Header {
        *self
    }
}

/// The header that the identifier, the two flag bytes and the four counts
/// make: each flag is its bit, the opcode its four bits, the response code
/// always `NoError`.
pub open spec fn header_of(
    id: u16,
    hi: u8,
    lo: u8,
    qdcount: u16,
    ancount: u16,
    nscount: u16,
    arcount: u16,
) -> Header {
    Header {
        id,
        qr: (hi & 0x80) != 0,
        opcode: opcode_of_value((hi >> 3) & 0x0F),
        aa: (hi & 0x04) != 0,
        tc: (hi & 0x02) != 0,
        rd: (hi & 0x01) != 0,
        ra: (lo & 0x80) != 0,
        ad: (lo & 0x20) != 0,
        cd: (lo & 0x10) != 0,
        rcode: Rcode::NoError,
        qdcount,
        ancount,
        nscount,
        arcount,
    }
}

/// Reading the four counts of a header at `pos`, after its identifier and
/// flag bytes.
pub open spec fn decode_counts(buf: Seq<u8>, pos: int, id: u16, hi: u8, lo: u8) -> Decoded<Header> {
    and_then(
        decode_u16(buf, pos),
        |qd: u16, p1: int|
            and_then(
                decode_u16(buf, p1),
                |an: u16, p2: int|
                    and_then(
                        decode_u16(buf, p2),
                        |ns: u16, p3: int|
                            and_then(
                                decode_u16(buf, p3),
                                |ar: u16, p4: int| Decoded::Value(header_of(id, hi, lo, qd, an, ns, ar), p4),
                            ),
                    ),
            ),
    )
}

/// Reading a header at `pos`: the identifier, two flag bytes and four
/// counts, in that order; the first read that falls short decides the error.
pub open spec fn decode_header(buf: Seq<u8>, pos: int) -> Decoded<Header> {
    and_then(
        decode_u16(buf, pos),
        |id: u16, p1: int|
            and_then(
                decode_u8(buf, p1),
                |hi: u8, p2: int|
                    and_then(decode_u8(buf, p2), |lo: u8, p3: int| decode_counts(buf, p3, id, hi, lo)),
            ),
    )
}

/// The high flags byte: the opcode bits, then the bits of `qr`, `aa`, `tc`
/// and `rd` set as those flags are.
pub open spec fn flags_hi(h: Header) -> u8 {
    let f0 = opcode_value(h.opcode) << 3;
    let f1 = if h.qr { f0 | 0x80 } else { f0 };
    let f2 = if h.aa { f1 | 0x04 } else { f1 };
    let f3 = if h.tc { f2 | 0x02 } else { f2 };
    if h.rd { f3 | 0x01 } else { f3 }
}

/// The low flags byte: the response code, then the bits of `ra`, `ad` and
/// `cd` set as those flags are.
pub open spec fn flags_lo(h: Header) -> u8 {
    let f0 = rcode_value(h.rcode);
    let f1 = if h.ra { f0 | 0x80 } else { f0 };
    let f2 = if h.ad { f1 | 0x20 } else { f1 };
    if h.cd { f2 | 0x10 } else { f2 }
}

/// The twelve bytes of a header.
pub open spec fn header_bytes(h: Header) -> Seq<u8> {
    be16_bytes(h.id) + seq![flags_hi(h), flags_lo(h)] + be16_bytes(h.qdcount) + be16_bytes(
        h.ancount,
    ) + be16_bytes(h.nscount) + be16_bytes(h.arcount)
}

impl Header {
    pub fn from_header(reader: &mut WireReader<'_>) -> (r: Result<Self, ResolverError>)
        requires
            old(reader).wf(),
        ensures
            final(reader).wf(),
            final(reader).bytes() == old(reader).bytes(),
            result_agrees(r, decode_header(old(reader).bytes(), old(reader).cursor()), final(reader).cursor()),
    {
        let id = reader.read_u16()?;

        let flags_hi = reader.read_u8()?;
        let flags_lo = reader.read_u8()?;

        let qr = (flags_hi & 0x80) != 0;
        let opcode = Opcode::from_byte(flags_hi);
        let aa = (flags_hi & 0x04) != 0;
        let tc = (flags_hi & 0x02) != 0;
        let rd = (flags_hi & 0x01) != 0;

        let ra = (flags_lo & 0x80) != 0;
        let ad = (flags_lo & 0x20) != 0;
        let cd = (flags_lo & 0x10) != 0;
        let rcode = Rcode::from_byte(flags_lo);

        let qdcount = reader.read_u16()?;
        let ancount = reader.read_u16()?;
        let nscount = reader.read_u16()?;
        let arcount = reader.read_u16()?;

        Ok(Self { id, qr, opcode, aa, tc, rd, ra, ad, cd, rcode, qdcount, ancount, nscount, arcount })
    }

    /// The header of a new recursive query with one question.
    pub open spec fn spec_new_query(id: u16) -> Header {
        Header {
            id,
            qr: false,
            opcode: Opcode::Query,
            aa: false,
            tc: false,
            rd: true,
            ra: false,
            ad: false,
            cd: false,
            rcode: Rcode::NoError,
            qdcount: 1,
            ancount: 0,
            nscount: 0,
            arcount: 0,
        }
    }

    /// The header of a new recursive query with one question.
    pub fn new_query(id: u16) -> (h: Self)
        ensures
            h == Self::spec_new_query(id),
    {
        Self {
            id,
            qr: false,
            opcode: Opcode::Query,
            aa: false,
            tc: false,
            rd: true,
            ra: false,
            ad: false,
            cd: false,
            rcode: Rcode::NoError,
            qdcount: 1,
            ancount: 0,
            nscount: 0,
            arcount: 0,
        }
    }

    pub fn to_bytes(&self) -> (v: Vec<u8>)
        ensures
            v@ == header_bytes(*self),
    {
        let mut buf = Vec::with_capacity(12);

        push_u16(&mut buf, self.id);

        let mut flags_hi = self.opcode.to_bits();
        if self.qr {
            flags_hi |= 0x80;
        }
        if self.aa {
            flags_hi |= 0x04;
        }
        if self.tc {
            flags_hi |= 0x02;
        }
        if self.rd {
            flags_hi |= 0x01;
        }
        buf.push(flags_hi);

        let mut flags_lo = self.rcode.value();
        if self.ra {
            flags_lo |= 0x80;
        }
        if self.ad {
            flags_lo |= 0x20;
        }
        if self.cd {
            flags_lo |= 0x10;
        }
        buf.push(flags_lo);

        push_u16(&mut buf, self.qdcount);
        push_u16(&mut buf, self.ancount);
        push_u16(&mut buf, self.nscount);
        push_u16(&mut buf, self.arcount);

        assert(buf@ =~= header_bytes(*self));
        buf
    }

    pub fn is_response(&self) -> (b: bool)
        ensures
            b == self.qr,
    {
        self.qr
    }

    pub fn is_truncated(&self) -> (b: bool)
        ensures
            b == self.tc,
    {
        self.tc
    }
}

/// Appends the two bytes of `v`, most significant first.
fn push_u16(buf: &mut Vec<u8>, v: u16)
    ensures
        final(buf)@ == old(buf)@ + be16_bytes(v),
{
    buf.push((v / 256) as u8);
    buf.push((v % 256) as u8);
    assert(buf@ =~= old(buf)@ + be16_bytes(v));
}

} // verus!

verus! {

/// An opcode placed in bits 3 to 6 of a byte reads back as itself, whatever
/// the other bits of the byte are.
pub proof fn lemma_opcode_round_trip(op: Opcode, other: u8)
    ensures
        opcode_of_value((((other & !0x78u8) | (opcode_value(op) << 3)) >> 3) & 0x0Fu8) == op,
{
    let v = opcode_value(op);
    assert(v < 16u8 ==> (((other & !0x78u8) | (v << 3)) >> 3) & 0x0Fu8 == v) by (bit_vector);
}

/// A byte whose bits 3 to 6 hold 0, 3, or 7 to 15 reads as a query.
pub proof fn lemma_unnamed_opcodes_read_as_query(b: u8)
    ensures
        ((b >> 3) & 0x0Fu8) <= 15,
        ((b >> 3) & 0x0Fu8) == 0 || ((b >> 3) & 0x0Fu8) == 3 || ((b >> 3) & 0x0Fu8) >= 7
            ==> opcode_of_value((b >> 3) & 0x0Fu8) == Opcode::Query,
{
    assert(((b >> 3) & 0x0Fu8) <= 15) by (bit_vector);
}

/// Bits placed by the writer of the high flags byte read back as placed.
proof fn lemma_flags_hi_bits(code: u8, qr: bool, aa: bool, tc: bool, rd: bool, f0: u8, f1: u8, f2: u8, f3: u8, f4: u8)
    by (bit_vector)
    requires
        code < 8,
        f0 == code << 3,
        f1 == if qr { f0 | 0x80 } else { f0 },
        f2 == if aa { f1 | 0x04 } else { f1 },
        f3 == if tc { f2 | 0x02 } else { f2 },
        f4 == if rd { f3 | 0x01 } else { f3 },
    ensures
        ((f4 & 0x80) != 0) == qr,
        ((f4 >> 3) & 0x0F) == code,
        ((f4 & 0x04) != 0) == aa,
        ((f4 & 0x02) != 0) == tc,
        ((f4 & 0x01) != 0) == rd,
{
}

/// Bits placed by the writer of the low flags byte read back as placed.
proof fn lemma_flags_lo_bits(code: u8, ra: bool, ad: bool, cd: bool, f0: u8, f1: u8, f2: u8, f3: u8)
    by (bit_vector)
    requires
        code < 16,
        f0 == code,
        f1 == if ra { f0 | 0x80 } else { f0 },
        f2 == if ad { f1 | 0x20 } else { f1 },
        f3 == if cd { f2 | 0x10 } else { f2 },
    ensures
        ((f3 & 0x80) != 0) == ra,
        ((f3 & 0x20) != 0) == ad,
        ((f3 & 0x10) != 0) == cd,
        (f3 & 0x0F) == code,
{
}

/// A header read back from the bytes it was written as, with anything after
/// them, is the header written, but for its response code, which reads as
/// `NoError`; twelve bytes are consumed.
pub proof fn lemma_header_round_trip(h: Header, rest: Seq<u8>)
    ensures
        decode_header(header_bytes(h) + rest, 0) == Decoded::Value(
            Header { rcode: Rcode::NoError, ..h },
            12,
        ),
{
    let f0 = opcode_value(h.opcode) << 3;
    let f1 = if h.qr { f0 | 0x80 } else { f0 };
    let f2 = if h.aa { f1 | 0x04 } else { f1 };
    let f3 = if h.tc { f2 | 0x02 } else { f2 };
    let f4 = if h.rd { f3 | 0x01 } else { f3 };
    lemma_flags_hi_bits(opcode_value(h.opcode), h.qr, h.aa, h.tc, h.rd, f0, f1, f2, f3, f4);
    let g0 = rcode_value(h.rcode);
    let g1 = if h.ra { g0 | 0x80 } else { g0 };
    let g2 = if h.ad { g1 | 0x20 } else { g1 };
    let g3 = if h.cd { g2 | 0x10 } else { g2 };
    lemma_flags_lo_bits(rcode_value(h.rcode), h.ra, h.ad, h.cd, g0, g1, g2, g3);
    let hi = flags_hi(h);
    let lo = flags_lo(h);
    assert(opcode_of_value(opcode_value(h.opcode)) == h.opcode);
    assert(header_of(h.id, hi, lo, h.qdcount, h.ancount, h.nscount, h.arcount) == Header {
        rcode: Rcode::NoError,
        ..h
    });
    let buf = header_bytes(h) + rest;
    assert(buf.subrange(0, 2) =~= be16_bytes(h.id));
    assert(buf.subrange(2, 3) =~= seq![hi]);
    assert(buf.subrange(3, 4) =~= seq![lo]);
    assert(buf.subrange(4, 6) =~= be16_bytes(h.qdcount));
    assert(buf.subrange(6, 8) =~= be16_bytes(h.ancount));
    assert(buf.subrange(8, 10) =~= be16_bytes(h.nscount));
    assert(buf.subrange(10, 12) =~= be16_bytes(h.arcount));
    lemma_be16_read_back(h.id, buf, 0);
    lemma_be16_read_back(h.qdcount, buf, 4);
    lemma_be16_read_back(h.ancount, buf, 6);
    lemma_be16_read_back(h.nscount, buf, 8);
    lemma_be16_read_back(h.arcount, buf, 10);
    assert(decode_u8(buf, 2) == Decoded::Value(hi, 3));
    assert(decode_u8(buf, 3) == Decoded::Value(lo, 4));
    assert(decode_counts(buf, 4, h.id, hi, lo) == Decoded::Value(
        header_of(h.id, hi, lo, h.qdcount, h.ancount, h.nscount, h.arcount),
        12,
    ));
}

/// Reading a header at `pos` succeeds exactly when twelve bytes are there,
/// and takes each field from its place on the wire: the identifier and the
/// four counts are the big-endian numbers of their two bytes; of the third
/// byte, bit 0x80 is `qr`, bits 3 to 6 the opcode, 0x04 `aa`, 0x02 `tc` and
/// 0x01 `rd`; of the fourth, bit 0x80 is `ra`, 0x20 `ad` and 0x10 `cd`.  The
/// response code reads as `NoError`.
pub proof fn lemma_header_fields(buf: Seq<u8>, pos: int)
    requires
        0 <= pos,
    ensures
        decode_header(buf, pos) is Value <==> pos + 12 <= buf.len(),
        decode_header(buf, pos) matches Decoded::Value(h, p) ==> {
            let hi = buf[pos + 2];
            let lo = buf[pos + 3];
            &&& p == pos + 12
            &&& h.id == be_number(buf.subrange(pos, pos + 2))
            &&& h.qr == ((hi & 0x80) != 0)
            &&& h.opcode == opcode_of_value((hi >> 3) & 0x0F)
            &&& h.aa == ((hi & 0x04) != 0)
            &&& h.tc == ((hi & 0x02) != 0)
            &&& h.rd == ((hi & 0x01) != 0)
            &&& h.ra == ((lo & 0x80) != 0)
            &&& h.ad == ((lo & 0x20) != 0)
            &&& h.cd == ((lo & 0x10) != 0)
            &&& h.rcode == Rcode::NoError
            &&& h.qdcount == be_number(buf.subrange(pos + 4, pos + 6))
            &&& h.ancount == be_number(buf.subrange(pos + 6, pos + 8))
            &&& h.nscount == be_number(buf.subrange(pos + 8, pos + 10))
            &&& h.arcount == be_number(buf.subrange(pos + 10, pos + 12))
        },
{
    lemma_integer_reads(buf, pos);
    lemma_integer_reads(buf, pos + 2);
    lemma_integer_reads(buf, pos + 3);
    lemma_integer_reads(buf, pos + 4);
    lemma_integer_reads(buf, pos + 6);
    lemma_integer_reads(buf, pos + 8);
    lemma_integer_reads(buf, pos + 10);
}

/// The bytes written for a header hold each field in its place: the
/// identifier and the four counts as big-endian pairs; in the third byte,
/// `qr` as bit 0x80, the opcode's value in bits 3 to 6, `aa` as 0x04, `tc`
/// as 0x02 and `rd` as 0x01; in the fourth, `ra` as 0x80, `ad` as 0x20, `cd`
/// as 0x10 and the response code's value in the low four bits.
pub proof fn lemma_header_bytes_fields(h: Header)
    ensures
        header_bytes(h).len() == 12,
        be_number(header_bytes(h).subrange(0, 2)) == h.id,
        ((header_bytes(h)[2] & 0x80) != 0) == h.qr,
        ((header_bytes(h)[2] >> 3) & 0x0F) == opcode_value(h.opcode),
        ((header_bytes(h)[2] & 0x04) != 0) == h.aa,
        ((header_bytes(h)[2] & 0x02) != 0) == h.tc,
        ((header_bytes(h)[2] & 0x01) != 0) == h.rd,
        ((header_bytes(h)[3] & 0x80) != 0) == h.ra,
        ((header_bytes(h)[3] & 0x20) != 0) == h.ad,
        ((header_bytes(h)[3] & 0x10) != 0) == h.cd,
        (header_bytes(h)[3] & 0x0F) == rcode_value(h.rcode),
        be_number(header_bytes(h).subrange(4, 6)) == h.qdcount,
        be_number(header_bytes(h).subrange(6, 8)) == h.ancount,
        be_number(header_bytes(h).subrange(8, 10)) == h.nscount,
        be_number(header_bytes(h).subrange(10, 12)) == h.arcount,
{
    let f0 = opcode_value(h.opcode) << 3;
    let f1 = if h.qr { f0 | 0x80 } else { f0 };
    let f2 = if h.aa { f1 | 0x04 } else { f1 };
    let f3 = if h.tc { f2 | 0x02 } else { f2 };
    let f4 = if h.rd { f3 | 0x01 } else { f3 };
    lemma_flags_hi_bits(opcode_value(h.opcode), h.qr, h.aa, h.tc, h.rd, f0, f1, f2, f3, f4);
    let g0 = rcode_value(h.rcode);
    let g1 = if h.ra { g0 | 0x80 } else { g0 };
    let g2 = if h.ad { g1 | 0x20 } else { g1 };
    let g3 = if h.cd { g2 | 0x10 } else { g2 };
    lemma_flags_lo_bits(rcode_value(h.rcode), h.ra, h.ad, h.cd, g0, g1, g2, g3);
    let b = header_bytes(h);
    assert(b[2] == f4);
    assert(b[3] == g3);
    assert(b.subrange(0, 2) =~= be16_bytes(h.id));
    assert(b.subrange(4, 6) =~= be16_bytes(h.qdcount));
    assert(b.subrange(6, 8) =~= be16_bytes(h.ancount));
    assert(b.subrange(8, 10) =~= be16_bytes(h.nscount));
    assert(b.subrange(10, 12) =~= be16_bytes(h.arcount));
    lemma_be_number_of_two(be16_bytes(h.id));
    lemma_be_number_of_two(be16_bytes(h.qdcount));
    lemma_be_number_of_two(be16_bytes(h.ancount));
    lemma_be_number_of_two(be16_bytes(h.nscount));
    lemma_be_number_of_two(be16_bytes(h.arcount));
}

} // verus!
