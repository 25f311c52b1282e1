//! Record types and classes, and the question section of a message.

use vstd::prelude::*;
use vstd::utf8::is_ascii_chars;

use crate::dns::wire::{
    and_then, ascii_name_read_back, be16_bytes, decode_name, decode_u16, lemma_ascii_name_round_trip, lemma_be16_read_back,
    lemma_name_round_trip, name_read_back, name_wire, outcome_agrees, result_agrees, Decoded, WireReader,
    WireWriter,
};
use crate::error::{ErrorView, ResolverError};
use crate::text::{
    ascii_lower, ascii_upper, decimal, decimal_u64, lemma_ascii_lower, lemma_decimal_starts_with_digit,
    lemma_parse_decimal, lower_text, parse_u16,
    parse_u16_text, same_text, strip_dot,
    strip_trailing_dot, to_lowercase, to_uppercase, upper_text,
};

verus! {

/// The record types this resolver knows by name.
#[derive(Debug, Clone, Copy, PartialEq, Eq, Structural)]
pub enum RecordType {
    A,
    NS,
    CNAME,
    SOA,
    MX,
    TXT,
    AAAA,
    SRV,
    ANY,
}

/// A record type known by name, or the bare number of another one.
#[derive(Debug, Clone, Copy, PartialEq, Eq, Structural)]
pub enum RecordTypeOrUnknown {
    Known(RecordType),
    Unknown(u16),
}

/// The numeric code of a record type.
pub open spec fn type_code(t: RecordType) -> u16 {
    match t {
        RecordType::A => 1,
        RecordType::NS => 2,
        RecordType::CNAME => 5,
        RecordType::SOA => 6,
        RecordType::MX => 15,
        RecordType::TXT => 16,
        RecordType::AAAA => 28,
        RecordType::SRV => 33,
        RecordType::ANY => 255,
    }
}

/// The numeric code of a record type, known or not.
pub open spec fn any_type_code(t: RecordTypeOrUnknown) -> u16 {
    match t {
        RecordTypeOrUnknown::Known(k) => type_code(k),
        RecordTypeOrUnknown::Unknown(n) => n,
    }
}

/// The record type of a numeric code: the named type with that code, or
/// the code itself as an unknown type.
pub open spec fn type_of_code(v: u16) -> RecordTypeOrUnknown {
    if v == 1 {
        RecordTypeOrUnknown::Known(RecordType::A)
    } else if v == 2 {
        RecordTypeOrUnknown::Known(RecordType::NS)
    } else if v == 5 {
        RecordTypeOrUnknown::Known(RecordType::CNAME)
    } else if v == 6 {
        RecordTypeOrUnknown::Known(RecordType::SOA)
    } else if v == 15 {
        RecordTypeOrUnknown::Known(RecordType::MX)
    } else if v == 16 {
        RecordTypeOrUnknown::Known(RecordType::TXT)
    } else if v == 28 {
        RecordTypeOrUnknown::Known(RecordType::AAAA)
    } else if v == 33 {
        RecordTypeOrUnknown::Known(RecordType::SRV)
    } else if v == 255 {
        RecordTypeOrUnknown::Known(RecordType::ANY)
    } else {
        RecordTypeOrUnknown::Unknown(v)
    }
}

/// The name of a record type.
pub open spec fn record_type_name(t: RecordType) -> Seq<char> {
    match t {
        RecordType::A => "A"@,
        RecordType::NS => "NS"@,
        RecordType::CNAME => "CNAME"@,
        RecordType::SOA => "SOA"@,
        RecordType::MX => "MX"@,
        RecordType::TXT => "TXT"@,
        RecordType::AAAA => "AAAA"@,
        RecordType::SRV => "SRV"@,
        RecordType::ANY => "ANY"@,
    }
}

/// The record type an upper-case text names: one of the names of the known
/// types, or else a decimal number taken as an unknown type.
pub open spec fn type_of_upper_text(u: Seq<char>) -> Option<RecordTypeOrUnknown> {
    if u == "A"@ {
        Some(RecordTypeOrUnknown::Known(RecordType::A))
    } else if u == "NS"@ {
        Some(RecordTypeOrUnknown::Known(RecordType::NS))
    } else if u == "CNAME"@ {
        Some(RecordTypeOrUnknown::Known(RecordType::CNAME))
    } else if u == "SOA"@ {
        Some(RecordTypeOrUnknown::Known(RecordType::SOA))
    } else if u == "MX"@ {
        Some(RecordTypeOrUnknown::Known(RecordType::MX))
    } else if u == "TXT"@ {
        Some(RecordTypeOrUnknown::Known(RecordType::TXT))
    } else if u == "AAAA"@ {
        Some(RecordTypeOrUnknown::Known(RecordType::AAAA))
    } else if u == "SRV"@ {
        Some(RecordTypeOrUnknown::Known(RecordType::SRV))
    } else if u == "ANY"@ {
        Some(RecordTypeOrUnknown::Known(RecordType::ANY))
    } else {
        match parse_u16_text(u) {
            Some(n) => Some(RecordTypeOrUnknown::Unknown(n)),
            None => None,
        }
    }
}

/// The text of a record type: its name, or `TYPE` and its number.
pub open spec fn any_type_text(t: RecordTypeOrUnknown) -> Seq<char> {
    match t {
        RecordTypeOrUnknown::Known(k) => record_type_name(k),
        RecordTypeOrUnknown::Unknown(n) => "TYPE"@ + decimal(n as nat),
    }
}

impl RecordTypeOrUnknown {
    pub fn to_u16(self) -> (v: u16)
        ensures
            v == any_type_code(self),
    {
        match self {
            Self::Known(k) => k.to_u16(),
            Self::Unknown(n) => n,
        }
    }

    /// The text of the type: its name, or `TYPE` followed by its number.
    pub fn text(&self) -> (s: String)
        ensures
            s@ == any_type_text(*self),
    {
        match self {
            Self::Known(k) => String::from_str(k.name()),
            Self::Unknown(n) => {
                let mut s = String::from_str("TYPE");
                s.append(decimal_u64(*n as u64).as_str());
                s
            },
        }
    }
}

impl RecordType {
    pub fn from_u16(v: u16) -> (t: RecordTypeOrUnknown)
        ensures
            t == type_of_code(v),
    {
        match v {
            1 => RecordTypeOrUnknown::Known(Self::A),
            2 => RecordTypeOrUnknown::Known(Self::NS),
            5 => RecordTypeOrUnknown::Known(Self::CNAME),
            6 => RecordTypeOrUnknown::Known(Self::SOA),
            15 => RecordTypeOrUnknown::Known(Self::MX),
            16 => RecordTypeOrUnknown::Known(Self::TXT),
            28 => RecordTypeOrUnknown::Known(Self::AAAA),
            33 => RecordTypeOrUnknown::Known(Self::SRV),
            255 => RecordTypeOrUnknown::Known(Self::ANY),
            n => RecordTypeOrUnknown::Unknown(n),
        }
    }

    /// The record type that a text names, in any case: it is upper-cased,
    /// then read by [`RecordType::from_upper_str`].
    pub fn from_str(s: &str) -> (t: Option<RecordTypeOrUnknown>)
        ensures
            t == type_of_upper_text(upper_text(s@)),
    {
        let upper = to_uppercase(s);
        Self::from_upper_str(upper.as_str())
    }

    /// The record type that an upper-case text names: `A`, `NS`, `CNAME`,
    /// `SOA`, `MX`, `TXT`, `AAAA`, `SRV`, `ANY`, or a decimal number.
    pub fn from_upper_str(u: &str) -> (t: Option<RecordTypeOrUnknown>)
        ensures
            t == type_of_upper_text(u@),
    {
        if same_text(u, "A") {
            Some(RecordTypeOrUnknown::Known(Self::A))
        } else if same_text(u, "NS") {
            Some(RecordTypeOrUnknown::Known(Self::NS))
        } else if same_text(u, "CNAME") {
            Some(RecordTypeOrUnknown::Known(Self::CNAME))
        } else if same_text(u, "SOA") {
            Some(RecordTypeOrUnknown::Known(Self::SOA))
        } else if same_text(u, "MX") {
            Some(RecordTypeOrUnknown::Known(Self::MX))
        } else if same_text(u, "TXT") {
            Some(RecordTypeOrUnknown::Known(Self::TXT))
        } else if same_text(u, "AAAA") {
            Some(RecordTypeOrUnknown::Known(Self::AAAA))
        } else if same_text(u, "SRV") {
            Some(RecordTypeOrUnknown::Known(Self::SRV))
        } else if same_text(u, "ANY") {
            Some(RecordTypeOrUnknown::Known(Self::ANY))
        } else {
            match parse_u16(u) {
                Some(n) => Some(RecordTypeOrUnknown::Unknown(n)),
                None => None,
            }
        }
    }

    pub fn to_u16(self) -> (v: u16)
        ensures
            v == type_code(self),
    {
        match self {
            Self::A => 1,
            Self::NS => 2,
            Self::CNAME => 5,
            Self::SOA => 6,
            Self::MX => 15,
            Self::TXT => 16,
            Self::AAAA => 28,
            Self::SRV => 33,
            Self::ANY => 255,
        }
    }

    pub fn name(self) -> (s: &'static str)
        ensures
            s@ == record_type_name(self),
    {
        match self {
            Self::A => "A",
            Self::NS => "NS",
            Self::CNAME => "CNAME",
            Self::SOA => "SOA",
            Self::MX => "MX",
            Self::TXT => "TXT",
            Self::AAAA => "AAAA",
            Self::SRV => "SRV",
            Self::ANY => "ANY",
        }
    }
}

/// The classes of records.
#[derive(Debug, Clone, Copy, PartialEq, Eq, Structural)]
pub enum RecordClass {
    IN,
    CH,
    HS,
    ANY,
}

/// The numeric code of a class.
pub open spec fn class_code(c: RecordClass) -> u16 {
    match c {
        RecordClass::IN => 1,
        RecordClass::CH => 3,
        RecordClass::HS => 4,
        RecordClass::ANY => 255,
    }
}

/// The class of a numeric code; codes without a name are read as `IN`.
pub open spec fn class_of_code(v: u16) -> RecordClass {
    if v == 3 {
        RecordClass::CH
    } else if v == 4 {
        RecordClass::HS
    } else if v == 255 {
        RecordClass::ANY
    } else {
        RecordClass::IN
    }
}

impl RecordClass {
    pub fn from_u16(v: u16) -> (c: Self)
        ensures
            c == class_of_code(v),
    {
        match v {
            1 => Self::IN,
            3 => Self::CH,
            4 => Self::HS,
            255 => Self::ANY,
            _ => Self::IN,
        }
    }

    pub fn to_u16(self) -> (v: u16)
        ensures
            v == class_code(self),
    {
        match self {
            Self::IN => 1,
            Self::CH => 3,
            Self::HS => 4,
            Self::ANY => 255,
        }
    }
}

/// A question: the name asked about, the type and the class of the records
/// wanted.
#[derive(Debug, Clone)]
pub struct Question {
    pub qname: String,
    pub qtype: RecordTypeOrUnknown,
    pub qclass: RecordClass,
}

/// The view of a question: its name as characters.
pub struct QuestionView {
    pub qname: Seq<char>,
    pub qtype: RecordTypeOrUnknown,
    pub qclass: RecordClass,
}

impl View for Question {
    type V = QuestionView;

    open spec fn view(&self) -> QuestionView {
        QuestionView { qname: self.qname@, qtype: self.qtype, qclass: self.qclass }
    }
}

/// Reading a question at `pos`: its name, then its type and class codes.
/// The name is kept without its final dot, and lower-cased.
pub open spec fn decode_question(buf: Seq<u8>, pos: int) -> Decoded<QuestionView> {
    and_then(
        decode_name(buf, pos),
        |name: Seq<char>, p1: int|
            and_then(
                decode_u16(buf, p1),
                |t: u16, p2: int|
                    and_then(
                        decode_u16(buf, p2),
                        |c: u16, p3: int|
                            Decoded::Value(
                                QuestionView {
                                    qname: lower_text(strip_dot(name)),
                                    qtype: type_of_code(t),
                                    qclass: class_of_code(c),
                                },
                                p3,
                            ),
                    ),
            ),
    )
}

/// Writing a question: its name, then its type and class codes; a refused
/// name stops the writing there.  The bytes written, and the error if any.
pub open spec fn question_wire(q: QuestionView) -> (Seq<u8>, Option<ErrorView>) {
    let name = name_wire(q.qname);
    if name.1 is Some {
        name
    } else {
        (name.0 + be16_bytes(any_type_code(q.qtype)) + be16_bytes(class_code(q.qclass)), None)
    }
}

/// The text of a question: its name, its type and `IN`.
pub open spec fn question_text(q: QuestionView) -> Seq<char> {
    q.qname + " "@ + any_type_text(q.qtype) + " IN"@
}

impl Question {
    /// A question of class `IN` about `name`, kept without a final dot and
    /// lower-cased.
    pub fn new(name: &str, qtype: RecordTypeOrUnknown) -> (q: Self)
        ensures
            q@ == (QuestionView {
                qname: lower_text(strip_dot(name@)),
                qtype,
                qclass: RecordClass::IN,
            }),
    {
        let qname = to_lowercase(strip_trailing_dot(name));

        Self { qname, qtype, qclass: RecordClass::IN }
    }

    /// Reads a question.  `None` is the case of a too-long label whose bytes
    /// run past the end of the buffer.
    pub fn from_reader_checked(reader: &mut WireReader<'_>) -> (r: Option<Result<Self, ResolverError>>)
        requires
            old(reader).wf(),
        ensures
            final(reader).wf(),
            final(reader).bytes() == old(reader).bytes(),
            outcome_agrees(r, decode_question(old(reader).bytes(), old(reader).cursor()), final(reader).cursor()),
    {
        let qname = match reader.read_name_checked() {
            None => {
                return None;
            },
            Some(Err(e)) => {
                return Some(Err(e));
            },
            Some(Ok(name)) => name,
        };
        let raw_type = match reader.read_u16() {
            Err(e) => {
                return Some(Err(e));
            },
            Ok(v) => v,
        };
        let raw_class = match reader.read_u16() {
            Err(e) => {
                return Some(Err(e));
            },
            Ok(v) => v,
        };

        Some(
            Ok(
                Self {
                    qname: to_lowercase(strip_trailing_dot(qname.as_str())),
                    qtype: RecordType::from_u16(raw_type),
                    qclass: RecordClass::from_u16(raw_class),
                },
            ),
        )
    }

    pub fn from_reader(reader: &mut WireReader<'_>) -> (r: Result<Self, ResolverError>)
        requires
            old(reader).wf(),
            !decode_question(old(reader).bytes(), old(reader).cursor()).is_overrun(),
        ensures
            final(reader).wf(),
            final(reader).bytes() == old(reader).bytes(),
            result_agrees(r, decode_question(old(reader).bytes(), old(reader).cursor()), final(reader).cursor()),
    {
        Self::from_reader_checked(reader).unwrap()
    }

    pub fn to_wire(&self, writer: &mut WireWriter) -> (r: Result<(), ResolverError>)
        ensures
            final(writer)@ == old(writer)@ + question_wire(self@).0,
            r is Ok <==> question_wire(self@).1 is None,
            r matches Err(e) ==> question_wire(self@).1 == Some(e@),
    {
        writer.write_name(self.qname.as_str())?;
        writer.write_u16(self.qtype.to_u16());
        writer.write_u16(self.qclass.to_u16());
        proof {
            assert(writer@ =~= old(writer)@ + question_wire(self@).0);
        }
        Ok(())
    }

    /// The text of the question: its name, its type and `IN`.
    pub fn text(&self) -> (s: String)
        ensures
            s@ == question_text(self@),
    {
        let mut s = self.qname.clone();
        s.append(" ");
        s.append(self.qtype.text().as_str());
        s.append(" IN");
        s
    }
}

/// Every record type is read back from its code.
pub proof fn lemma_type_code_round_trip(t: RecordType)
    ensures
        type_of_code(type_code(t)) == RecordTypeOrUnknown::Known(t),
{
}

/// Every code is read back from the record type it reads as.
pub proof fn lemma_code_type_round_trip(v: u16)
    ensures
        any_type_code(type_of_code(v)) == v,
{
}

/// Every class is read back from its code.
pub proof fn lemma_class_code_round_trip(c: RecordClass)
    ensures
        class_of_code(class_code(c)) == c,
{
}

/// A question whose name the writer accepts is read back from the bytes
/// written, whatever stands before and after them: its name as the name is
/// read back, without its final dot and lower-cased, its type from its
/// code, its class as written.  The reader stops right after it.
pub proof fn lemma_question_round_trip(prefix: Seq<u8>, q: QuestionView, rest: Seq<u8>)
    requires
        question_wire(q).1 is None,
    ensures
        decode_question(prefix + question_wire(q).0 + rest, prefix.len() as int) == Decoded::Value(
            QuestionView {
                qname: lower_text(strip_dot(name_read_back(q.qname))),
                qtype: type_of_code(any_type_code(q.qtype)),
                qclass: q.qclass,
            },
            (prefix.len() + question_wire(q).0.len()) as int,
        ),
{
    let w = name_wire(q.qname).0;
    let t = be16_bytes(any_type_code(q.qtype));
    let c = be16_bytes(class_code(q.qclass));
    let buf = prefix + question_wire(q).0 + rest;
    let p = prefix.len() as int;
    assert(buf =~= prefix + w + (t + c + rest));
    lemma_name_round_trip(prefix, q.qname, t + c + rest);
    let p1 = p + w.len();
    assert(buf.subrange(p1, p1 + 2) =~= t);
    lemma_be16_read_back(any_type_code(q.qtype), buf, p1);
    assert(buf.subrange(p1 + 2, p1 + 4) =~= c);
    lemma_be16_read_back(class_code(q.qclass), buf, p1 + 2);
    lemma_class_code_round_trip(q.qclass);
}

/// The question that [`Question::new`] makes of `name` and `qtype`.
pub open spec fn new_question(name: Seq<char>, qtype: RecordTypeOrUnknown) -> QuestionView {
    QuestionView { qname: lower_text(strip_dot(name)), qtype, qclass: RecordClass::IN }
}

/// The question [`Question::new`] makes of an ASCII name, written, reads
/// back as itself, whatever stands before and after it, when the writer
/// accepts its name, the name does not end in a dot once one trailing dot is
/// dropped, and its type is read back from its code.  The reader stops
/// right after it.
pub proof fn lemma_ascii_question_round_trip(
    prefix: Seq<u8>,
    name: Seq<char>,
    qtype: RecordTypeOrUnknown,
    rest: Seq<u8>,
)
    requires
        is_ascii_chars(name),
        !(strip_dot(name).len() > 0 && strip_dot(name).last() == '.'),
        type_of_code(any_type_code(qtype)) == qtype,
        question_wire(new_question(name, qtype)).1 is None,
    ensures
        decode_question(prefix + question_wire(new_question(name, qtype)).0 + rest, prefix.len() as int)
            == Decoded::Value(
            new_question(name, qtype),
            (prefix.len() + question_wire(new_question(name, qtype)).0.len()) as int,
        ),
{
    let q = new_question(name, qtype);
    let m = strip_dot(name);
    assert(is_ascii_chars(m)) by {
        assert forall|i: int| 0 <= i < m.len() implies '\0' <= #[trigger] m[i] <= '\u{7f}' by {
            assert(m[i] == name[i]);
        }
    }
    lemma_ascii_lower(m);
    let l = ascii_lower(m);
    assert(q.qname == l);
    assert(strip_dot(l) == l) by {
        if l.len() > 0 {
            assert(l.last() == l[l.len() - 1]);
            assert(m.last() == m[m.len() - 1]);
        }
    }
    let c = be16_bytes(any_type_code(qtype)) + be16_bytes(class_code(q.qclass));
    lemma_question_round_trip(prefix, q, rest);
    assert(question_wire(q).0 =~= name_wire(l).0 + c);
    assert(prefix + question_wire(q).0 + rest =~= prefix + name_wire(l).0 + (c + rest));
    lemma_name_round_trip(prefix, l, c + rest);
    lemma_ascii_name_round_trip(prefix, l, c + rest);
    lemma_ascii_lower(l);
    assert(is_ascii_chars(l));
    assert(ascii_lower(l) == l);
    assert(name_read_back(l) == ascii_name_read_back(l));
    let back = strip_dot(name_read_back(l));
    if l.len() > 0 {
        assert(back =~= l);
    } else {
        assert(back =~= Seq::<char>::empty());
        assert(ascii_lower(Seq::<char>::empty()) =~= Seq::<char>::empty());
        assert(is_ascii_chars(Seq::<char>::empty()));
    }
    assert(lower_text(back) == l);
}

/// The name of a record type, written with its ASCII letters in any case,
/// is read by [`RecordType::from_str`] as that type.
pub proof fn lemma_type_name_any_case(t: RecordType, s: Seq<char>)
    requires
        is_ascii_chars(s),
        ascii_upper(s) == record_type_name(t),
    ensures
        type_of_upper_text(upper_text(s)) == Some(RecordTypeOrUnknown::Known(t)),
{
    lemma_type_name_round_trip(t);
}

/// The name of every record type names that type.
pub proof fn lemma_type_name_round_trip(t: RecordType)
    ensures
        type_of_upper_text(record_type_name(t)) == Some(RecordTypeOrUnknown::Known(t)),
{
    reveal_strlit("A");
    reveal_strlit("NS");
    reveal_strlit("CNAME");
    reveal_strlit("SOA");
    reveal_strlit("MX");
    reveal_strlit("TXT");
    reveal_strlit("AAAA");
    reveal_strlit("SRV");
    reveal_strlit("ANY");
    assert("A"@[0] == 'A' && "NS"@[0] == 'N' && "CNAME"@[0] == 'C' && "SOA"@[0] == 'S');
    assert("MX"@[0] == 'M' && "TXT"@[0] == 'T' && "AAAA"@[0] == 'A' && "SRV"@[0] == 'S');
    assert("ANY"@[0] == 'A' && "AAAA"@[1] == 'A' && "ANY"@[1] == 'N' && "SRV"@[1] == 'R');
    assert("SOA"@[1] == 'O');
    assert("A"@ != "NS"@ && "A"@ != "CNAME"@ && "A"@ != "SOA"@ && "A"@ != "MX"@);
    assert("NS"@ != "CNAME"@ && "NS"@ != "SOA"@ && "NS"@ != "MX"@);
    assert("CNAME"@ != "SOA"@ && "CNAME"@ != "MX"@ && "SOA"@ != "MX"@);
    assert("TXT"@ != "A"@ && "TXT"@ != "NS"@ && "TXT"@ != "CNAME"@ && "TXT"@ != "SOA"@ && "TXT"@ != "MX"@);
    assert("AAAA"@ != "A"@ && "AAAA"@ != "NS"@ && "AAAA"@ != "CNAME"@ && "AAAA"@ != "SOA"@ && "AAAA"@ != "MX"@
        && "AAAA"@ != "TXT"@);
    assert("SRV"@ != "A"@ && "SRV"@ != "NS"@ && "SRV"@ != "CNAME"@ && "SRV"@ != "SOA"@ && "SRV"@ != "MX"@
        && "SRV"@ != "TXT"@ && "SRV"@ != "AAAA"@);
    assert("ANY"@ != "A"@ && "ANY"@ != "NS"@ && "ANY"@ != "CNAME"@ && "ANY"@ != "SOA"@ && "ANY"@ != "MX"@
        && "ANY"@ != "TXT"@ && "ANY"@ != "AAAA"@ && "ANY"@ != "SRV"@);
}

/// Every 16-bit number written in decimal names the unknown type of that
/// number, even where a known type has that code.
pub proof fn lemma_number_names_unknown_type(n: u16)
    ensures
        type_of_upper_text(decimal(n as nat)) == Some(RecordTypeOrUnknown::Unknown(n)),
{
    reveal_strlit("A");
    reveal_strlit("NS");
    reveal_strlit("CNAME");
    reveal_strlit("SOA");
    reveal_strlit("MX");
    reveal_strlit("TXT");
    reveal_strlit("AAAA");
    reveal_strlit("SRV");
    reveal_strlit("ANY");
    lemma_parse_decimal(n);
    lemma_decimal_starts_with_digit(n as nat);
    let d = decimal(n as nat);
    assert("A"@[0] == 'A' && "NS"@[0] == 'N' && "CNAME"@[0] == 'C' && "SOA"@[0] == 'S');
    assert("MX"@[0] == 'M' && "TXT"@[0] == 'T' && "AAAA"@[0] == 'A' && "SRV"@[0] == 'S');
    assert("ANY"@[0] == 'A');
    assert(d != "A"@ && d != "NS"@ && d != "CNAME"@ && d != "SOA"@ && d != "MX"@);
    assert(d != "TXT"@ && d != "AAAA"@ && d != "SRV"@ && d != "ANY"@);
}

} // verus!
