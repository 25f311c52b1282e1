//! Whole DNS messages: a header and four sections.

use vstd::prelude::*;

use crate::dns::answer::{decode_record, RecordView, ResourceRecord};
use crate::dns::header::{decode_header, header_bytes, lemma_header_round_trip, Header, Rcode};
use crate::dns::question::{
    any_type_code, decode_question, lemma_question_round_trip, question_wire, type_of_code, Question,
    QuestionView,
};
use crate::dns::wire::{and_then, name_read_back, Decoded, WireReader, WireWriter};
use crate::error::ResolverError;
use crate::text::{lower_text, strip_dot};

verus! {

/// A DNS message.
#[derive(Debug, Clone)]
pub struct Message {
    pub header: Header,
    pub questions: Vec<Question>,
    pub answers: Vec<ResourceRecord>,
    pub authorities: Vec<ResourceRecord>,
    pub additionals: Vec<ResourceRecord>,
}

/// The view of a message: its sections as sequences of views.
pub struct MessageView {
    pub header: Header,
    pub questions: Seq<QuestionView>,
    pub answers: Seq<RecordView>,
    pub authorities: Seq<RecordView>,
    pub additionals: Seq<RecordView>,
}

impl View for Message {
    type V = MessageView;

    open spec fn view(&self) -> MessageView {
        MessageView {
            header: self.header,
            questions: self.questions@.map_values(|q: Question| q@),
            answers: self.answers@.map_values(|r: ResourceRecord| r@),
            authorities: self.authorities@.map_values(|r: ResourceRecord| r@),
            additionals: self.additionals@.map_values(|r: ResourceRecord| r@),
        }
    }
}

/// Reading `n` questions one after another from `pos`, after those in `acc`.
pub open spec fn decode_questions(buf: Seq<u8>, pos: int, n: nat, acc: Seq<QuestionView>) -> Decoded<Seq<QuestionView>>
    decreases n,
{
    if n == 0 {
        Decoded::Value(acc, pos)
    } else {
        match decode_question(buf, pos) {
            Decoded::Value(q, p) => decode_questions(buf, p, (n - 1) as nat, acc.push(q)),
            Decoded::Error(e, p) => Decoded::Error(e, p),
            Decoded::LabelOverrun => Decoded::LabelOverrun,
        }
    }
}

/// Reading `n` records one after another from `pos`, after those in `acc`.
pub open spec fn decode_records(buf: Seq<u8>, pos: int, n: nat, acc: Seq<RecordView>) -> Decoded<Seq<RecordView>>
    decreases n,
{
    if n == 0 {
        Decoded::Value(acc, pos)
    } else {
        match decode_record(buf, pos) {
            Decoded::Value(r, p) => decode_records(buf, p, (n - 1) as nat, acc.push(r)),
            Decoded::Error(e, p) => Decoded::Error(e, p),
            Decoded::LabelOverrun => Decoded::LabelOverrun,
        }
    }
}

/// Reading the three record sections after the questions, as many records
/// in each as the header counts.
pub open spec fn decode_sections(buf: Seq<u8>, pos: int, h: Header, qs: Seq<QuestionView>) -> Decoded<MessageView> {
    and_then(
        decode_records(buf, pos, h.ancount as nat, seq![]),
        |answers: Seq<RecordView>, p1: int|
            and_then(
                decode_records(buf, p1, h.nscount as nat, seq![]),
                |authorities: Seq<RecordView>, p2: int|
                    and_then(
                        decode_records(buf, p2, h.arcount as nat, seq![]),
                        |additionals: Seq<RecordView>, p3: int|
                            Decoded::Value(
                                MessageView { header: h, questions: qs, answers, authorities, additionals },
                                p3,
                            ),
                    ),
            ),
    )
}

/// Reading a message from the start of `buf`: the header, then as many
/// questions, answers, authority and additional records as its counts say.
/// Bytes after the last record are not looked at.
pub open spec fn decode_message(buf: Seq<u8>) -> Decoded<MessageView> {
    and_then(
        decode_header(buf, 0),
        |h: Header, p1: int|
            and_then(
                decode_questions(buf, p1, h.qdcount as nat, seq![]),
                |qs: Seq<QuestionView>, p2: int| decode_sections(buf, p2, h, qs),
            ),
    )
}

/// The bytes of the questions, one after another, each as far as it could
/// be written.
pub open spec fn questions_wire(qs: Seq<QuestionView>) -> Seq<u8>
    decreases qs.len(),
{
    if qs.len() == 0 {
        seq![]
    } else {
        questions_wire(qs.drop_last()) + question_wire(qs.last()).0
    }
}

/// `b` with the 16-bit value `v` written over the two bytes at `offset`.
pub open spec fn put_u16(b: Seq<u8>, offset: int, v: u16) -> Seq<u8> {
    b.update(offset, (v / 256) as u8).update(offset + 1, (v % 256) as u8)
}

/// The bytes of a message: its header and its questions, with the four
/// counts of the header replaced by the sizes of the four sections, taken
/// modulo 2^16.  Records are not written.
pub open spec fn message_bytes(m: MessageView) -> Seq<u8> {
    let b = header_bytes(m.header) + questions_wire(m.questions);
    put_u16(
        put_u16(
            put_u16(put_u16(b, 4, m.questions.len() as u16), 6, m.answers.len() as u16),
            8,
            m.authorities.len() as u16,
        ),
        10,
        m.additionals.len() as u16,
    )
}

impl Message {
    /// A query with one question.
    pub fn new(id: u16, question: Question) -> (m: Self)
        ensures
            m@ == (MessageView {
                header: Header::spec_new_query(id),
                questions: seq![question@],
                answers: seq![],
                authorities: seq![],
                additionals: seq![],
            }),
    {
        let header = Header::new_query(id);
        let ghost q = question@;
        let questions = vec![question];
        let answers: Vec<ResourceRecord> = Vec::new();
        let authorities: Vec<ResourceRecord> = Vec::new();
        let additionals: Vec<ResourceRecord> = Vec::new();
        let m = Self { header, questions, answers, authorities, additionals };
        proof {
            assert(m@.questions =~= seq![q]);
            assert(m@.answers =~= Seq::<RecordView>::empty());
            assert(m@.authorities =~= Seq::<RecordView>::empty());
            assert(m@.additionals =~= Seq::<RecordView>::empty());
        }
        m
    }

    /// Reads a message.  `None` is the case of a too-long label whose bytes
    /// run past the end of the buffer.
    pub fn from_bytes_checked(bytes: &[u8]) -> (r: Option<Result<Self, ResolverError>>)
        requires
            bytes@.len() <= isize::MAX,
        ensures
            match decode_message(bytes@) {
                Decoded::Value(m, _) => r matches Some(Ok(x)) && x@ == m,
                Decoded::Error(e, _) => r matches Some(Err(x)) && x@ == e,
                Decoded::LabelOverrun => r is None,
            },
    {
        let mut reader = WireReader::new(bytes);

        let header = match Header::from_header(&mut reader) {
            Err(e) => {
                return Some(Err(e));
            },
            Ok(h) => h,
        };

        let questions = match read_questions(&mut reader, header.qdcount) {
            None => {
                return None;
            },
            Some(Err(e)) => {
                return Some(Err(e));
            },
            Some(Ok(v)) => v,
        };
        let answers = match read_records(&mut reader, header.ancount) {
            None => {
                return None;
            },
            Some(Err(e)) => {
                return Some(Err(e));
            },
            Some(Ok(v)) => v,
        };
        let authorities = match read_records(&mut reader, header.nscount) {
            None => {
                return None;
            },
            Some(Err(e)) => {
                return Some(Err(e));
            },
            Some(Ok(v)) => v,
        };
        let additionals = match read_records(&mut reader, header.arcount) {
            None => {
                return None;
            },
            Some(Err(e)) => {
                return Some(Err(e));
            },
            Some(Ok(v)) => v,
        };

        Some(Ok(Self { header, questions, answers, authorities, additionals }))
    }

    pub fn from_bytes(bytes: &[u8]) -> (r: Result<Self, ResolverError>)
        requires
            bytes@.len() <= isize::MAX,
            !decode_message(bytes@).is_overrun(),
        ensures
            match decode_message(bytes@) {
                Decoded::Value(m, _) => r matches Ok(x) && x@ == m,
                Decoded::Error(e, _) => r matches Err(x) && x@ == e,
                Decoded::LabelOverrun => false,
            },
    {
        Self::from_bytes_checked(bytes).unwrap()
    }

    /// The header and the questions on the wire, with the header's counts
    /// set to the sizes of the sections.  A question whose name is refused
    /// is written as far as it goes.
    pub fn to_bytes(&self) -> (v: Vec<u8>)
        ensures
            v@ == message_bytes(self@),
    {
        let mut writer = WireWriter::with_capacity(512);

        writer.write_bytes(self.header.to_bytes().as_slice());

        let n = self.questions.len();
        for i in 0..n
            invariant
                n == self.questions@.len(),
                writer@ == header_bytes(self.header) + questions_wire(self@.questions.take(i as int)),
        {
            let _ = self.questions[i].to_wire(&mut writer);
            proof {
                assert(self@.questions.take(i + 1).drop_last() =~= self@.questions.take(i as int));
            }
        }
        proof {
            assert(self@.questions.take(n as int) =~= self@.questions);
        }

        writer.set_u16(4, self.questions.len() as u16);
        writer.set_u16(6, self.answers.len() as u16);
        writer.set_u16(8, self.authorities.len() as u16);
        writer.set_u16(10, self.additionals.len() as u16);

        writer.into_bytes()
    }
}

/// Reads `count` questions one after another.
fn read_questions(reader: &mut WireReader<'_>, count: u16) -> (r: Option<Result<Vec<Question>, ResolverError>>)
    requires
        old(reader).wf(),
    ensures
        final(reader).wf(),
        final(reader).bytes() == old(reader).bytes(),
        match decode_questions(old(reader).bytes(), old(reader).cursor(), count as nat, seq![]) {
            Decoded::Value(qs, p) => r matches Some(Ok(v)) && v@.map_values(|q: Question| q@) == qs
                && final(reader).cursor() == p,
            Decoded::Error(e, p) => r matches Some(Err(x)) && x@ == e && final(reader).cursor() == p,
            Decoded::LabelOverrun => r is None,
        },
{
    let ghost buf = reader.bytes();
    let ghost target = decode_questions(buf, reader.cursor(), count as nat, seq![]);
    let mut questions: Vec<Question> = Vec::with_capacity(count as usize);
    assert(questions@.map_values(|q: Question| q@) =~= Seq::<QuestionView>::empty());
    let mut i: u16 = 0;
    while i < count
        invariant
            reader.wf(),
            reader.bytes() == buf,
            buf == old(reader).bytes(),
            target == decode_questions(old(reader).bytes(), old(reader).cursor(), count as nat, seq![]),
            i <= count,
            decode_questions(buf, reader.cursor(), (count - i) as nat, questions@.map_values(|q: Question| q@))
                == target,
        decreases count - i,
    {
        let ghost before = questions@.map_values(|q: Question| q@);
        match Question::from_reader_checked(reader) {
            None => {
                return None;
            },
            Some(Err(e)) => {
                return Some(Err(e));
            },
            Some(Ok(q)) => {
                questions.push(q);
            },
        }
        proof {
            assert(questions@.map_values(|q: Question| q@) =~= before.push(questions@.last()@));
        }
        i += 1;
    }
    Some(Ok(questions))
}

/// Reads `count` records one after another.
fn read_records(reader: &mut WireReader<'_>, count: u16) -> (r: Option<Result<Vec<ResourceRecord>, ResolverError>>)
    requires
        old(reader).wf(),
    ensures
        final(reader).wf(),
        final(reader).bytes() == old(reader).bytes(),
        match decode_records(old(reader).bytes(), old(reader).cursor(), count as nat, seq![]) {
            Decoded::Value(rs, p) => r matches Some(Ok(v)) && v@.map_values(|x: ResourceRecord| x@) == rs
                && final(reader).cursor() == p,
            Decoded::Error(e, p) => r matches Some(Err(x)) && x@ == e && final(reader).cursor() == p,
            Decoded::LabelOverrun => r is None,
        },
{
    let ghost buf = reader.bytes();
    let ghost target = decode_records(buf, reader.cursor(), count as nat, seq![]);
    let mut records: Vec<ResourceRecord> = Vec::with_capacity(count as usize);
    assert(records@.map_values(|x: ResourceRecord| x@) =~= Seq::<RecordView>::empty());
    let mut i: u16 = 0;
    while i < count
        invariant
            reader.wf(),
            reader.bytes() == buf,
            buf == old(reader).bytes(),
            target == decode_records(old(reader).bytes(), old(reader).cursor(), count as nat, seq![]),
            i <= count,
            decode_records(buf, reader.cursor(), (count - i) as nat, records@.map_values(|x: ResourceRecord| x@))
                == target,
        decreases count - i,
    {
        let ghost before = records@.map_values(|x: ResourceRecord| x@);
        match ResourceRecord::from_reader_checked(reader) {
            None => {
                return None;
            },
            Some(Err(e)) => {
                return Some(Err(e));
            },
            Some(Ok(x)) => {
                records.push(x);
            },
        }
        proof {
            assert(records@.map_values(|x: ResourceRecord| x@) =~= before.push(records@.last()@));
        }
        i += 1;
    }
    Some(Ok(records))
}

/// The query that [`Message::new`] makes of a question whose name the
/// writer accepts, written by [`Message::to_bytes`], reads back as the same
/// query: the same header, and the question as questions are read back.
/// Every byte written is read.
#[verifier::rlimit(60)]
pub proof fn lemma_query_round_trip(id: u16, q: QuestionView)
    requires
        question_wire(q).1 is None,
    ensures
        decode_message(
            message_bytes(
                MessageView {
                    header: Header::spec_new_query(id),
                    questions: seq![q],
                    answers: seq![],
                    authorities: seq![],
                    additionals: seq![],
                },
            ),
        ) == Decoded::Value(
            MessageView {
                header: Header::spec_new_query(id),
                questions: seq![question_read_back(q)],
                answers: seq![],
                authorities: seq![],
                additionals: seq![],
            },
            12 + question_wire(q).0.len() as int,
        ),
{
    let h = Header::spec_new_query(id);
    let m = MessageView {
        header: h,
        questions: seq![q],
        answers: seq![],
        authorities: seq![],
        additionals: seq![],
    };
    assert(question_wire(seq![q][0]).1 is None);
    lemma_message_round_trip(m);
    assert(message_bytes(m).len() == 12 + question_wire(q).0.len()) by {
        lemma_message_bytes_counted(m);
        assert(seq![q].drop_last() =~= Seq::<QuestionView>::empty());
        assert(questions_wire(Seq::<QuestionView>::empty()) == Seq::<u8>::empty());
        assert(questions_wire(seq![q]) =~= question_wire(q).0);
    }
    assert(seq![q].map_values(|x: QuestionView| question_read_back(x)) =~= seq![question_read_back(q)]);
    assert(Header { rcode: Rcode::NoError, qdcount: 1, ancount: 0, nscount: 0, arcount: 0, ..h } == h);
}

/// How a question whose name the writer accepts is read back: its name as
/// names are read back, without the final dot and lower-cased; its type
/// from its code; its class as written.
pub open spec fn question_read_back(q: QuestionView) -> QuestionView {
    QuestionView {
        qname: lower_text(strip_dot(name_read_back(q.qname))),
        qtype: type_of_code(any_type_code(q.qtype)),
        qclass: q.qclass,
    }
}

/// The questions written one after another are the first written, then the
/// rest.
proof fn lemma_questions_wire_front(q: QuestionView, rest: Seq<QuestionView>)
    ensures
        questions_wire(seq![q] + rest) == question_wire(q).0 + questions_wire(rest),
    decreases rest.len(),
{
    if rest.len() == 0 {
        assert(seq![q] + rest =~= seq![q]);
        assert(seq![q].drop_last() =~= Seq::<QuestionView>::empty());
        assert(questions_wire(Seq::<QuestionView>::empty()) == Seq::<u8>::empty());
        assert(rest =~= Seq::<QuestionView>::empty());
    } else {
        lemma_questions_wire_front(q, rest.drop_last());
        assert((seq![q] + rest).drop_last() =~= seq![q] + rest.drop_last());
        assert((seq![q] + rest).last() == rest.last());
    }
}

/// Questions the writer accepts, written one after another after `prefix`,
/// are read back one after another.
proof fn lemma_questions_round_trip(
    prefix: Seq<u8>,
    qs: Seq<QuestionView>,
    rest: Seq<u8>,
    acc: Seq<QuestionView>,
)
    requires
        forall|i: int| 0 <= i < qs.len() ==> (#[trigger] question_wire(qs[i])).1 is None,
    ensures
        decode_questions(prefix + questions_wire(qs) + rest, prefix.len() as int, qs.len(), acc)
            == Decoded::Value(
            acc + qs.map_values(|q: QuestionView| question_read_back(q)),
            (prefix.len() + questions_wire(qs).len()) as int,
        ),
    decreases qs.len(),
{
    if qs.len() == 0 {
        assert(acc + qs.map_values(|q: QuestionView| question_read_back(q)) =~= acc);
    } else {
        let q = qs[0];
        let tail = qs.drop_first();
        assert(qs =~= seq![q] + tail);
        lemma_questions_wire_front(q, tail);
        let qw = question_wire(q).0;
        let buf = prefix + questions_wire(qs) + rest;
        assert(question_wire(qs[0]).1 is None);
        lemma_question_round_trip(prefix, q, questions_wire(tail) + rest);
        assert(prefix + qw + (questions_wire(tail) + rest) =~= buf);
        assert forall|i: int| 0 <= i < tail.len() implies (#[trigger] question_wire(tail[i])).1 is None by {
            assert(tail[i] == qs[i + 1]);
        }
        lemma_questions_round_trip(prefix + qw, tail, rest, acc.push(question_read_back(q)));
        assert(prefix + qw + questions_wire(tail) + rest =~= buf);
        assert(acc.push(question_read_back(q)) + tail.map_values(|q: QuestionView| question_read_back(q))
            =~= acc + qs.map_values(|q: QuestionView| question_read_back(q)));
    }
}

/// Writing new counts over a header's bytes is writing the header with
/// those counts.
proof fn lemma_put_counts(h: Header, qs: Seq<u8>, qd: u16, an: u16, ns: u16, ar: u16)
    ensures
        put_u16(put_u16(put_u16(put_u16(header_bytes(h) + qs, 4, qd), 6, an), 8, ns), 10, ar)
            == header_bytes(Header { qdcount: qd, ancount: an, nscount: ns, arcount: ar, ..h }) + qs,
{
    let h2 = Header { qdcount: qd, ancount: an, nscount: ns, arcount: ar, ..h };
    assert(put_u16(put_u16(put_u16(put_u16(header_bytes(h) + qs, 4, qd), 6, an), 8, ns), 10, ar)
        =~= header_bytes(h2) + qs);
}

/// A message whose sections of records are empty, whose questions the
/// writer all accepts and number fewer than 2^16, written by
/// [`Message::to_bytes`], reads back as the same message: the header with
/// the counts of what was written and the response code `NoError`, and each
/// question as questions are read back.  Every byte written is read.
#[verifier::rlimit(40)]
pub proof fn lemma_message_round_trip(m: MessageView)
    requires
        m.questions.len() < 0x1_0000,
        m.answers.len() == 0,
        m.authorities.len() == 0,
        m.additionals.len() == 0,
        forall|i: int| 0 <= i < m.questions.len() ==> (#[trigger] question_wire(m.questions[i])).1 is None,
    ensures
        decode_message(message_bytes(m)) == Decoded::Value(
            MessageView {
                header: Header {
                    rcode: Rcode::NoError,
                    qdcount: m.questions.len() as u16,
                    ancount: 0,
                    nscount: 0,
                    arcount: 0,
                    ..m.header
                },
                questions: m.questions.map_values(|q: QuestionView| question_read_back(q)),
                answers: seq![],
                authorities: seq![],
                additionals: seq![],
            },
            message_bytes(m).len() as int,
        ),
{
    let n = m.questions.len() as u16;
    let h2 = Header { qdcount: n, ancount: 0, nscount: 0, arcount: 0, ..m.header };
    let qw = questions_wire(m.questions);
    let b = header_bytes(h2) + qw;
    lemma_message_bytes_counted(m);
    let h3 = Header { rcode: Rcode::NoError, ..h2 };
    let qs2 = m.questions.map_values(|q: QuestionView| question_read_back(q));
    let end = 12 + qw.len() as int;
    assert(decode_header(b, 0) == Decoded::Value(h3, 12)) by {
        lemma_header_round_trip(h2, qw);
    }
    lemma_counted_questions(h2, m.questions);
    let mv = MessageView { header: h3, questions: qs2, answers: seq![], authorities: seq![], additionals: seq![] };
    assert(decode_sections(b, end, h3, qs2) == Decoded::Value(mv, end)) by {
        assert(decode_records(b, end, 0, seq![]) == Decoded::Value(Seq::<RecordView>::empty(), end));
    }
    lemma_decode_message_steps(b, h3, qs2, end);
}

/// A message whose header reads back, and whose questions read back after
/// it, reads back as its record sections do after them.
proof fn lemma_decode_message_steps(b: Seq<u8>, h: Header, qs: Seq<QuestionView>, end: int)
    requires
        decode_header(b, 0) == Decoded::Value(h, 12),
        decode_questions(b, 12, h.qdcount as nat, seq![]) == Decoded::Value(qs, end),
    ensures
        decode_message(b) == decode_sections(b, end, h, qs),
{
}

/// The bytes of a message with empty record sections are its header, with
/// the counts of what is written, and its questions.
proof fn lemma_message_bytes_counted(m: MessageView)
    requires
        m.answers.len() == 0,
        m.authorities.len() == 0,
        m.additionals.len() == 0,
    ensures
        message_bytes(m) == header_bytes(
            Header { qdcount: m.questions.len() as u16, ancount: 0, nscount: 0, arcount: 0, ..m.header },
        ) + questions_wire(m.questions),
{
    lemma_put_counts(m.header, questions_wire(m.questions), m.questions.len() as u16, 0, 0, 0);
}

/// After a header, the questions it counts are read back.
proof fn lemma_counted_questions(h: Header, qs: Seq<QuestionView>)
    requires
        qs.len() == h.qdcount,
        forall|i: int| 0 <= i < qs.len() ==> (#[trigger] question_wire(qs[i])).1 is None,
    ensures
        decode_questions(header_bytes(h) + questions_wire(qs), 12, h.qdcount as nat, seq![])
            == Decoded::Value(
            qs.map_values(|q: QuestionView| question_read_back(q)),
            12 + questions_wire(qs).len() as int,
        ),
{
    let b = header_bytes(h) + questions_wire(qs);
    lemma_questions_round_trip(header_bytes(h), qs, Seq::empty(), seq![]);
    assert(header_bytes(h) + questions_wire(qs) + Seq::<u8>::empty() =~= b);
    assert(Seq::<QuestionView>::empty() + qs.map_values(|q: QuestionView| question_read_back(q))
        =~= qs.map_values(|q: QuestionView| question_read_back(q)));
}

/// Reading records after some already read is reading them alone and
/// putting those before them.
#[verifier::rlimit(60)]
proof fn lemma_records_after(buf: Seq<u8>, pos: int, n: nat, acc: Seq<RecordView>)
    ensures
        match decode_records(buf, pos, n, seq![]) {
            Decoded::Value(rs, q) => decode_records(buf, pos, n, acc) == Decoded::Value(acc + rs, q),
            Decoded::Error(e, q) => decode_records(buf, pos, n, acc) == Decoded::<Seq<RecordView>>::Error(e, q),
            Decoded::LabelOverrun => decode_records(buf, pos, n, acc) is LabelOverrun,
        },
    decreases n,
{
    if n == 0 {
        assert(acc + Seq::<RecordView>::empty() =~= acc);
    } else {
        match decode_record(buf, pos) {
            Decoded::Value(r, p) => {
                lemma_records_after(buf, p, (n - 1) as nat, acc.push(r));
                lemma_records_after(buf, p, (n - 1) as nat, seq![r]);
                match decode_records(buf, p, (n - 1) as nat, seq![]) {
                    Decoded::Value(rs, q) => {
                        assert(acc.push(r) + rs =~= acc + (seq![r] + rs));
                        assert(Seq::<RecordView>::empty().push(r) =~= seq![r]);
                    },
                    _ => {
                        assert(Seq::<RecordView>::empty().push(r) =~= seq![r]);
                    },
                }
            },
            _ => {},
        }
    }
}

/// Reading `n1 + n2` records is reading `n1`, then `n2` more after them.
proof fn lemma_records_split(buf: Seq<u8>, pos: int, n1: nat, n2: nat, acc: Seq<RecordView>)
    ensures
        decode_records(buf, pos, n1 + n2, acc) == and_then(
            decode_records(buf, pos, n1, acc),
            |rs: Seq<RecordView>, q: int| decode_records(buf, q, n2, rs),
        ),
    decreases n1,
{
    if n1 > 0 {
        match decode_record(buf, pos) {
            Decoded::Value(r, p) => {
                lemma_records_split(buf, p, (n1 - 1) as nat, n2, acc.push(r));
                assert((n1 + n2 - 1) as nat == ((n1 - 1) as nat + n2) as nat);
            },
            _ => {},
        }
    }
}

/// Records read one after another number as many as were asked for, after
/// those already read.
proof fn lemma_records_count(buf: Seq<u8>, pos: int, n: nat, acc: Seq<RecordView>)
    ensures
        decode_records(buf, pos, n, acc) matches Decoded::Value(rs, _) ==> rs.len() == acc.len() + n,
    decreases n,
{
    if n > 0 {
        if let Decoded::Value(r, p) = decode_record(buf, pos) {
            lemma_records_count(buf, p, (n - 1) as nat, acc.push(r));
        }
    }
}

/// Questions read one after another number as many as were asked for,
/// after those already read.
proof fn lemma_questions_count(buf: Seq<u8>, pos: int, n: nat, acc: Seq<QuestionView>)
    ensures
        decode_questions(buf, pos, n, acc) matches Decoded::Value(qs, _) ==> qs.len() == acc.len() + n,
    decreases n,
{
    if n > 0 {
        if let Decoded::Value(q, p) = decode_question(buf, pos) {
            lemma_questions_count(buf, p, (n - 1) as nat, acc.push(q));
        }
    }
}

/// `n` records read from `pos` are, in order, the record read there and the
/// `n - 1` records read after it; there are `n` of them.
pub proof fn lemma_records_in_order(buf: Seq<u8>, pos: int, n: nat)
    ensures
        decode_records(buf, pos, n, seq![]) matches Decoded::Value(rs, p) ==> {
            &&& rs.len() == n
            &&& n > 0 ==> (decode_record(buf, pos) matches Decoded::Value(r, q) && rs[0] == r
                && decode_records(buf, q, (n - 1) as nat, seq![]) == Decoded::Value(rs.drop_first(), p))
        },
{
    lemma_records_count(buf, pos, n, seq![]);
    if n > 0 {
        if let Decoded::Value(r, q) = decode_record(buf, pos) {
            lemma_records_after(buf, q, (n - 1) as nat, seq![r]);
            assert(Seq::<RecordView>::empty().push(r) =~= seq![r]);
            if let Decoded::Value(rest, p) = decode_records(buf, q, (n - 1) as nat, seq![]) {
                assert((seq![r] + rest).drop_first() =~= rest);
            }
        }
    }
}

/// A message read from a buffer has as many questions, answers, authority
/// records and additional records as its header counts.  Its header is the
/// one read at the start; its questions are those read after the header;
/// and its answers, authority records and additional records are, in that
/// order, the records read one after another after the questions, the
/// first `ancount` of them answers, the next `nscount` authority records,
/// the last `arcount` additional records.
pub proof fn lemma_message_sections(buf: Seq<u8>)
    ensures
        decode_message(buf) matches Decoded::Value(m, p) ==> {
            let h = m.header;
            &&& m.questions.len() == h.qdcount
            &&& m.answers.len() == h.ancount
            &&& m.authorities.len() == h.nscount
            &&& m.additionals.len() == h.arcount
            &&& decode_header(buf, 0) == Decoded::Value(h, 12)
            &&& exists|q: int|
                decode_questions(buf, 12, h.qdcount as nat, seq![]) == Decoded::Value(m.questions, q)
                    && #[trigger] decode_records(buf, q, (h.ancount + h.nscount + h.arcount) as nat, seq![])
                    == Decoded::Value(m.answers + m.authorities + m.additionals, p)
        },
{
    if let Decoded::Value(h, p1) = decode_header(buf, 0) {
        crate::dns::header::lemma_header_fields(buf, 0);
        if let Decoded::Value(qs, p2) = decode_questions(buf, p1, h.qdcount as nat, seq![]) {
            lemma_questions_count(buf, p1, h.qdcount as nat, seq![]);
            let an = h.ancount as nat;
            let ns = h.nscount as nat;
            let ar = h.arcount as nat;
            lemma_records_split(buf, p2, an, ns + ar, seq![]);
            if let Decoded::Value(answers, q1) = decode_records(buf, p2, an, seq![]) {
                lemma_records_count(buf, p2, an, seq![]);
                lemma_records_split(buf, q1, ns, ar, answers);
                lemma_records_after(buf, q1, ns, answers);
                if let Decoded::Value(authorities, q2) = decode_records(buf, q1, ns, seq![]) {
                    lemma_records_count(buf, q1, ns, seq![]);
                    lemma_records_after(buf, q2, ar, answers + authorities);
                    if let Decoded::Value(additionals, q3) = decode_records(buf, q2, ar, seq![]) {
                        lemma_records_count(buf, q2, ar, seq![]);
                        assert(an + ns + ar == (an + (ns + ar)) as nat);
                        assert(decode_records(buf, p2, (h.ancount + h.nscount + h.arcount) as nat, seq![])
                            == Decoded::Value(answers + authorities + additionals, q3));
                    }
                }
            }
        }
    }
}

} // verus!
