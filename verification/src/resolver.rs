//! The decisions of a query over UDP: which message to send, when to try
//! again, and what a response comes to.  Sending, receiving and waiting are
//! left to the driver, which reports each outcome as an event and carries
//! out the action it gets back.

use vstd::prelude::*;

use crate::dns::header::{rcode_description, Header, Rcode};
use crate::dns::message::{decode_message, message_bytes, Message, MessageView};
use crate::dns::question::{Question, QuestionView};
use crate::dns::wire::{be16, Decoded, MAX_UDP_PAYLOAD};
use crate::error::{ErrorView, ResolverError};

verus! {

/// `rand::random::<u16>()`: a random query identifier.  Nothing is claimed
/// of its value.
#[verifier::external_body]
fn random_id() -> (id: u16) {
    rand::random()
}

/// The name of a response code as `Debug` writes it.
pub open spec fn rcode_name(r: Rcode) -> Seq<char> {
    match r {
        Rcode::NoError => "NoError"@,
        Rcode::FormErr => "FormErr"@,
        Rcode::ServFail => "ServFail"@,
        Rcode::NxDomain => "NxDomain"@,
        Rcode::NotImp => "NotImp"@,
        Rcode::Refused => "Refused"@,
        Rcode::YXDomain => "YXDomain"@,
        Rcode::YXRRSet => "YXRRSet"@,
        Rcode::NXRRSet => "NXRRSet"@,
        Rcode::NotAuth => "NotAuth"@,
        Rcode::NotZone => "NotZone"@,
    }
}

fn rcode_name_text(r: Rcode) -> (s: &'static str)
    ensures
        s@ == rcode_name(r),
{
    match r {
        Rcode::NoError => "NoError",
        Rcode::FormErr => "FormErr",
        Rcode::ServFail => "ServFail",
        Rcode::NxDomain => "NxDomain",
        Rcode::NotImp => "NotImp",
        Rcode::Refused => "Refused",
        Rcode::YXDomain => "YXDomain",
        Rcode::YXRRSet => "YXRRSet",
        Rcode::NXRRSet => "NXRRSet",
        Rcode::NotAuth => "NotAuth",
        Rcode::NotZone => "NotZone",
    }
}

/// The truncation bit is set in the third byte of a response.
pub open spec fn tc_bit_set(response: Seq<u8>) -> bool {
    response.len() >= 3 && (response[2] & 0x02) != 0
}

/// What a response comes to.  A response that does not decode is taken as
/// truncated when its truncation bit is set or it fills a whole UDP
/// payload; a decoded response with the truncation flag is refused as
/// truncated; a response code other than `NoError` and `NxDomain` is a
/// server error; any other response is accepted.  `None` is the case in
/// which decoding would read a too-long label past the end of the response.
pub open spec fn response_outcome(response: Seq<u8>) -> Option<Result<MessageView, ErrorView>> {
    match decode_message(response) {
        Decoded::LabelOverrun => None,
        Decoded::Error(e, _) => Some(
            Err(
                if tc_bit_set(response) || response.len() == MAX_UDP_PAYLOAD {
                    ErrorView::TruncatedResponse
                } else {
                    e
                },
            ),
        ),
        Decoded::Value(m, _) => Some(
            if m.header.tc {
                Err(ErrorView::TruncatedResponse)
            } else {
                match m.header.rcode {
                    Rcode::NoError => Ok(m),
                    Rcode::NxDomain => Ok(m),
                    r => Err(
                        ErrorView::ServerError(
                            rcode_description(r) + " (rcode="@ + rcode_name(r) + ")"@,
                        ),
                    ),
                }
            },
        ),
    }
}

/// `o` is what [`response_outcome`] describes.
pub open spec fn outcome_matches(
    o: Option<Result<Message, ResolverError>>,
    d: Option<Result<MessageView, ErrorView>>,
) -> bool {
    match d {
        None => o is None,
        Some(Ok(m)) => o matches Some(Ok(x)) && x@ == m,
        Some(Err(e)) => o matches Some(Err(x)) && x@ == e,
    }
}

/// Decides what a response comes to, as [`response_outcome`] says.
pub fn classify_response(response: &[u8]) -> (r: Option<Result<Message, ResolverError>>)
    requires
        response@.len() <= isize::MAX,
    ensures
        outcome_matches(r, response_outcome(response@)),
{
    let msg = match Message::from_bytes_checked(response) {
        None => {
            return None;
        },
        Some(Ok(msg)) => msg,
        Some(Err(e)) => {
            let tc_bit = response.len() >= 3 && (response[2] & 0x02) != 0;
            let full_payload = response.len() == MAX_UDP_PAYLOAD;

            if tc_bit || full_payload {
                return Some(Err(ResolverError::TruncatedResponse));
            }
            return Some(Err(e));
        },
    };

    if msg.header.is_truncated() {
        return Some(Err(ResolverError::TruncatedResponse));
    }

    match msg.header.rcode {
        Rcode::NoError => {},
        Rcode::NxDomain => {},
        others => {
            let mut text = String::from_str(others.description());
            text.append(" (rcode=");
            text.append(rcode_name_text(others));
            text.append(")");
            return Some(Err(ResolverError::ServerError(text)));
        },
    }

    Some(Ok(msg))
}

/// What the driver is asked to do next.
pub enum Action {
    /// Send the query and report what comes back.
    Send,
    /// Wait this many milliseconds, then send the query again.
    Retry { delay_millis: u64 },
    /// The query is over, with this outcome.
    Finish(Result<Message, ResolverError>),
    /// Decoding the response would read a too-long label past its end; the
    /// query cannot go on.
    Fault,
}

/// What came of sending the query.
pub enum Event {
    /// A response arrived.
    Response(Vec<u8>),
    /// Sending or receiving failed; the text describes the failure.
    Failure(String),
}

/// A query in progress: its identifier and bytes, the number of the
/// attempt under way, how many attempts are allowed, and the text of the
/// last failure.
pub struct Resolution {
    id: u16,
    query: Vec<u8>,
    attempt: u8,
    max_retries: u8,
    last_error: String,
}

/// The view of a query in progress.
pub struct ResolutionView {
    pub id: u16,
    pub query: Seq<u8>,
    pub attempt: u8,
    pub max_retries: u8,
    pub last_error: Seq<char>,
}

impl View for Resolution {
    type V = ResolutionView;

    closed spec fn view(&self) -> ResolutionView {
        ResolutionView {
            id: self.id,
            query: self.query@,
            attempt: self.attempt,
            max_retries: self.max_retries,
            last_error: self.last_error@,
        }
    }
}

/// The query that asks `q` under identifier `id`, as written for the wire.
pub open spec fn query_bytes(id: u16, q: QuestionView) -> Seq<u8> {
    message_bytes(
        MessageView {
            header: Header::spec_new_query(id),
            questions: seq![q],
            answers: seq![],
            authorities: seq![],
            additionals: seq![],
        },
    )
}

impl Resolution {
    /// Starts a query for `question` under a random identifier, with at
    /// most `max_retries` attempts.  With none allowed the query fails at
    /// once; otherwise the first attempt is under way.
    pub fn start(question: &Question, max_retries: u8) -> (r: (Self, Action))
        ensures
            r.0@.query == query_bytes(r.0@.id, question@),
            r.0@.max_retries == max_retries,
            r.0@.last_error == Seq::<char>::empty(),
            max_retries == 0 ==> r.0@.attempt == 0,
            max_retries == 0 ==> (r.1 matches Action::Finish(Err(e)) && e@
                == (ErrorView::QueryFailed { attempts: 0, last_error: Seq::empty() })),
            max_retries > 0 ==> r.0@.attempt == 1 && r.1 is Send,
    {
        let id = random_id();
        let copy = Question {
            qname: question.qname.clone(),
            qtype: question.qtype,
            qclass: question.qclass,
        };
        let query = Message::new(id, copy).to_bytes();
        let last_error = String::new();
        if max_retries == 0 {
            let e = ResolverError::QueryFailed { attempts: 0, last_error: String::new() };
            let state = Self { id, query, attempt: 0, max_retries, last_error };
            return (state, Action::Finish(Err(e)));
        }
        (Self { id, query, attempt: 1, max_retries, last_error }, Action::Send)
    }

    /// The identifier of the query.
    pub fn id(&self) -> (id: u16)
        ensures
            id == self@.id,
    {
        self.id
    }

    /// The bytes of the query.
    pub fn query(&self) -> (q: &[u8])
        ensures
            q@ == self@.query,
    {
        self.query.as_slice()
    }

    /// Whether a response carries another identifier than the query's.
    pub fn id_mismatch(&self, response: &[u8]) -> (b: bool)
        ensures
            b == (response@.len() >= 2 && be16(response@[0], response@[1]) != self@.id),
    {
        if response.len() >= 2 {
            let response_id = (response[0] as u16) * 256 + response[1] as u16;
            response_id != self.id
        } else {
            false
        }
    }

    /// Takes in what came of the attempt under way.  A response ends the
    /// query with what it comes to.  A failure is remembered; while attempts
    /// remain, the next one follows after a wait of 250 ms times the number
    /// of the attempt that failed; after the last the query fails, naming
    /// the number of attempts and the last failure.
    pub fn on_event(&mut self, event: Event) -> (a: Action)
        requires
            1 <= old(self)@.attempt <= old(self)@.max_retries,
            event matches Event::Response(b) ==> b@.len() <= isize::MAX,
        ensures
            final(self)@.id == old(self)@.id,
            final(self)@.query == old(self)@.query,
            final(self)@.max_retries == old(self)@.max_retries,
            match event {
                Event::Response(bytes) => {
                    &&& final(self)@ == old(self)@
                    &&& match response_outcome(bytes@) {
                        None => a is Fault,
                        Some(Ok(m)) => a matches Action::Finish(Ok(x)) && x@ == m,
                        Some(Err(e)) => a matches Action::Finish(Err(x)) && x@ == e,
                    }
                },
                Event::Failure(text) => {
                    &&& final(self)@.last_error == text@
                    &&& if old(self)@.attempt < old(self)@.max_retries {
                        &&& final(self)@.attempt == old(self)@.attempt + 1
                        &&& a matches Action::Retry { delay_millis }
                        &&& delay_millis == 250 * old(self)@.attempt
                    } else {
                        &&& final(self)@.attempt == old(self)@.attempt
                        &&& a matches Action::Finish(Err(e))
                        &&& e@ == (ErrorView::QueryFailed {
                            attempts: old(self)@.max_retries,
                            last_error: text@,
                        })
                    }
                },
            },
    {
        match event {
            Event::Response(bytes) => match classify_response(bytes.as_slice()) {
                None => Action::Fault,
                Some(outcome) => Action::Finish(outcome),
            },
            Event::Failure(text) => {
                let last = text.clone();
                self.last_error = text;
                if self.attempt < self.max_retries {
                    let delay_millis = 250 * (self.attempt as u64);
                    self.attempt += 1;
                    Action::Retry { delay_millis }
                } else {
                    Action::Finish(
                        Err(ResolverError::QueryFailed { attempts: self.max_retries, last_error: last }),
                    )
                }
            },
        }
    }
}

/// A response whose truncation bit is set is never accepted.
pub proof fn lemma_truncated_never_accepted(response: Seq<u8>)
    requires
        tc_bit_set(response),
    ensures
        !(response_outcome(response) matches Some(Ok(_))),
{

}

} // verus!
