use dns_resolver::dns::message::Message;
use dns_resolver::dns::question::{Question, RecordType, RecordTypeOrUnknown};
use dns_resolver::error::ResolverError;
use dns_resolver::resolver::{classify_response, Action, Event, Resolution};

fn question() -> Question {
    Question::new("example.com", RecordTypeOrUnknown::Known(RecordType::A))
}

#[test]
fn no_attempts_allowed_fails_at_once() {
    let (_, action) = Resolution::start(&question(), 0);
    match action {
        Action::Finish(Err(ResolverError::QueryFailed { attempts, last_error })) => {
            assert_eq!(attempts, 0);
            assert_eq!(last_error, "");
        }
        _ => panic!("unexpected action"),
    }
}

#[test]
fn query_bytes_carry_the_identifier() {
    let (state, action) = Resolution::start(&question(), 2);
    assert!(matches!(action, Action::Send));
    let q = state.query();
    assert_eq!(u16::from_be_bytes([q[0], q[1]]), state.id());
    let back = Message::from_bytes(q).unwrap();
    assert_eq!(back.questions[0].qname, "example.com");
}

#[test]
fn failures_back_off_then_give_up() {
    let (mut state, _) = Resolution::start(&question(), 3);
    match state.on_event(Event::Failure("first".to_string())) {
        Action::Retry { delay_millis } => assert_eq!(delay_millis, 250),
        _ => panic!("expected a retry"),
    }
    match state.on_event(Event::Failure("second".to_string())) {
        Action::Retry { delay_millis } => assert_eq!(delay_millis, 500),
        _ => panic!("expected a retry"),
    }
    match state.on_event(Event::Failure("third".to_string())) {
        Action::Finish(Err(ResolverError::QueryFailed { attempts, last_error })) => {
            assert_eq!(attempts, 3);
            assert_eq!(last_error, "third");
        }
        _ => panic!("expected the query to fail"),
    }
}

#[test]
fn response_finishes_the_query() {
    let (mut state, _) = Resolution::start(&question(), 3);
    let mut response = state.query().to_vec();
    response[2] |= 0x80;
    match state.on_event(Event::Response(response)) {
        Action::Finish(Ok(m)) => assert_eq!(m.questions.len(), 1),
        _ => panic!("expected an answer"),
    }
}

#[test]
fn truncated_response_is_refused() {
    let (state, _) = Resolution::start(&question(), 1);
    let mut response = state.query().to_vec();
    response[2] |= 0x02;
    assert!(matches!(classify_response(&response), Some(Err(ResolverError::TruncatedResponse))));
    // An undecodable response with the bit set is refused the same way.
    assert!(matches!(classify_response(&[0, 0, 0x02]), Some(Err(ResolverError::TruncatedResponse))));
}

#[test]
fn undecodable_full_payload_is_taken_as_truncated() {
    let mut response = vec![0u8; 512];
    response[5] = 1;
    response[12] = 0xC3;
    response[13] = 0xFF;
    assert!(matches!(classify_response(&response), Some(Err(ResolverError::TruncatedResponse))));
    assert!(matches!(classify_response(&response[..100]), Some(Err(ResolverError::InvalidPointer { .. }))));
}

#[test]
fn mismatched_identifier_is_noticed() {
    let (state, _) = Resolution::start(&question(), 1);
    let id = state.id();
    assert!(!state.id_mismatch(&id.to_be_bytes()));
    assert!(state.id_mismatch(&id.wrapping_add(1).to_be_bytes()));
    assert!(!state.id_mismatch(&[1]));
}
