use redis_subscribe::{Error, Message, ParserError, Response};

fn bulk(s: &str) -> Response {
    Response::Bulk(s.to_string())
}

fn parser_error(r: Result<Message, Error>) -> ParserError {
    match r {
        Err(Error::ParserError(e)) => e,
        other => panic!("expected a parser error, got {:?}", other),
    }
}

#[test]
fn subscribe_confirmation() {
    let m = Message::from_response(Response::Array(vec![
        bulk("subscribe"),
        bulk("chan"),
        Response::Integer(3),
    ]))
    .unwrap();
    match m {
        Message::Subscription { channel, subscriptions } => {
            assert_eq!(channel, "chan");
            assert_eq!(subscriptions, 3);
        }
        other => panic!("unexpected {:?}", other),
    }
}

#[test]
fn published_message() {
    let m = Message::from_response(Response::Array(vec![
        bulk("message"),
        bulk("chan"),
        bulk("payload"),
    ]))
    .unwrap();
    match m {
        Message::Message { channel, message } => {
            assert_eq!(channel, "chan");
            assert_eq!(message, "payload");
        }
        other => panic!("unexpected {:?}", other),
    }
}

#[test]
fn pattern_published_message() {
    let m = Message::from_response(Response::Array(vec![
        bulk("pmessage"),
        bulk("pat"),
        bulk("chan"),
        bulk("payload"),
    ]))
    .unwrap();
    match m {
        Message::PatternMessage { pattern, channel, message } => {
            assert_eq!(pattern, "pat");
            assert_eq!(channel, "chan");
            assert_eq!(message, "payload");
        }
        other => panic!("unexpected {:?}", other),
    }
}

#[test]
fn other_confirmations() {
    let m = Message::from_response(Response::Array(vec![
        bulk("unsubscribe"),
        bulk("a"),
        Response::Integer(0),
    ]))
    .unwrap();
    assert!(m.is_unsubscription());
    let m = Message::from_response(Response::Array(vec![
        bulk("psubscribe"),
        bulk("a*"),
        Response::Integer(1),
    ]))
    .unwrap();
    match m {
        Message::PatternSubscription { channel, subscriptions } => {
            assert_eq!(channel, "a*");
            assert_eq!(subscriptions, 1);
        }
        other => panic!("unexpected {:?}", other),
    }
    let m = Message::from_response(Response::Array(vec![
        bulk("punsubscribe"),
        bulk("a*"),
        Response::Integer(0),
    ]))
    .unwrap();
    assert!(m.is_pattern_unsubscription());
}

#[test]
fn kind_is_matched_in_any_case() {
    let m = Message::from_response(Response::Array(vec![
        bulk("SubScribe"),
        bulk("chan"),
        Response::Integer(1),
    ]))
    .unwrap();
    assert!(m.is_subscription());
}

#[test]
fn kind_must_already_be_lower_case_for_from_kind() {
    let items = vec![bulk("SUBSCRIBE"), bulk("chan"), Response::Integer(1)];
    assert!(Message::from_kind("subscribe", &items).unwrap().is_subscription());
    assert_eq!(
        parser_error(Message::from_kind("SUBSCRIBE", &items)),
        ParserError::MalformedResponse
    );
}

#[test]
fn textless_first_element_is_malformed() {
    let r = Message::from_response(Response::Array(vec![
        Response::Integer(1),
        bulk("chan"),
        Response::Integer(3),
    ]));
    assert_eq!(parser_error(r), ParserError::MalformedResponse);
}

#[test]
fn not_an_array_or_empty_is_malformed() {
    assert_eq!(
        parser_error(Message::from_response(bulk("subscribe"))),
        ParserError::MalformedResponse
    );
    assert_eq!(
        parser_error(Message::from_response(Response::Array(vec![]))),
        ParserError::MalformedResponse
    );
    assert_eq!(
        parser_error(Message::from_response(Response::Array(vec![
            Response::SimpleString("subscribe".to_string()),
            bulk("chan"),
            Response::Integer(3),
        ]))),
        ParserError::MalformedResponse
    );
}

#[test]
fn unknown_kind_is_malformed() {
    let r = Message::from_response(Response::Array(vec![bulk("foobar"), bulk("x")]));
    assert_eq!(parser_error(r), ParserError::MalformedResponse);
}

#[test]
fn field_errors_are_precise() {
    let r = Message::from_response(Response::Array(vec![bulk("subscribe")]));
    assert_eq!(parser_error(r), ParserError::InvalidChannel);
    let r = Message::from_response(Response::Array(vec![bulk("subscribe"), bulk("c")]));
    assert_eq!(parser_error(r), ParserError::InvalidSubscriberCount);
    let r = Message::from_response(Response::Array(vec![
        bulk("unsubscribe"),
        Response::Integer(1),
        Response::Integer(1),
    ]));
    assert_eq!(parser_error(r), ParserError::InvalidChannel);
    let r = Message::from_response(Response::Array(vec![bulk("psubscribe"), Response::Null]));
    assert_eq!(parser_error(r), ParserError::InvalidPattern);
    let r = Message::from_response(Response::Array(vec![bulk("punsubscribe"), bulk("p"), bulk("1")]));
    assert_eq!(parser_error(r), ParserError::InvalidSubscriberCount);
    let r = Message::from_response(Response::Array(vec![bulk("message"), bulk("c")]));
    assert_eq!(parser_error(r), ParserError::InvalidSubscriberCount);
    let r = Message::from_response(Response::Array(vec![bulk("message")]));
    assert_eq!(parser_error(r), ParserError::InvalidChannel);
    let r = Message::from_response(Response::Array(vec![bulk("pmessage")]));
    assert_eq!(parser_error(r), ParserError::InvalidPattern);
    let r = Message::from_response(Response::Array(vec![bulk("pmessage"), bulk("p")]));
    assert_eq!(parser_error(r), ParserError::InvalidChannel);
    let r = Message::from_response(Response::Array(vec![bulk("pmessage"), bulk("p"), bulk("c")]));
    assert_eq!(parser_error(r), ParserError::InvalidSubscriberCount);
}

#[test]
fn variant_predicates() {
    let m = Message::Connected;
    assert!(m.is_connected());
    assert!(!m.is_message());
    let m = Message::Disconnected(Error::ZeroBytesRead);
    assert!(m.is_disconnected());
    assert!(!m.is_error());
    let m = Message::Error(Error::NotSubscribed);
    assert!(m.is_error());
    let m = Message::Message { channel: "a".to_string(), message: "b".to_string() };
    assert!(m.is_message());
    assert!(!m.is_pattern_message());
    let m = Message::PatternMessage {
        pattern: "p".to_string(),
        channel: "a".to_string(),
        message: "b".to_string(),
    };
    assert!(m.is_pattern_message());
    let m = Message::PatternSubscription { channel: "p".to_string(), subscriptions: 1 };
    assert!(m.is_pattern_subscription());
    assert!(!m.is_subscription());
}
