use redis_subscribe::{backoff_delay_ms, Command, Error, Message, ParserError, Phase, Session};

fn lines(cmds: &[Command]) -> Vec<String> {
    cmds.iter().map(|c| c.to_string()).collect()
}

fn streaming_session() -> Session {
    let mut s = Session::new("127.0.0.1:6379");
    s.start_connecting();
    s.connected();
    assert!(s.resubscribed().is_connected());
    s
}

#[test]
fn command_lines() {
    assert_eq!(Command::Subscribe("chan".to_string()).to_string(), "SUBSCRIBE chan\r\n");
    assert_eq!(Command::Unsubscribe("chan".to_string()).to_string(), "UNSUBSCRIBE chan\r\n");
    assert_eq!(Command::PatternSubscribe("a*".to_string()).to_string(), "PSUBSCRIBE a*\r\n");
    assert_eq!(
        Command::PatternUnsubscribe("a*".to_string()).to_string(),
        "PUNSUBSCRIBE a*\r\n"
    );
}

#[test]
fn backoff_values() {
    assert_eq!(backoff_delay_ms(0, 0), 0);
    assert_eq!(backoff_delay_ms(1, 0), 1000);
    assert_eq!(backoff_delay_ms(3, 5), 9005);
    assert_eq!(backoff_delay_ms(7, 999), 49999);
    assert_eq!(backoff_delay_ms(8, 0), 64000);
    assert_eq!(backoff_delay_ms(9, 1), 64001);
    assert_eq!(backoff_delay_ms(u32::MAX, 0), 64000);
}

#[test]
fn retries_are_capped_then_start_again() {
    let mut s = Session::new("127.0.0.1:6379");
    s.start_connecting();
    for attempt in 1..=8u64 {
        let d = s.connect_failed().expect("a retry is due");
        let base = (attempt * attempt).min(64) * 1000;
        assert!(base <= d && d < base + 1000, "attempt {} waited {}", attempt, d);
    }
    assert_eq!(s.connect_failed(), None);
    let d = s.connect_failed().expect("a fresh run of attempts");
    assert!((1000..2000).contains(&d));
}

#[test]
fn subscribe_while_disconnected_sends_nothing() {
    let mut s = Session::new("127.0.0.1:6379");
    assert!(s.subscribe("a".to_string()).is_none());
    assert!(s.psubscribe("p*".to_string()).is_none());
    assert!(matches!(s.unsubscribe("a".to_string()), Ok(None)));
    assert!(matches!(s.punsubscribe("p*".to_string()), Ok(None)));
    assert_eq!(s.addr(), "127.0.0.1:6379");
    assert_eq!(s.phase(), Phase::Idle);
}

#[test]
fn subscribe_while_connected_gives_the_command() {
    let mut s = streaming_session();
    assert_eq!(s.subscribe("a".to_string()).unwrap().to_string(), "SUBSCRIBE a\r\n");
    assert_eq!(s.psubscribe("p*".to_string()).unwrap().to_string(), "PSUBSCRIBE p*\r\n");
    assert_eq!(
        s.unsubscribe("a".to_string()).unwrap().unwrap().to_string(),
        "UNSUBSCRIBE a\r\n"
    );
    assert_eq!(
        s.punsubscribe("p*".to_string()).unwrap().unwrap().to_string(),
        "PUNSUBSCRIBE p*\r\n"
    );
}

#[test]
fn unsubscribe_unknown_channel_is_not_subscribed() {
    let mut s = streaming_session();
    s.subscribe("y".to_string());
    assert!(matches!(s.unsubscribe("x".to_string()), Err(Error::NotSubscribed)));
    assert!(s.has_writer());
    assert!(matches!(s.punsubscribe("y".to_string()), Err(Error::NotSubscribed)));
    assert_eq!(s.phase(), Phase::Streaming);
    s.connection_lost(Error::ZeroBytesRead);
    assert_eq!(lines(&s.connected()), vec!["SUBSCRIBE y\r\n".to_string()]);
}

#[test]
fn reconnect_replays_the_registry_before_connected() {
    let mut s = Session::new("127.0.0.1:6379");
    s.subscribe("a".to_string());
    s.subscribe("b".to_string());
    s.subscribe("a".to_string());
    s.psubscribe("p*".to_string());
    s.start_connecting();
    assert_eq!(s.phase(), Phase::Connecting);
    let first = lines(&s.connected());
    assert_eq!(
        first,
        vec!["SUBSCRIBE a\r\n", "SUBSCRIBE b\r\n", "PSUBSCRIBE p*\r\n"]
    );
    assert_eq!(s.phase(), Phase::Resubscribing);
    assert!(s.resubscribed().is_connected());

    let lost = s.connection_lost(Error::ZeroBytesRead);
    assert!(matches!(lost, Message::Disconnected(Error::ZeroBytesRead)));
    assert!(!s.has_writer());
    assert_eq!(s.phase(), Phase::Connecting);
    assert_eq!(s.connect_failed().map(|d| d >= 1000), Some(true));
    let again = lines(&s.connected());
    assert_eq!(again, first);
    assert!(s.resubscribed().is_connected());
}

#[test]
fn failed_resubscription_drops_the_connection() {
    let mut s = Session::new("127.0.0.1:6379");
    s.start_connecting();
    s.connected();
    assert!(s.has_writer());
    s.resubscribe_failed();
    assert!(!s.has_writer());
    assert_eq!(s.phase(), Phase::Connecting);
    assert!(s.subscribe("a".to_string()).is_none());
}

#[test]
fn received_bytes_give_messages_in_order() {
    let mut s = streaming_session();
    let msgs = s.received(b"*3\r\n$9\r\nsubscribe\r\n$4\r\nchan\r\n:1\r\n*3\r\n$7\r\nmess");
    assert_eq!(msgs.len(), 1);
    assert!(msgs[0].is_subscription());
    let msgs = s.received(b"age\r\n$4\r\nchan\r\n$2\r\nhi\r\n");
    assert_eq!(msgs.len(), 1);
    match &msgs[0] {
        Message::Message { channel, message } => {
            assert_eq!(channel, "chan");
            assert_eq!(message, "hi");
        }
        other => panic!("unexpected {:?}", other),
    }
}

#[test]
fn unknown_kind_gives_an_error_and_the_stream_goes_on() {
    let mut s = streaming_session();
    let msgs = s.received(
        b"*2\r\n$6\r\nfoobar\r\n$1\r\nx\r\n*3\r\n$7\r\nmessage\r\n$1\r\nc\r\n$1\r\np\r\n",
    );
    assert_eq!(msgs.len(), 2);
    assert!(matches!(
        msgs[0],
        Message::Error(Error::ParserError(ParserError::MalformedResponse))
    ));
    assert!(msgs[1].is_message());
}

#[test]
fn invalid_utf8_is_dropped_with_an_error() {
    let mut s = streaming_session();
    let msgs = s.received(b"+O");
    assert!(msgs.is_empty());
    let msgs = s.received(&[0xff, 0xfe]);
    assert_eq!(msgs.len(), 1);
    assert!(matches!(msgs[0], Message::Error(Error::Utf8Error(_))));
    let msgs = s.received(b"K\r\n");
    assert_eq!(msgs.len(), 1);
    assert!(matches!(
        msgs[0],
        Message::Error(Error::ParserError(ParserError::MalformedResponse))
    ));
}

#[test]
fn bytes_that_start_no_value_are_dropped() {
    let mut s = streaming_session();
    let msgs = s.received(b"hello\r\n");
    assert_eq!(msgs.len(), 1);
    assert!(matches!(
        msgs[0],
        Message::Error(Error::ParserError(ParserError::MalformedResponse))
    ));
    let msgs = s.received(b"*3\r\n$7\r\nmessage\r\n$1\r\nc\r\n$1\r\np\r\n");
    assert_eq!(msgs.len(), 1);
    assert!(msgs[0].is_message());
}

#[test]
fn lost_connection_forgets_the_partial_value() {
    let mut s = streaming_session();
    assert!(s.received(b"*3\r\n$7\r\nmess").is_empty());
    let m = s.connection_lost(Error::ZeroBytesRead);
    assert!(m.is_disconnected());
    s.connected();
    s.resubscribed();
    let msgs = s.received(b"*3\r\n$7\r\nmessage\r\n$1\r\nc\r\n$1\r\np\r\n");
    assert_eq!(msgs.len(), 1);
    assert!(msgs[0].is_message());
}

#[test]
fn stop_drops_the_connection_and_keeps_the_registry() {
    let mut s = streaming_session();
    s.subscribe("a".to_string());
    assert!(s.received(b"*3\r\n$7\r\nmess").is_empty());
    s.stop();
    assert!(!s.has_writer());
    assert_eq!(s.phase(), Phase::Idle);
    assert!(s.subscribe("b".to_string()).is_none());
    s.start_connecting();
    assert_eq!(lines(&s.connected()), vec!["SUBSCRIBE a\r\n", "SUBSCRIBE b\r\n"]);
    s.resubscribed();
    let msgs = s.received(b"*3\r\n$7\r\nmessage\r\n$1\r\nc\r\n$1\r\np\r\n");
    assert_eq!(msgs.len(), 1);
}

#[test]
fn read_failure_is_reported_as_disconnection() {
    let mut s = streaming_session();
    let cause = Error::IoError(std::io::Error::new(std::io::ErrorKind::ConnectionReset, "reset"));
    match s.connection_lost(cause) {
        Message::Disconnected(Error::IoError(e)) => {
            assert_eq!(e.kind(), std::io::ErrorKind::ConnectionReset)
        }
        other => panic!("unexpected {:?}", other),
    }
    assert_eq!(s.phase(), Phase::Connecting);
    assert!(!s.has_writer());
}

fn malformed(m: &Message) -> bool {
    matches!(m, Message::Error(Error::ParserError(ParserError::MalformedResponse)))
}

#[test]
fn leftovers_that_can_never_parse_are_dropped() {
    let garbage: [&[u8]; 7] = [
        b":abc\r\n",
        b"$-2\r\n",
        b"*-1\r\n",
        b"$3\r\nabcd\r\n",
        b"$3\r\nabc\rX",
        b"*2\r\n:1\r\n:x\r\n",
        b"+O\rK\r\n",
    ];
    for bytes in garbage {
        let mut s = streaming_session();
        let msgs = s.received(bytes);
        assert_eq!(msgs.len(), 1, "{:?}", bytes);
        assert!(malformed(&msgs[0]), "{:?}", bytes);
        let msgs = s.received(b"*3\r\n$7\r\nmessage\r\n$1\r\nc\r\n$1\r\np\r\n");
        assert_eq!(msgs.len(), 1);
        assert!(msgs[0].is_message());
    }
}

#[test]
fn unfinished_values_wait_for_more_bytes() {
    let incomplete: [&[u8]; 6] = [b"$3\r\nab", b"$3\r\nabc\r", b"*2\r\n:1\r\n", b":12", b"+OK\r", b"$"];
    for bytes in incomplete {
        let mut s = streaming_session();
        assert!(s.received(bytes).is_empty(), "{:?}", bytes);
    }
}

#[test]
fn character_cut_by_a_read_waits_for_the_rest() {
    let whole = "*3\r\n$7\r\nmessage\r\n$1\r\nc\r\n$4\r\nçé\r\n".as_bytes();
    for k in 0..=whole.len() {
        let mut s = streaming_session();
        let mut msgs = s.received(&whole[..k]);
        msgs.extend(s.received(&whole[k..]));
        assert_eq!(msgs.len(), 1, "split at {}", k);
        match &msgs[0] {
            Message::Message { channel, message } => {
                assert_eq!(channel, "c");
                assert_eq!(message, "çé");
            }
            other => panic!("split at {}: unexpected {:?}", k, other),
        }
    }
}

#[test]
fn four_byte_character_split_over_three_reads() {
    let whole = "+\u{1F600}\r\n".as_bytes();
    let mut s = streaming_session();
    assert!(s.received(&whole[..2]).is_empty());
    assert!(s.received(&whole[2..4]).is_empty());
    let msgs = s.received(&whole[4..]);
    assert_eq!(msgs.len(), 1);
    assert!(malformed(&msgs[0]));
}
