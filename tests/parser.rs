use redis_subscribe::{parse, parse_response, Response};

#[test]
fn simple_string() {
    let (rem, res) = parse_response("+OK\r\n").unwrap();

    assert_eq!("", rem);
    assert_eq!(Response::SimpleString("OK".to_string()), res);
}

#[test]
fn error() {
    let (rem, res) = parse_response("-Error message\r\n").unwrap();

    assert_eq!("", rem);
    assert_eq!(Response::Error("Error message".to_string()), res);
}

#[test]
fn integer() {
    let (rem, res) = parse_response(":1000\r\n").unwrap();

    assert_eq!("", rem);
    assert_eq!(Response::Integer(1000), res);
}

#[test]
fn bulk() {
    let (rem, res) = parse_response("$6\r\nfoobar\r\n").unwrap();

    assert_eq!("", rem);
    assert_eq!(Response::Bulk("foobar".to_string()), res);
}

#[test]
fn null() {
    let (rem, res) = parse_response("$-1\r\n").unwrap();

    assert_eq!("", rem);
    assert_eq!(Response::Null, res);
}

#[test]
fn array() {
    let (rem, res) = parse_response("*0\r\n").unwrap();

    assert_eq!("", rem);
    assert_eq!(Response::Array(vec![]), res);
}

#[test]
fn array_filled() {
    let (rem, res) = parse_response("*2\r\n$3\r\nfoo\r\n$3\r\nbar\r\n").unwrap();

    assert_eq!("", rem);
    assert_eq!(
        Response::Array(vec![
            Response::Bulk("foo".to_string()),
            Response::Bulk("bar".to_string())
        ]),
        res
    );
}

#[test]
fn array_nested() {
    let (rem, res) =
        parse_response("*2\r\n*3\r\n:1\r\n:2\r\n:3\r\n*2\r\n+Foo\r\n-Bar\r\n").unwrap();

    assert_eq!("", rem);
    assert_eq!(
        Response::Array(vec![
            Response::Array(vec![
                Response::Integer(1),
                Response::Integer(2),
                Response::Integer(3),
            ]),
            Response::Array(vec![
                Response::SimpleString("Foo".to_string()),
                Response::Error("Bar".to_string())
            ])
        ]),
        res
    );
}

#[test]
fn array_null() {
    let (rem, res) = parse_response("*3\r\n$3\r\nfoo\r\n$-1\r\n$3\r\nbar\r\n").unwrap();

    assert_eq!("", rem);
    assert_eq!(
        Response::Array(vec![
            Response::Bulk("foo".to_string()),
            Response::Null,
            Response::Bulk("bar".to_string())
        ]),
        res
    );
}

#[test]
fn remainder_is_kept() {
    let (rem, res) = parse_response(":7\r\n+next").unwrap();
    assert_eq!("+next", rem);
    assert_eq!(Response::Integer(7), res);
}

#[test]
fn bulk_length_counts_bytes_and_may_hold_line_breaks() {
    let (rem, res) = parse_response("$4\r\na\r\nb\r\n").unwrap();
    assert_eq!("", rem);
    assert_eq!(Response::Bulk("a\r\nb".to_string()), res);

    let (rem, res) = parse_response("$4\r\nçé\r\n").unwrap();
    assert_eq!("", rem);
    assert_eq!(Response::Bulk("çé".to_string()), res);
}

#[test]
fn bulk_shorter_than_its_length_waits() {
    assert!(parse_response("$6\r\nfoo\r\n").is_none());
}

#[test]
fn empty_bulk_is_empty_text_not_null() {
    let (rem, res) = parse_response("$0\r\n\r\n").unwrap();
    assert_eq!("", rem);
    assert_eq!(Response::Bulk(String::new()), res);
}

#[test]
fn minus_one_length_only_as_null() {
    assert_eq!(parse_response("$-1\r\n").unwrap().1, Response::Null);
    assert!(parse_response("*-1\r\n").is_none());
    assert!(parse_response("$-2\r\n").is_none());
    assert!(parse_response("$-1x\r\n").is_none());
}

#[test]
fn integers_at_the_edges_of_i64() {
    assert_eq!(
        parse_response(":-9223372036854775808\r\n").unwrap().1,
        Response::Integer(i64::MIN)
    );
    assert_eq!(
        parse_response(":9223372036854775807\r\n").unwrap().1,
        Response::Integer(i64::MAX)
    );
    assert!(parse_response(":9223372036854775808\r\n").is_none());
    assert!(parse_response(":-9223372036854775809\r\n").is_none());
    assert_eq!(parse_response(":-42\r\n").unwrap().1, Response::Integer(-42));
    assert!(parse_response(":\r\n").is_none());
    assert!(parse_response(":4x\r\n").is_none());
}

#[test]
fn malformed_lines_are_not_values() {
    assert!(parse_response("+OK\n").is_none());
    assert!(parse_response("+O\rK\r\n").is_none());
    assert!(parse_response("?what\r\n").is_none());
    assert!(parse_response("").is_none());
}

#[test]
fn parse_takes_complete_values_and_keeps_the_rest() {
    let mut buffer = "+OK\r\n:12\r\n$3\r\nab".to_string();
    let values = parse(&mut buffer);
    assert_eq!(
        values,
        vec![Response::SimpleString("OK".to_string()), Response::Integer(12)]
    );
    assert_eq!(buffer, "$3\r\nab");

    buffer.push_str("c\r\n");
    let values = parse(&mut buffer);
    assert_eq!(values, vec![Response::Bulk("abc".to_string())]);
    assert_eq!(buffer, "");
}

#[test]
fn parse_of_nothing_complete_changes_nothing() {
    let mut buffer = "*2\r\n:1\r\n".to_string();
    assert!(parse(&mut buffer).is_empty());
    assert_eq!(buffer, "*2\r\n:1\r\n");
}

#[test]
fn feeding_in_two_parts_at_every_split_decodes_the_same() {
    let whole = "*3\r\n$3\r\nfoo\r\n:-7\r\n*1\r\n+ok\r\n";
    let expected = Response::Array(vec![
        Response::Bulk("foo".to_string()),
        Response::Integer(-7),
        Response::Array(vec![Response::SimpleString("ok".to_string())]),
    ]);
    for k in 0..=whole.len() {
        let mut buffer = whole[..k].to_string();
        let mut values = parse(&mut buffer);
        buffer.push_str(&whole[k..]);
        values.extend(parse(&mut buffer));
        assert_eq!(values, vec![Response::Array(vec![
            Response::Bulk("foo".to_string()),
            Response::Integer(-7),
            Response::Array(vec![Response::SimpleString("ok".to_string())]),
        ])]);
        assert_eq!(buffer, "");
    }
    let mut buffer = whole.to_string();
    assert_eq!(parse(&mut buffer), vec![expected]);
}

#[test]
fn encodings_decode_to_their_values() {
    let cases: Vec<(&str, Response)> = vec![
        ("+hello world\r\n", Response::SimpleString("hello world".to_string())),
        ("-ERR bad\r\n", Response::Error("ERR bad".to_string())),
        (":0\r\n", Response::Integer(0)),
        ("$-1\r\n", Response::Null),
        ("$5\r\nhello\r\n", Response::Bulk("hello".to_string())),
        (
            "*2\r\n*0\r\n$0\r\n\r\n",
            Response::Array(vec![Response::Array(vec![]), Response::Bulk(String::new())]),
        ),
    ];
    for (text, value) in cases {
        let (rem, res) = parse_response(text).unwrap();
        assert_eq!(rem, "");
        assert_eq!(res, value);
    }
}
