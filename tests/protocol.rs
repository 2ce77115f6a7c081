use resp_server::connection::{respond, step, Action, ReadOutcome};
use resp_server::decode::{parse_frame, Error, Parser, MAX_DEPTH};
use resp_server::frame::{encode_all, Frame};
use resp_server::process::{reply_frames, Process};

fn simple(s: &str) -> Frame {
    Frame::Simple(s.to_string())
}

#[test]
fn simple_ping_array_gets_pong() {
    let input = b"*1\r\n+PING\r\n";
    let parser = Parser::new(input).unwrap();
    assert_eq!(parser.frames, vec![Frame::Array(vec![simple("PING")])]);
    assert!(parser.remains.is_empty());
    let replies = parser.process();
    assert_eq!(replies, vec![simple("PONG")]);
    assert_eq!(replies[0].encode(), b"+PONG\r\n".to_vec());
    assert_eq!(respond(input), Ok(b"+PONG\r\n".to_vec()));
}

#[test]
fn bulk_ping_gets_no_reply() {
    let input = b"*1\r\n$4\r\nPING\r\n";
    let parser = Parser::new(input).unwrap();
    assert_eq!(parser.frames, vec![Frame::Array(vec![Frame::Bulk(b"PING".to_vec())])]);
    assert!(parser.process().is_empty());
    assert_eq!(respond(input), Ok(vec![]));
}

#[test]
fn zero_byte_read_finishes() {
    assert_eq!(step(ReadOutcome::Read(vec![])), Action::Finish);
}

#[test]
fn bad_tag_rejects_only_that_input() {
    assert_eq!(
        step(ReadOutcome::Read(b"!PING\r\n".to_vec())),
        Action::Reject(Error::UnknownType { tag: b'!', offset: 0 })
    );
    assert_eq!(
        step(ReadOutcome::Read(b"*1\r\n+ping\r\n".to_vec())),
        Action::Send(b"+PONG\r\n".to_vec())
    );
}

#[test]
fn would_block_retries_and_failure_fails() {
    assert_eq!(step(ReadOutcome::WouldBlock), Action::Retry);
    assert_eq!(step(ReadOutcome::Failed), Action::Fail);
}

#[test]
fn simple_round_trip() {
    for text in ["hello", "", "a\rb", "x\ny", "héllo wörld", "PING"] {
        let bytes = simple(text).encode();
        let (rest, f) = parse_frame(&bytes).unwrap();
        assert_eq!(f, simple(text));
        assert!(rest.is_empty());
    }
}

#[test]
fn pings_in_any_case_among_other_children() {
    let arr = Frame::Array(vec![
        simple("ping"),
        Frame::Integer(1),
        simple("PiNg"),
        simple("pong"),
        Frame::Bulk(b"PING".to_vec()),
        simple("PINGS"),
        Frame::Null,
        simple("PING"),
    ]);
    let replies = reply_frames(&vec![arr]);
    assert_eq!(replies, vec![simple("PONG"), simple("PONG"), simple("PONG")]);
}

#[test]
fn only_arrays_are_answered() {
    let frames = vec![simple("PING"), Frame::Array(vec![simple("ping")]), Frame::Integer(3)];
    assert_eq!(reply_frames(&frames), vec![simple("PONG")]);
    assert_eq!(respond(b"+PING\r\n"), Ok(vec![]));
}

#[test]
fn several_top_level_frames() {
    let input = b"*2\r\n+PING\r\n+ping\r\n:5\r\n*1\r\n+Ping\r\n";
    assert_eq!(respond(input), Ok(b"+PONG\r\n+PONG\r\n+PONG\r\n".to_vec()));
    assert_eq!(Parser::new(input).unwrap().frames.len(), 3);
}

#[test]
fn empty_input_has_no_frames() {
    let parser = Parser::new(b"").unwrap();
    assert!(parser.frames.is_empty());
}

#[test]
fn array_consumes_declared_count() {
    let (rest, f) = parse_frame(b"*2\r\n:1\r\n:2\r\n:3\r\n").unwrap();
    assert_eq!(f, Frame::Array(vec![Frame::Integer(1), Frame::Integer(2)]));
    assert_eq!(rest, b":3\r\n");
}

#[test]
fn nested_array() {
    let (rest, f) = parse_frame(b"*2\r\n*1\r\n+a\r\n$0\r\n\r\n").unwrap();
    assert_eq!(f, Frame::Array(vec![Frame::Array(vec![simple("a")]), Frame::Bulk(vec![])]));
    assert!(rest.is_empty());
}

#[test]
fn bulk_consumes_declared_length() {
    let (rest, f) = parse_frame(b"$5\r\na\r\nbc\r\n+x\r\n").unwrap();
    assert_eq!(f, Frame::Bulk(b"a\r\nbc".to_vec()));
    assert_eq!(rest, b"+x\r\n");
}

#[test]
fn null_bulk_and_null_array() {
    let (rest, f) = parse_frame(b"$-1\r\n+x\r\n").unwrap();
    assert_eq!(f, Frame::Null);
    assert_eq!(rest, b"+x\r\n");
    let (rest, f) = parse_frame(b"*-1\r\n").unwrap();
    assert_eq!(f, Frame::Null);
    assert!(rest.is_empty());
}

#[test]
fn error_and_integer_frames() {
    let (_, f) = parse_frame(b"-ERR bad\r\n").unwrap();
    assert_eq!(f, Frame::Error("ERR bad".to_string()));
    let (_, f) = parse_frame(b":18446744073709551615\r\n").unwrap();
    assert_eq!(f, Frame::Integer(u64::MAX));
    let (_, f) = parse_frame(b":007\r\n").unwrap();
    assert_eq!(f, Frame::Integer(7));
}

#[test]
fn integer_errors() {
    assert_eq!(parse_frame(b":18446744073709551616\r\n"), Err(Error::MalformedInteger { offset: 1 }));
    assert_eq!(parse_frame(b":12a\r\n"), Err(Error::MalformedInteger { offset: 1 }));
    assert_eq!(parse_frame(b":-3\r\n"), Err(Error::MalformedInteger { offset: 1 }));
    assert_eq!(parse_frame(b":\r\n"), Err(Error::MalformedInteger { offset: 1 }));
}

#[test]
fn length_errors() {
    assert_eq!(parse_frame(b"$x\r\nab\r\n"), Err(Error::MalformedLength { offset: 1 }));
    assert_eq!(parse_frame(b"*-2\r\n"), Err(Error::MalformedLength { offset: 1 }));
}

#[test]
fn truncated_input() {
    assert_eq!(parse_frame(b""), Err(Error::Truncated { offset: 0 }));
    assert_eq!(parse_frame(b"+PING"), Err(Error::Truncated { offset: 1 }));
    assert_eq!(parse_frame(b"$5\r\nab\r\n"), Err(Error::Truncated { offset: 4 }));
    assert_eq!(parse_frame(b"*2\r\n+a\r\n"), Err(Error::Truncated { offset: 8 }));
}

#[test]
fn missing_bulk_terminator() {
    assert_eq!(parse_frame(b"$2\r\nabXY"), Err(Error::MissingTerminator { offset: 6 }));
}

#[test]
fn invalid_text() {
    assert_eq!(parse_frame(b"+\xff\r\n"), Err(Error::InvalidText { offset: 1 }));
}

#[test]
fn unknown_type_inside_array() {
    assert_eq!(parse_frame(b"*1\r\n?\r\n"), Err(Error::UnknownType { tag: b'?', offset: 4 }));
}

#[test]
fn nesting_limit() {
    let mut deep = Vec::new();
    for _ in 0..MAX_DEPTH {
        deep.extend_from_slice(b"*1\r\n");
    }
    deep.extend_from_slice(b":1\r\n");
    assert!(parse_frame(&deep).is_ok());
    let mut deeper = b"*1\r\n".to_vec();
    deeper.extend_from_slice(&deep);
    assert_eq!(parse_frame(&deeper), Err(Error::TooDeep { offset: 4 * MAX_DEPTH }));
}

#[test]
fn encode_every_variant() {
    assert_eq!(Frame::Error("no".to_string()).encode(), b"-no\r\n".to_vec());
    assert_eq!(Frame::Integer(0).encode(), b":0\r\n".to_vec());
    assert_eq!(Frame::Integer(1234).encode(), b":1234\r\n".to_vec());
    assert_eq!(Frame::Bulk(b"ab".to_vec()).encode(), b"$2\r\nab\r\n".to_vec());
    assert_eq!(Frame::Null.encode(), b"$-1\r\n".to_vec());
    let arr = Frame::Array(vec![simple("a"), Frame::Integer(12), Frame::Array(vec![])]);
    assert_eq!(arr.encode(), b"*3\r\n+a\r\n:12\r\n*0\r\n".to_vec());
    let bytes = arr.encode();
    let (rest, back) = parse_frame(&bytes).unwrap();
    assert_eq!(back, arr);
    assert!(rest.is_empty());
    assert_eq!(encode_all(&vec![simple("x"), Frame::Null]), b"+x\r\n$-1\r\n".to_vec());
}

#[test]
fn buffer_round_trip() {
    let frames = vec![
        simple("PING"),
        Frame::Error("ERR x".to_string()),
        Frame::Integer(42),
        Frame::Bulk(b"a\r\nb".to_vec()),
        Frame::Null,
        Frame::Array(vec![Frame::Array(vec![simple("in")]), Frame::Integer(0)]),
    ];
    let bytes = encode_all(&frames);
    let parser = Parser::new(&bytes).unwrap();
    assert_eq!(parser.frames, frames);
}
