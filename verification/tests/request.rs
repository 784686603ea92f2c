use std::collections::VecDeque;

use itertools::Itertools;
use proctor::grammar::{Class, Field, ParseError};
use proctor::parser::{parse_http_connect, Next, Parsed, Parser, Progress};
use proctor::stream::Item;
use proctor::text::{same_bytes, to_text};

const PLAIN: &str = "CONNECT api.giphy.com:443 HTTP/1.1\r\n\
                     Host: api.giphy.com:443\r\n\
                     User-Agent: curl/7.58.0\r\n\
                     \r\n";

fn items(bytes: &[u8]) -> Vec<Item> {
    bytes.iter().map(|b| Item::Byte(*b)).collect()
}

fn parse(text: &str) -> Parsed {
    parse_http_connect(&items(text.as_bytes()))
}

fn failed(text: &str) -> Item {
    Item::Failed(text.to_string())
}

/// The answer, and how many items were read for it.
fn answer(parsed: Parsed) -> (Result<(String, i32), ParseError>, usize) {
    match parsed.progress {
        Progress::Answered { answer, read } => (answer, read),
        Progress::Pending => panic!("the request is pending"),
        Progress::Stalled { read } => panic!("the request is stalled at {}", read),
    }
}

/// What the user is told, and how many items were read.
fn error(parsed: Parsed) -> (String, usize) {
    match answer(parsed) {
        (Err(error), read) => (error.message(), read),
        (Ok(found), _) => panic!("accepted {:?}", found),
    }
}

fn shown(fields: &[Field]) -> Vec<String> {
    let text = |bytes: &[u8]| String::from_utf8_lossy(bytes).into_owned();
    fields
        .iter()
        .map(|field| match field {
            Field::Method(bytes) => format!("method {}", text(bytes)),
            Field::Hostname(bytes) => format!("hostname {}", text(bytes)),
            Field::Port(port) => format!("port {}", port),
            Field::Protocol(bytes) => format!("protocol {}", text(bytes)),
            Field::Key(bytes) => format!("key {}", text(bytes)),
            Field::Value(bytes) => format!("value {}", text(bytes)),
            Field::End => "end".to_string(),
        })
        .collect()
}

#[test]
fn a_request_is_read_to_its_end_and_no_further() {
    let tls = "\x16\x03\x01\r\n";
    let parsed = parse(&format!("{}{}", PLAIN, tls));
    assert_eq!(
        shown(&parsed.fields),
        vec![
            "method CONNECT",
            "hostname api.giphy.com",
            "port 443",
            "protocol HTTP/1.1",
            "key Host",
            "value api.giphy.com:443",
            "key User-Agent",
            "value curl/7.58.0",
            "end",
        ]
    );
    let (found, read) = answer(parsed);
    assert_eq!(found.unwrap(), ("api.giphy.com".to_string(), 443));
    assert_eq!(read, PLAIN.len());
}

#[test]
fn every_shorter_prefix_is_pending() {
    let all = items(PLAIN.as_bytes());
    for k in 0..all.len() {
        assert!(matches!(parse_http_connect(&all[..k]).progress, Progress::Pending));
    }
}

#[test]
fn parts_are_kept_as_more_is_read() {
    let all = items(PLAIN.as_bytes());
    let whole = shown(&parse(PLAIN).fields);
    let mut before = 0;
    for k in 0..=all.len() {
        let parts = shown(&parse_http_connect(&all[..k]).fields);
        assert!(before <= parts.len());
        assert_eq!(parts[..], whole[..parts.len()]);
        before = parts.len();
    }
}

#[test]
fn a_parser_answers_with_the_last_byte() {
    let mut parser = Parser::new();
    let mut fields = Vec::new();
    for (k, b) in PLAIN.bytes().enumerate() {
        let reading = parser.step(Item::Byte(b));
        fields.extend(reading.fields);
        match reading.next {
            Next::Read(next) => parser = next,
            Next::Answer(found) => {
                assert_eq!(k + 1, PLAIN.len());
                assert_eq!(found.unwrap(), ("api.giphy.com".to_string(), 443));
                assert_eq!(shown(&fields), shown(&parse(PLAIN).fields));
                return;
            }
            Next::Stalled => panic!("stalled at {}", k),
        }
    }
    panic!("no answer");
}

#[test]
fn a_request_needs_no_headers() {
    let (found, read) = answer(parse("CONNECT a:1 HTTP/1.1\r\n\r\nrest"));
    assert_eq!(found.unwrap(), ("a".to_string(), 1));
    assert_eq!(read, 24);
}

#[test]
fn spaces_colons_and_line_ends_may_repeat_or_lack() {
    let (found, _) = answer(parse("CONNECT   a::0443HTTP/1.1\r\r\n\nk::  v\r\r\n\n\r\n"));
    assert_eq!(found.unwrap(), ("a".to_string(), 443));
    let (found, _) = answer(parse("CONNECTa:443 HTTP/1.1\rKey: v\r\n\r\n"));
    assert_eq!(found.unwrap(), ("a".to_string(), 443));
    // Carriage returns in a row belong to one line end.
    let parsed = parse("CONNECT a:443 HTTP/1.1\r\r\n");
    assert!(matches!(parsed.progress, Progress::Pending));
}

#[test]
fn the_hostname_may_be_empty_and_may_hold_spaces() {
    let (found, _) = answer(parse("CONNECT :80 HTTP/1.1\r\n\r\n"));
    assert_eq!(found.unwrap(), (String::new(), 80));
    let (found, _) = answer(parse("CONNECT a b :80 HTTP/1.1\r\n\r\n"));
    assert_eq!(found.unwrap(), ("a b ".to_string(), 80));
}

#[test]
fn any_number_of_spaces_stands_around_the_target_and_before_a_value() {
    for spaces in 0..4 {
        for behind in 0..4 {
            let request = format!(
                "CONNECT{}example.org:443{}HTTP/1.1\r\nA:{}b  c \r\nB:{}\r\n\r\n",
                " ".repeat(spaces),
                " ".repeat(behind),
                " ".repeat(spaces),
                " ".repeat(behind),
            );
            let parsed = parse(&format!("{}more", request));
            assert_eq!(
                shown(&parsed.fields)[1..],
                [
                    "hostname example.org",
                    "port 443",
                    "protocol HTTP/1.1",
                    "key A",
                    "value b  c ",
                    "key B",
                    "value ",
                    "end",
                ]
            );
            let (found, read) = answer(parsed);
            assert_eq!(found.unwrap(), ("example.org".to_string(), 443));
            assert_eq!(read, request.len());
        }
    }
}

#[test]
fn a_value_behind_no_space_loses_the_colons_it_begins_with() {
    let parsed = parse("CONNECT a:443 HTTP/1.1\r\nA:::b\r\nB: ::b\r\n\r\n");
    assert_eq!(shown(&parsed.fields)[4..8], ["key A", "value b", "key B", "value ::b"]);
}

#[test]
fn bytes_that_are_not_utf8_leave_a_replacement_character() {
    for bytes in [&[0xffu8][..], &[b'a', 0xc3], &[0xe2, 0x82, b'b'], &[0x80, 0x80]] {
        assert!(to_text(bytes).contains('\u{FFFD}'));
    }
    assert!(!to_text("\u{e9}".as_bytes()).contains('\u{FFFD}'));
}

#[test]
fn an_accepted_request_ends_in_a_line_feed_and_an_empty_line() {
    for request in [
        "CONNECT a:443 HTTP/1.1\r\n\r\n",
        "CONNECT   a b::443HTTP/1.1\r\r\n\n\r\n",
        "CONNECT a:443 HTTP/1.1\r\n\nA: b\r\r\n\n\r\n",
    ] {
        let mut stream = items(request.as_bytes());
        stream.push(Item::End);
        let (found, read) = answer(parse_http_connect(&stream));
        let (host, _) = found.unwrap();
        assert!(!host.contains(':') && !host.starts_with(' '));
        assert_eq!(read, request.len());
        assert_eq!(&request.as_bytes()[read - 3..read], b"\n\r\n");
    }
}

#[test]
fn a_hostname_that_is_not_utf8_is_read_with_replacements() {
    let mut bytes = b"CONNECT a".to_vec();
    bytes.push(0xff);
    bytes.extend_from_slice(b"b:443 HTTP/1.1\r\n\r\n");
    let (found, _) = answer(parse_http_connect(&items(&bytes)));
    assert_eq!(found.unwrap(), ("a\u{FFFD}b".to_string(), 443));
    assert_eq!(to_text(&[0xff]), "\u{FFFD}");
    assert_eq!(to_text("é".as_bytes()), "é");
}

#[test]
fn another_method_is_refused_behind_as_many_bytes() {
    let parsed = parse("GET http://a/ HTTP/1.1\r\n\r\n");
    assert_eq!(shown(&parsed.fields), vec!["method GET htt"]);
    assert_eq!(error(parsed), ("Expected CONNECT method".to_string(), 7));
    assert_eq!(error(parse("connect a:443 HTTP/1.1\r\n\r\n")).1, 7);
}

#[test]
fn a_stream_that_ends_within_the_method_is_refused() {
    let mut input = items(b"CONN");
    input.push(Item::End);
    let parsed = parse_http_connect(&input);
    assert_eq!(shown(&parsed.fields), vec!["method CONN"]);
    assert_eq!(error(parsed), ("Expected CONNECT method".to_string(), 5));
}

#[test]
fn a_stream_that_fails_within_the_method_gives_its_error() {
    let mut input = items(b"CON");
    input.push(failed("timed out"));
    input.push(Item::Byte(b'N'));
    let parsed = parse_http_connect(&input);
    assert!(parsed.fields.is_empty());
    assert_eq!(error(parsed), ("timed out".to_string(), 4));
}

#[test]
fn a_port_without_digits_is_refused() {
    let reason = "".parse::<i32>().unwrap_err();
    let text = format!("failed to parse port number, {}", reason);
    assert_eq!(error(parse("CONNECT a: HTTP/1.1\r\n\r\n")), (text.clone(), 11));
    assert_eq!(error(parse("CONNECT a:-1 HTTP/1.1\r\n\r\n")), (text.clone(), 11));
    assert_eq!(text, "failed to parse port number, cannot parse integer from empty string");
}

#[test]
fn a_port_that_is_too_large_is_refused() {
    let reason = "2147483648".parse::<i32>().unwrap_err();
    let text = format!("failed to parse port number, {}", reason);
    assert_eq!(error(parse("CONNECT a:2147483648 HTTP/1.1\r\n")), (text.clone(), 21));
    assert_eq!(error(parse("CONNECT a:99999999999999999999 HTTP/1.1\r\n")).0, text);
    let (found, _) = answer(parse("CONNECT a:2147483647 HTTP/1.1\r\n\r\n"));
    assert_eq!(found.unwrap().1, 2147483647);
}

#[test]
fn leading_zeros_of_a_port_do_not_matter() {
    let (found, _) = answer(parse("CONNECT a:00000000000000000443 HTTP/1.1\r\n\r\n"));
    assert_eq!(found.unwrap().1, 443);
}

#[test]
fn another_protocol_is_refused() {
    let parsed = parse("CONNECT a:443 HTTP/1.0\r\n\r\n");
    assert_eq!(
        shown(&parsed.fields),
        vec!["method CONNECT", "hostname a", "port 443", "protocol HTTP/1.0"]
    );
    assert_eq!(error(parsed), ("Expected HTTP/1.1".to_string(), 23));
    assert_eq!(error(parse("CONNECT a:443 HTTP/1.1 \r\n\r\n")).0, "Expected HTTP/1.1");
}

#[test]
fn the_empty_line_owes_a_line_feed() {
    let parsed = parse("CONNECT a:443 HTTP/1.1\r\nk: v\r\n\rx");
    assert_eq!(error(parsed), ("Expected newline".to_string(), 32));
    let mut input = items(b"CONNECT a:443 HTTP/1.1\r\n\r");
    input.push(Item::End);
    assert_eq!(error(parse_http_connect(&input)).0, "Expected newline");
}

#[test]
fn a_stream_that_ends_before_the_port_has_none() {
    let mut input = items(b"CONNECT a");
    for _ in 0..3 {
        input.push(Item::End);
    }
    // The hostname, the colons and the port each take one end of the stream.
    let parsed = parse_http_connect(&input);
    assert_eq!(shown(&parsed.fields), vec!["method CONNECT", "hostname a"]);
    assert!(matches!(answer(parsed), (Err(ParseError::EmptyPort), 12)));
}

#[test]
fn a_stream_that_fails_before_the_port_has_none() {
    let mut input = items(b"CONNECT a");
    input.push(failed("timed out"));
    assert!(matches!(answer(parse_http_connect(&input)), (Err(ParseError::EmptyPort), 10)));
}

#[test]
fn a_stream_that_fails_behind_the_port_has_no_protocol() {
    let mut input = items(b"CONNECT a:443");
    input.push(failed("timed out"));
    let (found, read) = answer(parse_http_connect(&input));
    assert!(matches!(found, Err(ParseError::ExpectedProtocol)));
    assert_eq!(read, 14);
}

#[test]
fn a_failure_anywhere_in_a_request_keeps_it_from_being_accepted() {
    for k in 0..PLAIN.len() {
        let mut input = items(PLAIN.as_bytes());
        input.insert(k, failed("timed out"));
        match parse_http_connect(&input).progress {
            Progress::Answered { answer, read } => assert!(answer.is_err() && read == k + 1),
            Progress::Stalled { read } => assert_eq!(read, k + 1),
            Progress::Pending => panic!("pending behind a failure at {}", k),
        }
    }
}

#[test]
fn a_stream_that_fails_among_the_headers_stalls_for_good() {
    let mut input = items(b"CONNECT a:443 HTTP/1.1\r\nHo");
    input.push(failed("timed out"));
    let n = input.len();
    let parsed = parse_http_connect(&input);
    assert_eq!(shown(&parsed.fields)[4..], ["key Ho".to_string(), "value ".to_string()]);
    assert!(matches!(parsed.progress, Progress::Stalled { read } if read == n));
    input.extend(items(b"st: a\r\n\r\n"));
    assert!(matches!(parse_http_connect(&input).progress, Progress::Stalled { read } if read == n));
}

#[test]
fn the_end_of_the_stream_among_the_headers_is_read_past() {
    let mut input = items(b"CONNECT a:443 HTTP/1.1\r\n");
    for _ in 0..20 {
        input.push(Item::End);
    }
    assert!(matches!(parse_http_connect(&input).progress, Progress::Pending));
}

#[test]
fn classes_take_their_bytes() {
    for b in 0..=255u8 {
        assert!(Class::Any.accepts(b));
        assert_eq!(Class::Space.accepts(b), b == b' ');
        assert_eq!(Class::Colon.accepts(b), b == b':');
        assert_eq!(Class::NotColon.accepts(b), b != b':');
        assert_eq!(Class::Digit.accepts(b), (b as char).is_digit(10));
        assert_eq!(Class::Cr.accepts(b), b == b'\r');
        assert_eq!(Class::NotCr.accepts(b), b != b'\r');
        assert_eq!(Class::Lf.accepts(b), b == b'\n');
    }
}

#[test]
fn bytes_are_compared_whole() {
    assert!(same_bytes(b"abc", b"abc"));
    assert!(!same_bytes(b"abc", b"abd"));
    assert!(!same_bytes(b"abc", b"ab"));
    assert!(same_bytes(b"", b""));
}

/// A stream that yields what it was given, and then ends for good.
struct Script(VecDeque<Option<Result<u8, String>>>);

impl Iterator for Script {
    type Item = Result<u8, String>;

    fn next(&mut self) -> Option<Result<u8, String>> {
        self.0.pop_front().flatten()
    }
}

/// The hostname and the digits of the port, in runs of `peeking_take_while`.
fn runs(input: &[Item]) -> (Vec<u8>, Vec<u8>) {
    let script = input.iter().map(|item| match item {
        Item::Byte(b) => Some(Ok(*b)),
        Item::End => None,
        Item::Failed(text) => Some(Err(text.clone())),
    });
    let mut stream = Script(script.collect()).skip(7).peekable();
    let mut run = |class: Class| -> Vec<u8> {
        stream
            .peeking_take_while(|x| matches!(x, Ok(b) if class.accepts(*b)))
            .map(|x| x.unwrap())
            .collect()
    };
    run(Class::Space);
    let hostname = run(Class::NotColon);
    run(Class::Colon);
    (hostname, run(Class::Digit))
}

#[test]
fn runs_end_where_peeking_take_while_ends_them() {
    let tail: Vec<Vec<Item>> = vec![
        items(b" host:8080 HTTP/1.1\r\n"),
        items(b"   ho st:::99x"),
        items(b"host 443 HTTP/1.1\r\n:7 "),
        vec![Item::Byte(b' '), Item::End, Item::Byte(b' '), Item::Byte(b':'), Item::Byte(b'5'), Item::End],
        vec![Item::Byte(b'h'), Item::End, Item::Byte(b'6'), Item::Byte(b'1'), Item::End, Item::End],
        vec![Item::Byte(b'h'), Item::Byte(b':'), Item::End, Item::Byte(b'6'), failed("x")],
        vec![Item::Byte(b'h'), failed("x"), Item::Byte(b':'), Item::Byte(b'6')],
    ];
    for rest in tail {
        let mut input = items(b"CONNECT");
        input.extend(rest);
        let (hostname, digits) = runs(&input);
        let parsed = parse_http_connect(&input);
        match &parsed.fields[1] {
            Field::Hostname(found) => assert_eq!(found, &hostname),
            other => panic!("unexpected field {:?}", other),
        }
        match parsed.fields.get(2) {
            Some(Field::Port(port)) => {
                assert_eq!(Ok(*port), String::from_utf8(digits).unwrap().parse::<i32>())
            }
            Some(other) => panic!("unexpected field {:?}", other),
            None => assert!(digits.is_empty()),
        }
    }
}
