use proctor::grammar::ParseError;
use proctor::session::{Action, Session, RESPONSE_200, TIMEOUT_SECONDS};

const PLAN: [Action; 13] = [
    Action::LimitClientReads,
    Action::LimitClientWrites,
    Action::ReadRequest,
    Action::CloneClient,
    Action::ConnectServer,
    Action::LimitServerReads,
    Action::LimitServerWrites,
    Action::CloneServer,
    Action::GreetClient,
    Action::StartRelays,
    Action::JoinUplink,
    Action::JoinDownlink,
    Action::Finish,
];

fn servers() -> Vec<String> {
    vec!["api.giphy.com".to_string()]
}

fn request() -> Result<(String, i32), ParseError> {
    Ok(("api.giphy.com".to_string(), 443))
}

/// A session of which the first `done` actions have succeeded.
fn session_after(servers: &Vec<String>, done: usize) -> Session<'_> {
    let mut session = Session::new(servers);
    for action in &PLAN[..done] {
        assert_eq!(session.action(), *action);
        session = match action {
            Action::ReadRequest => session.receive(request()).ok().unwrap(),
            _ => session.report(Ok(())).ok().unwrap(),
        };
    }
    session
}

#[test]
fn a_session_follows_the_plan() {
    let servers = servers();
    for done in 0..PLAN.len() {
        assert_eq!(session_after(&servers, done).action(), PLAN[done]);
    }
}

#[test]
fn the_address_is_known_behind_the_request() {
    let servers = servers();
    for done in 0..PLAN.len() {
        let address = session_after(&servers, done).address();
        if done > 2 {
            assert_eq!(address, Some("api.giphy.com:443".to_string()));
        } else {
            assert_eq!(address, None);
        }
    }
}

#[test]
fn a_failure_ends_the_session_with_its_text() {
    let expected = [
        (0, "failed to set read timeout, cause"),
        (1, "failed to set write timeout, cause"),
        (3, "failed to clone client stream, cause"),
        (4, "failed to connect to remote host, cause"),
        (5, "failed to set read timeout, cause"),
        (6, "failed to set write timeout, cause"),
        (7, "failed to clone server stream, cause"),
        (8, "failed to send OK to client, cause"),
        (10, "Failed to join on uplink thread"),
        (11, "Failed to join on downlink thread"),
    ];
    let servers = servers();
    for (done, text) in expected {
        let result = session_after(&servers, done).report(Err("cause".to_string()));
        assert_eq!(result.err().unwrap(), text);
    }
}

#[test]
fn a_request_that_cannot_be_read_ends_the_session() {
    let expected = [
        (ParseError::Stream("timed out".to_string()), "failed to begin, timed out"),
        (ParseError::ExpectedConnect, "failed to begin, Expected CONNECT method"),
        (
            ParseError::EmptyPort,
            "failed to begin, failed to parse port number, cannot parse integer from empty string",
        ),
        (ParseError::ExpectedProtocol, "failed to begin, Expected HTTP/1.1"),
        (ParseError::ExpectedNewline, "failed to begin, Expected newline"),
    ];
    let servers = servers();
    for (error, text) in expected {
        let result = session_after(&servers, 2).receive(Err(error));
        assert_eq!(result.err().unwrap(), text);
    }
    assert_eq!(Action::ReadRequest.failure("cause"), "failed to begin, cause");
}

#[test]
fn a_request_that_is_not_allowed_ends_the_session() {
    let servers = servers();
    let result = session_after(&servers, 2).receive(Ok(("example.org".to_string(), 443)));
    assert_eq!(result.err().unwrap(), "example.org is not an allowed hostname");
    let result = session_after(&servers, 2).receive(Ok(("api.giphy.com".to_string(), 80)));
    assert_eq!(result.err().unwrap(), "Port must be 443");
}

#[test]
fn the_greeting_and_the_timeout_are_fixed() {
    assert_eq!(RESPONSE_200.as_bytes(), b"HTTP/1.1 200 OK\r\n\r\n");
    assert_eq!(TIMEOUT_SECONDS, 5);
}
