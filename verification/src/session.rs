//! What is done for one client, step by step.
//!
//! A [`Session`] names the next action, the caller performs it and reports how it went, and the
//! session goes on to the next one or ends with a text that says what failed.

use vstd::prelude::*;

use crate::access::{authorize, is_allowed, is_server, Refusal, Target, SSL_PORT};
use crate::grammar::ParseError;
use crate::text::{decimal, with_reason};

verus! {

/// How long a read or a write on a stream may take, in seconds.
pub const TIMEOUT_SECONDS: u64 = 5;

/// What the client is sent once the tunnel stands.
pub const RESPONSE_200: &'static str = "HTTP/1.1 200 OK\r\n\r\n";

/// One thing that is done for a client.
#[derive(Clone, Copy, Debug, PartialEq, Eq, Structural)]
pub enum Action {
    /// Limit the time of reads from the client to [`TIMEOUT_SECONDS`].
    LimitClientReads,
    /// Limit the time of writes to the client to [`TIMEOUT_SECONDS`].
    LimitClientWrites,
    /// Read the request from the client.
    ReadRequest,
    /// Make a second handle of the client's stream.
    CloneClient,
    /// Connect to the target.
    ConnectServer,
    /// Limit the time of reads from the server to [`TIMEOUT_SECONDS`].
    LimitServerReads,
    /// Limit the time of writes to the server to [`TIMEOUT_SECONDS`].
    LimitServerWrites,
    /// Make a second handle of the server's stream.
    CloneServer,
    /// Send [`RESPONSE_200`] to the client.
    GreetClient,
    /// Start to relay in both directions.
    StartRelays,
    /// Wait until nothing more is relayed from the server to the client.
    JoinUplink,
    /// Wait until nothing more is relayed from the client to the server.
    JoinDownlink,
    /// Nothing is left to do for this client.
    Finish,
}

/// All that is done for a client, in this order.
pub open spec fn plan() -> Seq<Action> {
    seq![
        Action::LimitClientReads,
        Action::LimitClientWrites,
        Action::ReadRequest,
        Action::CloneClient,
        Action::ConnectServer,
        Action::LimitServerReads,
        Action::LimitServerWrites,
        Action::CloneServer,
        Action::GreetClient,
        Action::StartRelays,
        Action::JoinUplink,
        Action::JoinDownlink,
        Action::Finish,
    ]
}

impl Action {
    /// What the user is told first where the action fails. There is nothing to tell of what
    /// cannot fail.
    pub open spec fn complaint(self) -> Option<Seq<char>> {
        match self {
            Action::LimitClientReads
            | Action::LimitServerReads => Some("failed to set read timeout"@),
            Action::LimitClientWrites
            | Action::LimitServerWrites => Some("failed to set write timeout"@),
            Action::ReadRequest => Some("failed to begin"@),
            Action::CloneClient => Some("failed to clone client stream"@),
            Action::ConnectServer => Some("failed to connect to remote host"@),
            Action::CloneServer => Some("failed to clone server stream"@),
            Action::GreetClient => Some("failed to send OK to client"@),
            Action::JoinUplink => Some("Failed to join on uplink thread"@),
            Action::JoinDownlink => Some("Failed to join on downlink thread"@),
            Action::StartRelays | Action::Finish => None,
        }
    }

    /// What the user is told where the action fails because of `cause`. Why a thread could not
    /// be joined is not told.
    pub open spec fn failure_text(self, cause: Seq<char>) -> Seq<char> {
        match self {
            Action::JoinUplink | Action::JoinDownlink => self.complaint()->0,
            _ => self.complaint()->0 + ", "@ + cause,
        }
    }

    /// What the user is told where the action fails because of `cause`.
    pub fn failure(self, cause: &str) -> (text: String)
        requires
            self.complaint() is Some,
        ensures
            text@ == self.failure_text(cause@),
            match self {
                Action::LimitClientReads | Action::LimitServerReads => text@
                    == "failed to set read timeout"@ + ", "@ + cause@,
                Action::LimitClientWrites | Action::LimitServerWrites => text@
                    == "failed to set write timeout"@ + ", "@ + cause@,
                Action::ReadRequest => text@ == "failed to begin"@ + ", "@ + cause@,
                Action::CloneClient => text@ == "failed to clone client stream"@ + ", "@ + cause@,
                Action::ConnectServer => text@ == "failed to connect to remote host"@ + ", "@
                    + cause@,
                Action::CloneServer => text@ == "failed to clone server stream"@ + ", "@ + cause@,
                Action::GreetClient => text@ == "failed to send OK to client"@ + ", "@ + cause@,
                Action::JoinUplink => text@ == "Failed to join on uplink thread"@,
                Action::JoinDownlink => text@ == "Failed to join on downlink thread"@,
                Action::StartRelays | Action::Finish => false,
            },
    {
        match self {
            Action::LimitClientReads
            | Action::LimitServerReads => with_reason("failed to set read timeout", cause),
            Action::LimitClientWrites
            | Action::LimitServerWrites => with_reason("failed to set write timeout", cause),
            Action::ReadRequest => with_reason("failed to begin", cause),
            Action::CloneClient => with_reason("failed to clone client stream", cause),
            Action::ConnectServer => with_reason("failed to connect to remote host", cause),
            Action::CloneServer => with_reason("failed to clone server stream", cause),
            Action::GreetClient => with_reason("failed to send OK to client", cause),
            Action::JoinUplink => "Failed to join on uplink thread".to_owned(),
            Action::JoinDownlink => "Failed to join on downlink thread".to_owned(),
            Action::StartRelays | Action::Finish => String::new(),
        }
    }
}

/// What is being done for a client.
pub struct Session<'a> {
    servers: &'a Vec<String>,
    done: usize,
    target: Option<Target>,
}

impl<'a> Session<'a> {
    /// The servers that may be connected to.
    pub closed spec fn servers(self) -> Seq<String> {
        self.servers@
    }

    /// How many actions of the plan have succeeded.
    pub closed spec fn done(self) -> nat {
        self.done as nat
    }

    /// The server that the request named.
    pub closed spec fn target(self) -> Option<Target> {
        self.target
    }

    /// The actions that have succeeded.
    pub open spec fn completed(self) -> Seq<Action> {
        plan().take(self.done() as int)
    }

    /// The action that is to be performed next.
    pub open spec fn current(self) -> Action {
        plan()[self.done() as int]
    }

    /// What holds of every session: it is within the plan, and behind the request it leads to
    /// a server that is allowed.
    pub open spec fn wf(self) -> bool {
        &&& self.done() < plan().len()
        &&& self.completed().contains(Action::ReadRequest) <==> self.target() is Some
        &&& self.target() matches Some(target) ==> is_allowed(
            self.servers(),
            target.hostname@,
            target.port,
        )
    }

    /// Nothing is done yet for a client who may be connected to `servers`.
    pub fn new(servers: &'a Vec<String>) -> (session: Session<'a>)
        ensures
            session.wf(),
            session.servers() == servers@,
            session.done() == 0,
            session.target() is None,
    {
        Session { servers, done: 0, target: None }
    }

    /// The action that is to be performed next.
    pub fn action(&self) -> (action: Action)
        requires
            self.wf(),
        ensures
            action == self.current(),
            self.done() < 13,
            action == seq![
                Action::LimitClientReads,
                Action::LimitClientWrites,
                Action::ReadRequest,
                Action::CloneClient,
                Action::ConnectServer,
                Action::LimitServerReads,
                Action::LimitServerWrites,
                Action::CloneServer,
                Action::GreetClient,
                Action::StartRelays,
                Action::JoinUplink,
                Action::JoinDownlink,
                Action::Finish,
            ][self.done() as int],
    {
        match self.done {
            0 => Action::LimitClientReads,
            1 => Action::LimitClientWrites,
            2 => Action::ReadRequest,
            3 => Action::CloneClient,
            4 => Action::ConnectServer,
            5 => Action::LimitServerReads,
            6 => Action::LimitServerWrites,
            7 => Action::CloneServer,
            8 => Action::GreetClient,
            9 => Action::StartRelays,
            10 => Action::JoinUplink,
            11 => Action::JoinDownlink,
            _ => Action::Finish,
        }
    }

    /// The address of the server that the request named.
    pub fn address(&self) -> (address: Option<String>)
        ensures
            match self.target() {
                Some(target) => address matches Some(text) && text@ == target.address_text()
                    && text@ == target.hostname@ + seq![':'] + decimal(target.port as int),
                None => address is None,
            },
    {
        match &self.target {
            Some(target) => Some(target.address()),
            None => None,
        }
    }

    /// Goes on behind an action that is not the request.
    pub fn report(self, outcome: Result<(), String>) -> (result: Result<Session<'a>, String>)
        requires
            self.wf(),
            self.current() != Action::ReadRequest,
            self.current() != Action::Finish,
            outcome is Err ==> self.current().complaint() is Some,
        ensures
            match (outcome, result) {
                (Ok(_), Ok(next)) => {
                    &&& next.wf()
                    &&& next.servers() == self.servers()
                    &&& next.done() == self.done() + 1
                    &&& next.target() == self.target()
                },
                (Err(cause), Err(text)) => text@ == self.current().failure_text(cause@),
                _ => false,
            },
    {
        match outcome {
            Ok(_) => {
                let next = Session { done: self.done + 1, ..self };
                proof {
                    lemma_request_completed(self);
                    lemma_request_completed(next);
                }
                Ok(next)
            },
            Err(cause) => Err(self.action().failure(cause.as_str())),
        }
    }

    /// Goes on behind the request, if it is one for a server that is allowed.
    pub fn receive(self, answer: Result<(String, i32), ParseError>) -> (result: Result<
        Session<'a>,
        String,
    >)
        requires
            self.wf(),
            self.current() == Action::ReadRequest,
        ensures
            match (answer, result) {
                (Ok((hostname, port)), Ok(next)) => {
                    &&& is_allowed(self.servers(), hostname@, port)
                    &&& next.wf()
                    &&& next.servers() == self.servers()
                    &&& next.done() == self.done() + 1
                    &&& next.target() == Some(Target { hostname, port })
                },
                (Ok((hostname, port)), Err(text)) => {
                    &&& !is_allowed(self.servers(), hostname@, port)
                    &&& text@ == if is_server(self.servers(), hostname@) {
                        Refusal::Port.text()
                    } else {
                        Refusal::Hostname(hostname).text()
                    }
                },
                (Err(error), Err(text)) => text@ == Action::ReadRequest.failure_text(error.text()),
                (Err(error), Ok(next)) => false,
            },
            result is Ok <==> (answer matches Ok((hostname, port)) && port == 443
                && self.servers().map_values(|name: String| name@).contains(hostname@)),
            (answer, result) matches (Ok((hostname, port)), Err(text)) ==> text@
                == if self.servers().map_values(|name: String| name@).contains(hostname@) {
                "Port must be 443"@
            } else {
                hostname@ + " is not an allowed hostname"@
            },
            (answer, result) matches (Err(error), Err(text)) ==> text@ == "failed to begin"@ + ", "@
                + error.text(),
    {
        match answer {
            Err(error) => Err(Action::ReadRequest.failure(error.message().as_str())),
            Ok((hostname, port)) => match authorize(self.servers, hostname, port) {
                Err(refusal) => Err(refusal.message()),
                Ok(target) => {
                    let next = Session { done: self.done + 1, target: Some(target), ..self };
                    proof {
                        lemma_request_completed(self);
                        lemma_request_completed(next);
                    }
                    Ok(next)
                },
            },
        }
    }
}

/// Where in the plan the request stands.
proof fn lemma_request_completed(session: Session)
    requires
        session.done() < plan().len(),
    ensures
        session.completed().contains(Action::ReadRequest) <==> session.done() > 2,
        session.current() == Action::ReadRequest <==> session.done() == 2,
{
    if session.done() > 2 {
        assert(session.completed()[2] == Action::ReadRequest);
    }
}

/// What is done for a client is the same for every client, whatever the servers are and
/// whatever the request names: of these thirteen actions, so many have succeeded, and the one
/// behind them is next.
pub proof fn law_actions_come_in_one_order(session: Session)
    requires
        session.wf(),
    ensures
        ({
            let order = seq![
                Action::LimitClientReads,
                Action::LimitClientWrites,
                Action::ReadRequest,
                Action::CloneClient,
                Action::ConnectServer,
                Action::LimitServerReads,
                Action::LimitServerWrites,
                Action::CloneServer,
                Action::GreetClient,
                Action::StartRelays,
                Action::JoinUplink,
                Action::JoinDownlink,
                Action::Finish,
            ];
            &&& session.done() < order.len()
            &&& session.current() == order[session.done() as int]
            &&& session.completed() == order.take(session.done() as int)
        }),
{
}

/// A session is over only when both directions of the tunnel were opened and have come to
/// their end.
pub proof fn law_finish_comes_last(session: Session)
    requires
        session.wf(),
        session.current() == Action::Finish,
    ensures
        session.completed().len() == 12,
        session.completed().contains(Action::StartRelays),
        session.completed().contains(Action::JoinUplink),
        session.completed().contains(Action::JoinDownlink),
{
    assert(session.completed()[9] == Action::StartRelays);
    assert(session.completed()[10] == Action::JoinUplink);
    assert(session.completed()[11] == Action::JoinDownlink);
}

/// What a failure is called begins with what was tried, and ends in its cause, but for a
/// thread that cannot be joined, of which no cause is told. All actions but two can fail.
pub proof fn law_failure_names_action_and_cause(action: Action, cause: Seq<char>)
    ensures
        action.complaint() is None <==> action == Action::StartRelays || action == Action::Finish,
        match action {
            Action::LimitClientReads | Action::LimitServerReads => action.failure_text(cause)
                == "failed to set read timeout"@ + ", "@ + cause,
            Action::LimitClientWrites | Action::LimitServerWrites => action.failure_text(cause)
                == "failed to set write timeout"@ + ", "@ + cause,
            Action::ReadRequest => action.failure_text(cause) == "failed to begin"@ + ", "@ + cause,
            Action::CloneClient => action.failure_text(cause) == "failed to clone client stream"@
                + ", "@ + cause,
            Action::ConnectServer => action.failure_text(cause)
                == "failed to connect to remote host"@ + ", "@ + cause,
            Action::CloneServer => action.failure_text(cause) == "failed to clone server stream"@
                + ", "@ + cause,
            Action::GreetClient => action.failure_text(cause) == "failed to send OK to client"@
                + ", "@ + cause,
            Action::JoinUplink => action.failure_text(cause)
                == "Failed to join on uplink thread"@,
            Action::JoinDownlink => action.failure_text(cause)
                == "Failed to join on downlink thread"@,
            Action::StartRelays | Action::Finish => true,
        },
{
}

/// What a tunnel leads to is a name on the list and the port for it, whenever there is a
/// target; and there is one as soon as the request was read.
pub proof fn law_target_is_on_the_list(session: Session)
    requires
        session.wf(),
    ensures
        session.target() is Some <==> session.done() > 2,
        session.target() matches Some(target) ==> target.port == 443 && exists|k: int|
            0 <= k < session.servers().len() && (#[trigger] session.servers()[k])@
                == target.hostname@,
{
    lemma_request_completed(session);
}

/// No server is connected to, and no client is greeted, but on a request for a server that is
/// allowed: every other request is denied before.
pub proof fn law_only_allowed_servers(session: Session)
    requires
        session.wf(),
        session.completed().contains(Action::ReadRequest),
    ensures
        session.target() matches Some(target) && is_server(
            session.servers(),
            target.hostname@,
        ) && target.port == SSL_PORT,
{
}

/// Whatever touches the server or promises a tunnel comes behind the request.
pub proof fn law_request_comes_first(session: Session)
    requires
        session.wf(),
        session.current() != Action::LimitClientReads,
        session.current() != Action::LimitClientWrites,
        session.current() != Action::ReadRequest,
    ensures
        session.completed().contains(Action::ReadRequest),
{
    lemma_request_completed(session);
}

/// The client is told that the tunnel stands only when the server is connected and all that
/// comes before has succeeded; and nothing is relayed before the client is told.
pub proof fn law_greeting_follows_connection(session: Session)
    requires
        session.wf(),
    ensures
        session.current() == Action::GreetClient || session.completed().contains(
            Action::GreetClient,
        ) ==> {
            &&& session.completed().contains(Action::LimitClientReads)
            &&& session.completed().contains(Action::LimitClientWrites)
            &&& session.completed().contains(Action::ReadRequest)
            &&& session.completed().contains(Action::CloneClient)
            &&& session.completed().contains(Action::ConnectServer)
            &&& session.completed().contains(Action::LimitServerReads)
            &&& session.completed().contains(Action::LimitServerWrites)
            &&& session.completed().contains(Action::CloneServer)
        },
        session.current() == Action::StartRelays || session.completed().contains(
            Action::StartRelays,
        ) ==> session.completed().contains(Action::GreetClient),
{
    let completed = session.completed();
    if session.done() > 7 {
        assert(completed[0] == Action::LimitClientReads);
        assert(completed[1] == Action::LimitClientWrites);
        assert(completed[2] == Action::ReadRequest);
        assert(completed[3] == Action::CloneClient);
        assert(completed[4] == Action::ConnectServer);
        assert(completed[5] == Action::LimitServerReads);
        assert(completed[6] == Action::LimitServerWrites);
        assert(completed[7] == Action::CloneServer);
    }
    if session.done() > 8 {
        assert(completed[8] == Action::GreetClient);
    }
}

} // verus!
