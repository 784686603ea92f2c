//! Which requests are allowed.

use vstd::prelude::*;

use crate::text::{decimal, digits, with_port};

verus! {

/// The one port that servers may be connected to on.
pub const SSL_PORT: i32 = 443;

/// Why a request, or a list of servers, is not accepted.
#[derive(Debug)]
pub enum Refusal {
    /// There is no server that may be connected to.
    NoServers,
    /// The hostname is not one of the servers.
    Hostname(String),
    /// The port is not the one that is allowed.
    Port,
}

impl Refusal {
    /// What the user is told.
    pub open spec fn text(self) -> Seq<char> {
        match self {
            Refusal::NoServers => "expected at least one server"@,
            Refusal::Hostname(hostname) => hostname@ + " is not an allowed hostname"@,
            Refusal::Port => "Port must be 443"@,
        }
    }

    /// What the user is told.
    pub fn message(&self) -> (text: String)
        ensures
            text@ == self.text(),
            match self {
                Refusal::NoServers => text@ == "expected at least one server"@,
                Refusal::Hostname(hostname) => text@ == hostname@ + " is not an allowed hostname"@,
                Refusal::Port => text@ == "Port must be 443"@,
            },
    {
        match self {
            Refusal::NoServers => "expected at least one server".to_owned(),
            Refusal::Hostname(hostname) => {
                let mut text = hostname.clone();
                text.append(" is not an allowed hostname");
                text
            },
            Refusal::Port => "Port must be 443".to_owned(),
        }
    }
}

/// Makes sure that something holds, and gives an error where it does not.
pub fn guard<E>(b: bool, error: E) -> (result: Result<(), E>)
    ensures
        result == if b {
            Ok(())
        } else {
            Err(error)
        },
{
    if b {
        Ok(())
    } else {
        Err(error)
    }
}

/// Makes sure that there is a server that may be connected to.
pub fn check_servers(servers: &Vec<String>) -> (result: Result<(), Refusal>)
    ensures
        result == if servers@.len() == 0 {
            Err(Refusal::NoServers)
        } else {
            Ok(())
        },
{
    guard(servers.len() != 0, Refusal::NoServers)
}

/// Whether `hostname` is one of the servers.
pub open spec fn is_server(servers: Seq<String>, hostname: Seq<char>) -> bool {
    exists|k: int| 0 <= k < servers.len() && (#[trigger] servers[k])@ == hostname
}

/// Whether a connection to `port` of `hostname` is allowed.
pub open spec fn is_allowed(servers: Seq<String>, hostname: Seq<char>, port: i32) -> bool {
    is_server(servers, hostname) && port == SSL_PORT
}

/// The names of the servers hold `hostname` where it is one of them.
proof fn lemma_names(servers: Seq<String>, hostname: Seq<char>)
    ensures
        is_server(servers, hostname) <==> servers.map_values(|name: String| name@).contains(
            hostname,
        ),
{
    let names = servers.map_values(|name: String| name@);
    if is_server(servers, hostname) {
        let k = choose|k: int| 0 <= k < servers.len() && (#[trigger] servers[k])@ == hostname;
        assert(names[k] == hostname);
    }
    if names.contains(hostname) {
        let k = choose|k: int| 0 <= k < names.len() && names[k] == hostname;
        assert(servers[k]@ == hostname);
    }
}

/// Every name on the list is allowed on the port for it, wherever it stands, and on no other.
pub proof fn law_listed_servers_are_allowed(servers: Seq<String>, k: int, port: i32)
    requires
        0 <= k < servers.len(),
    ensures
        is_server(servers, servers[k]@),
        is_allowed(servers, servers[k]@, port) <==> port == 443,
{
}

/// What is not on the list is not allowed, on whatever port.
pub proof fn law_other_servers_are_denied(servers: Seq<String>, hostname: Seq<char>, port: i32)
    requires
        forall|k: int| 0 <= k < servers.len() ==> (#[trigger] servers[k])@ != hostname,
    ensures
        !is_server(servers, hostname),
        !is_allowed(servers, hostname, port),
{
}

/// Two lists, one behind the other, allow what either of them allows.
pub proof fn law_lists_add_up(
    first: Seq<String>,
    second: Seq<String>,
    hostname: Seq<char>,
    port: i32,
)
    ensures
        is_allowed(first + second, hostname, port) <==> is_allowed(first, hostname, port)
            || is_allowed(second, hostname, port),
{
    let both = first + second;
    if is_server(first, hostname) {
        let k = choose|k: int| 0 <= k < first.len() && (#[trigger] first[k])@ == hostname;
        assert(both[k]@ == hostname);
    }
    if is_server(second, hostname) {
        let k = choose|k: int| 0 <= k < second.len() && (#[trigger] second[k])@ == hostname;
        assert(both[first.len() + k]@ == hostname);
    }
    if is_server(both, hostname) {
        let k = choose|k: int| 0 <= k < both.len() && (#[trigger] both[k])@ == hostname;
        if k < first.len() {
            assert(first[k]@ == hostname);
        } else {
            assert(second[k - first.len()]@ == hostname);
        }
    }
}

/// Whether `hostname` is one of the servers.
pub fn lists(servers: &Vec<String>, hostname: &String) -> (found: bool)
    ensures
        found == is_server(servers@, hostname@),
        found == servers@.map_values(|name: String| name@).contains(hostname@),
{
    proof {
        lemma_names(servers@, hostname@);
    }
    let mut i: usize = 0;
    while i < servers.len()
        invariant
            i <= servers.len(),
            forall|k: int| 0 <= k < i ==> (#[trigger] servers@[k])@ != hostname@,
        decreases servers.len() - i,
    {
        if servers[i] == *hostname {
            proof {
                assert(servers@[i as int]@ == hostname@);
                lemma_names(servers@, hostname@);
            }
            return true;
        }
        i += 1;
    }
    false
}

/// The server that a tunnel leads to.
#[derive(Debug)]
pub struct Target {
    pub hostname: String,
    pub port: i32,
}

impl Target {
    /// The hostname and the port, with a colon between them.
    pub open spec fn address_text(self) -> Seq<char> {
        self.hostname@ + seq![':'] + decimal(self.port as int)
    }

    /// The hostname and the port, with a colon between them.
    pub fn address(&self) -> (text: String)
        ensures
            text@ == self.address_text(),
            text@ == self.hostname@ + seq![':'] + decimal(self.port as int),
    {
        with_port(self.hostname.as_str(), self.port)
    }
}

/// An address begins with the hostname, and a colon and the port follow.
pub proof fn law_address_names_the_target(target: Target)
    ensures
        target.address_text().take(target.hostname@.len() as int) == target.hostname@,
        target.address_text().len() > target.hostname@.len(),
        target.address_text()[target.hostname@.len() as int] == ':',
        target.address_text().skip(target.hostname@.len() as int + 1) == decimal(target.port as int),
{
    let text = target.address_text();
    assert(text.take(target.hostname@.len() as int) =~= target.hostname@);
    assert(text.skip(target.hostname@.len() as int + 1) =~= decimal(target.port as int));
}

/// The address of a target that is allowed is a name on the list and the port for it.
pub proof fn law_allowed_address(servers: Seq<String>, target: Target)
    requires
        is_allowed(servers, target.hostname@, target.port),
    ensures
        exists|k: int|
            0 <= k < servers.len() && target.address_text() == (#[trigger] servers[k])@ + ":443"@,
{
    reveal_strlit(":443");
    reveal_with_fuel(digits, 3);
    assert(decimal(443) =~= seq!['4', '4', '3']);
    let k = choose|k: int|
        0 <= k < servers.len() && (#[trigger] servers[k])@ == target.hostname@;
    assert(target.address_text() =~= servers[k]@ + ":443"@);
}

/// The address to listen on: a port of this machine, for programs on this machine.
pub fn listen_address(port: i32) -> (text: String)
    ensures
        text@ == "127.0.0.1"@ + seq![':'] + decimal(port as int),
{
    with_port("127.0.0.1", port)
}

/// Lets a request pass to a server that is allowed, and no other. The hostname is looked at
/// before the port.
pub fn authorize(servers: &Vec<String>, hostname: String, port: i32) -> (result: Result<Target, Refusal>)
    ensures
        match result {
            Ok(target) => {
                &&& is_allowed(servers@, hostname@, port)
                &&& target == (Target { hostname, port })
            },
            Err(Refusal::Hostname(name)) => name == hostname && !is_server(servers@, hostname@),
            Err(Refusal::Port) => is_server(servers@, hostname@) && port != SSL_PORT,
            Err(Refusal::NoServers) => false,
        },
        result is Ok <==> servers@.map_values(|name: String| name@).contains(hostname@) && port
            == 443,
        result matches Ok(target) ==> target.hostname@ == hostname@ && target.port == port,
        !servers@.map_values(|name: String| name@).contains(hostname@) ==> (
        result matches Err(Refusal::Hostname(name)) && name@ == hostname@),
        servers@.map_values(|name: String| name@).contains(hostname@) && port != 443
            ==> result == Err::<Target, Refusal>(Refusal::Port),
{
    proof {
        lemma_names(servers@, hostname@);
    }
    let listed = lists(servers, &hostname);
    match guard(listed, Refusal::Hostname(hostname.clone())) {
        Err(refusal) => Err(refusal),
        Ok(_) => match guard(port == SSL_PORT, Refusal::Port) {
            Err(refusal) => Err(refusal),
            Ok(_) => Ok(Target { hostname, port }),
        },
    }
}

} // verus!
