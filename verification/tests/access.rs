use proctor::access::{authorize, check_servers, guard, listen_address, lists, Refusal, Target};

fn servers(names: &[&str]) -> Vec<String> {
    names.iter().map(|name| name.to_string()).collect()
}

#[test]
fn a_guard_gives_its_error_where_it_does_not_hold() {
    assert_eq!(guard(true, "no"), Ok(()));
    assert_eq!(guard(false, "no"), Err("no"));
}

#[test]
fn at_least_one_server_is_expected() {
    let refusal = check_servers(&Vec::new()).unwrap_err();
    assert!(matches!(refusal, Refusal::NoServers));
    assert_eq!(refusal.message(), "expected at least one server");
    assert!(check_servers(&servers(&["a"])).is_ok());
}

#[test]
fn a_listed_server_is_allowed_on_the_ssl_port() {
    let allowed = servers(&["example.org", "api.giphy.com"]);
    let target = authorize(&allowed, "api.giphy.com".to_string(), 443).unwrap();
    assert_eq!(target.address(), "api.giphy.com:443");
}

#[test]
fn any_other_server_is_denied() {
    let allowed = servers(&["api.giphy.com"]);
    for name in ["giphy.com", "api.giphy.com.", "API.giphy.com", "", "evil.api.giphy.com"] {
        let refusal = authorize(&allowed, name.to_string(), 443).unwrap_err();
        assert!(matches!(refusal, Refusal::Hostname(_)));
        assert_eq!(refusal.message(), format!("{} is not an allowed hostname", name));
        assert!(!lists(&allowed, &name.to_string()));
    }
    assert!(lists(&allowed, &"api.giphy.com".to_string()));
}

#[test]
fn any_other_port_is_denied() {
    let allowed = servers(&["a"]);
    for port in [0, 80, 442, 444, -443, i32::MAX] {
        let refusal = authorize(&allowed, "a".to_string(), port).unwrap_err();
        assert!(matches!(refusal, Refusal::Port));
        assert_eq!(refusal.message(), "Port must be 443");
    }
}

#[test]
fn the_hostname_is_looked_at_before_the_port() {
    let refusal = authorize(&servers(&["a"]), "b".to_string(), 80).unwrap_err();
    assert_eq!(refusal.message(), "b is not an allowed hostname");
}

#[test]
fn addresses_hold_the_port_in_decimal() {
    for port in [0, 7, 10, 80, 443, 8080, 65535, i32::MAX, -1, -20, i32::MIN] {
        assert_eq!(listen_address(port), format!("127.0.0.1:{}", port));
        let target = Target { hostname: "host".to_string(), port };
        assert_eq!(target.address(), format!("host:{}", port));
    }
}
