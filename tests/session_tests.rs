use unbound_ddns::auth::{extract_auth_key, AuthError};
use unbound_ddns::config::{Config, DomainConfig};
use unbound_ddns::request::{ClientAddress, ParseError, UpdateRequest};
use unbound_ddns::session::{
    reload_result, ReloadOutcome, Stage, UpdateAction, UpdateEvent, UpdateResponse, UpdateSession,
};

fn config_with(name: &str, key: &str) -> Config {
    Config {
        unbound_config_path: "/tmp/test.conf".to_string(),
        domains: vec![DomainConfig {
            name: name.to_string(),
            key: key.to_string(),
        }],
    }
}

fn peer(addr: &str) -> ClientAddress {
    ClientAddress {
        forwarded_for: None,
        real_ip: None,
        peer: addr.to_string(),
    }
}

fn request(domain: &str, ip: Option<&str>) -> Result<UpdateRequest, ParseError> {
    Ok(UpdateRequest {
        domain: domain.to_string(),
        ip: ip.map(|s| s.to_string()),
    })
}

fn response(action: UpdateAction) -> UpdateResponse {
    match action {
        UpdateAction::Respond(r) => r,
        _ => panic!("expected a response"),
    }
}

/// Runs a session against an in-memory file, with a reload that ends as given.
fn run(
    config: &Config,
    header: Option<&str>,
    req: Result<UpdateRequest, ParseError>,
    client: &ClientAddress,
    file: &mut Vec<u8>,
    reload: fn() -> ReloadOutcome,
) -> UpdateResponse {
    let (mut session, mut action) = UpdateSession::begin(config, extract_auth_key(header), req, client);
    loop {
        let event = match action {
            UpdateAction::AcquireLock => UpdateEvent::Locked,
            UpdateAction::ReadConfig => UpdateEvent::ConfigRead(Ok(file.clone())),
            UpdateAction::WriteConfig(bytes) => {
                *file = bytes;
                UpdateEvent::ConfigWritten(Ok(()))
            }
            UpdateAction::Reload => UpdateEvent::Reloaded(reload()),
            UpdateAction::Respond(r) => return r,
        };
        assert!(session.accepts(&event));
        action = session.advance(event);
    }
}

fn reload_ok() -> ReloadOutcome {
    ReloadOutcome::Exited { success: true, stderr: String::new() }
}

fn reload_missing() -> ReloadOutcome {
    ReloadOutcome::NotLaunched { reason: "No such file or directory (os error 2)".to_string() }
}

fn text(file: &[u8]) -> String {
    String::from_utf8(file.to_vec()).unwrap()
}

#[test]
fn test_update_endpoint_unauthorized_domain() {
    let config = config_with("allowed.example.com", "secret123");
    let (session, action) = UpdateSession::begin(
        &config,
        extract_auth_key(Some("Bearer secret123")),
        request("notallowed.example.com", None),
        &peer("127.0.0.1"),
    );
    assert_eq!(session.stage, Stage::Done);
    let r = response(action);
    assert_eq!(r.status_code(), 400);
    assert!(r.message.contains("Unauthorized"));
}

#[test]
fn test_update_endpoint_invalid_key() {
    let config = config_with("test.example.com", "correct-key");
    let (_, action) = UpdateSession::begin(
        &config,
        extract_auth_key(Some("Bearer wrong-key")),
        request("test.example.com", Some("10.0.0.1")),
        &peer("127.0.0.1"),
    );
    let r = response(action);
    assert_eq!(r.status_code(), 400);
    assert!(r.message.contains("Unauthorized"));
}

#[test]
fn unknown_domain_and_wrong_key_answer_alike() {
    let config = config_with("test.example.com", "correct-key");
    let (_, a) = UpdateSession::begin(&config, extract_auth_key(Some("k")), request("nope.example.com", None), &peer("1.1.1.1"));
    let (_, b) = UpdateSession::begin(&config, extract_auth_key(Some("k")), request("test.example.com", None), &peer("1.1.1.1"));
    let (a, b) = (response(a), response(b));
    assert_eq!(a.message, "Unauthorized");
    assert_eq!(b.message, "Unauthorized");
    assert_eq!(a.success, b.success);
}

#[test]
fn test_update_endpoint_with_explicit_ip() {
    let config = config_with("test.example.com", "test-key");
    let mut file = b"server:\n  verbosity: 1\nlocal-data: \"test.example.com IN A 192.168.1.1\"\n".to_vec();
    let r = run(&config, Some("Bearer test-key"), request("test.example.com", Some("203.0.113.42")), &peer("127.0.0.1"), &mut file, reload_missing);
    assert!(r.status_code() == 200 || r.message.contains("Failed to reload Unbound"));
    assert!(text(&file).contains("local-data: \"test.example.com. IN A 203.0.113.42\""));
}

#[test]
fn test_update_endpoint_auto_detect_ip() {
    let config = config_with("auto.example.com", "auto-key");
    let mut file = b"server:\n  verbosity: 1\nlocal-data: \"auto.example.com IN A 192.168.1.1\"\n".to_vec();
    let r = run(&config, Some("Bearer auto-key"), request("auto.example.com", None), &peer("198.51.100.42"), &mut file, reload_missing);
    assert!(r.status_code() == 200 || r.message.contains("Failed to reload Unbound"));
    assert!(text(&file).contains("local-data: \"auto.example.com. IN A 198.51.100.42\""));
}

#[test]
fn test_update_endpoint_json_with_explicit_ip() {
    let config = config_with("json.example.com", "json-key");
    let mut file = b"server:\n  verbosity: 1\nlocal-data: \"json.example.com IN A 192.168.1.1\"\n".to_vec();
    let r = run(&config, Some("Bearer json-key"), request("json.example.com", Some("203.0.113.100")), &peer("127.0.0.1"), &mut file, reload_missing);
    assert!(r.status_code() == 200 || r.message.contains("Failed to reload Unbound"));
    assert!(text(&file).contains("local-data: \"json.example.com. IN A 203.0.113.100\""));
}

#[test]
fn test_update_endpoint_json_auto_detect_ip() {
    let config = config_with("autoip.example.com", "autoip-key");
    let mut file = b"server:\n  verbosity: 1\nlocal-data: \"autoip.example.com IN A 192.168.1.1\"\n".to_vec();
    let r = run(&config, Some("Bearer autoip-key"), request("autoip.example.com", None), &peer("198.51.100.99"), &mut file, reload_missing);
    assert!(r.status_code() == 200 || r.message.contains("Failed to reload Unbound"));
    assert!(text(&file).contains("local-data: \"autoip.example.com. IN A 198.51.100.99\""));
}

#[test]
fn test_update_endpoint_missing_auth_header() {
    let config = config_with("test.example.com", "test-key");
    let (_, action) = UpdateSession::begin(&config, extract_auth_key(None), request("test.example.com", None), &peer("127.0.0.1"));
    let r = response(action);
    assert_eq!(r.status_code(), 400);
    assert!(r.message.contains("Missing Authorization header"));
}

#[test]
fn test_update_endpoint_invalid_json() {
    let config = config_with("test.example.com", "test-key");
    let bad = Err(ParseError { cause: "Invalid JSON: expected value at line 1 column 1".to_string() });
    let (_, action) = UpdateSession::begin(&config, extract_auth_key(Some("Bearer test-key")), bad, &peer("127.0.0.1"));
    let r = response(action);
    assert_eq!(r.status_code(), 400);
    assert!(r.message.contains("Failed to parse request"));
}

#[test]
fn test_update_response_success() {
    let response = UpdateResponse { success: true, message: "Updated successfully".to_string() };
    assert_eq!(response.status_code(), 200);
}

#[test]
fn test_update_response_failure() {
    let response = UpdateResponse { success: false, message: "Update failed".to_string() };
    assert_eq!(response.status_code(), 400);
}

#[test]
fn end_to_end_example() {
    let config = config_with("a.com", "K");
    let mut file = b"local-data: \"a.com. IN A 1.1.1.1\"\n".to_vec();
    let r = run(&config, Some("Bearer K"), request("a.com", Some("2.2.2.2")), &peer("127.0.0.1"), &mut file, reload_ok);
    let t = text(&file);
    assert!(t.contains("local-data: \"a.com. IN A 2.2.2.2\""));
    assert!(!t.contains("1.1.1.1"));
    assert!(r.success);
    assert_eq!(r.message, "Updated a.com to 2.2.2.2");
    assert_eq!(r.status_code(), 200);
}

#[test]
fn trailing_dots_in_request_are_ignored() {
    let config = config_with("a.com", "K");
    let mut file = b"local-data: \"a.com IN A 1.1.1.1\"\n".to_vec();
    let r = run(&config, Some("K"), request("a.com..", Some("2.2.2.2")), &peer("127.0.0.1"), &mut file, reload_ok);
    assert_eq!(r.message, "Updated a.com to 2.2.2.2");
    assert_eq!(text(&file), "local-data: \"a.com. IN A 2.2.2.2\"\n");
}

#[test]
fn explicit_ip_is_written_despite_proxy_headers() {
    let config = config_with("a.com", "K");
    let mut file = b"local-data: \"a.com IN A 1.1.1.1\"\n".to_vec();
    let c = ClientAddress {
        forwarded_for: Some("10.0.0.9".to_string()),
        real_ip: Some("10.0.0.8".to_string()),
        peer: "127.0.0.1".to_string(),
    };
    run(&config, Some("K"), request("a.com", Some("2.2.2.2")), &c, &mut file, reload_ok);
    assert_eq!(text(&file), "local-data: \"a.com. IN A 2.2.2.2\"\n");
}

#[test]
fn forwarded_address_is_written_without_explicit_ip() {
    let config = config_with("a.com", "K");
    let mut file = b"local-data: \"a.com IN A 1.1.1.1\"\n".to_vec();
    let c = ClientAddress {
        forwarded_for: Some("10.0.0.9, 10.0.0.7".to_string()),
        real_ip: Some("10.0.0.8".to_string()),
        peer: "127.0.0.1".to_string(),
    };
    run(&config, Some("K"), request("a.com", None), &c, &mut file, reload_ok);
    assert_eq!(text(&file), "local-data: \"a.com. IN A 10.0.0.9\"\n");
}

#[test]
fn missing_domain_leaves_file_unchanged() {
    let config = config_with("a.com", "K");
    let before = b"server:\n  verbosity: 1\n".to_vec();
    let mut file = before.clone();
    let r = run(&config, Some("K"), request("a.com", Some("2.2.2.2")), &peer("127.0.0.1"), &mut file, reload_ok);
    assert!(!r.success);
    assert_eq!(
        r.message,
        "Failed to update configuration: Domain 'a.com' not found in Unbound config. Cannot update non-existent domain."
    );
    assert_eq!(file, before);
}

#[test]
fn serialized_updates_for_two_domains_both_persist() {
    let config = Config {
        unbound_config_path: "/tmp/test.conf".to_string(),
        domains: vec![
            DomainConfig { name: "a.com".to_string(), key: "KA".to_string() },
            DomainConfig { name: "b.com".to_string(), key: "KB".to_string() },
        ],
    };
    let mut file = b"local-data: \"a.com IN A 1.1.1.1\"\nlocal-data: \"b.com IN A 1.1.1.2\"\n".to_vec();
    let ra = run(&config, Some("KA"), request("a.com", Some("10.0.0.1")), &peer("127.0.0.1"), &mut file, reload_ok);
    let rb = run(&config, Some("KB"), request("b.com", Some("10.0.0.2")), &peer("127.0.0.1"), &mut file, reload_ok);
    assert!(ra.success && rb.success);
    let t = text(&file);
    assert!(t.contains("local-data: \"a.com. IN A 10.0.0.1\""));
    assert!(t.contains("local-data: \"b.com. IN A 10.0.0.2\""));
}

#[test]
fn failures_of_file_and_reload_are_reported_apart() {
    let config = config_with("a.com", "K");
    let (mut s, a) = UpdateSession::begin(&config, extract_auth_key(Some("K")), request("a.com", Some("2.2.2.2")), &peer("1.1.1.1"));
    assert!(matches!(a, UpdateAction::AcquireLock));
    assert!(!s.accepts(&UpdateEvent::ConfigWritten(Ok(()))));
    assert!(matches!(s.advance(UpdateEvent::Locked), UpdateAction::ReadConfig));
    let r = response(s.advance(UpdateEvent::ConfigRead(Err("permission denied".to_string()))));
    assert_eq!(r.message, "Failed to update configuration: Failed to read Unbound config: permission denied");

    let (mut s, _) = UpdateSession::begin(&config, extract_auth_key(Some("K")), request("a.com", Some("2.2.2.2")), &peer("1.1.1.1"));
    s.advance(UpdateEvent::Locked);
    assert!(matches!(s.advance(UpdateEvent::ConfigRead(Ok(b"local-data: \"a.com IN A 1.1.1.1\"".to_vec()))), UpdateAction::WriteConfig(_)));
    let r = response(s.advance(UpdateEvent::ConfigWritten(Err("disk full".to_string()))));
    assert_eq!(r.message, "Failed to update configuration: Failed to write Unbound config: disk full");

    let (mut s, _) = UpdateSession::begin(&config, extract_auth_key(Some("K")), request("a.com", Some("2.2.2.2")), &peer("1.1.1.1"));
    s.advance(UpdateEvent::Locked);
    s.advance(UpdateEvent::ConfigRead(Ok(b"local-data: \"a.com IN A 1.1.1.1\"".to_vec())));
    assert!(matches!(s.advance(UpdateEvent::ConfigWritten(Ok(()))), UpdateAction::Reload));
    let r = response(s.advance(UpdateEvent::Reloaded(ReloadOutcome::Exited { success: false, stderr: "error: no connection".to_string() })));
    assert_eq!(r.message, "Failed to reload Unbound: unbound-control failed: error: no connection");
    assert_eq!(s.stage, Stage::Done);
}

#[test]
fn reload_outcomes() {
    assert_eq!(reload_result(&ReloadOutcome::Exited { success: true, stderr: "x".to_string() }), Ok(()));
    assert_eq!(
        reload_result(&ReloadOutcome::NotLaunched { reason: "not found".to_string() }),
        Err("Failed to execute unbound-control: not found".to_string())
    );
    assert_eq!(reload_result(&ReloadOutcome::TimedOut), Err("unbound-control did not finish in time".to_string()));
}

#[test]
fn invalid_header_encoding_is_reported() {
    let config = config_with("a.com", "K");
    let (_, a) = UpdateSession::begin(&config, Err(AuthError::InvalidEncoding), request("a.com", None), &peer("1.1.1.1"));
    assert_eq!(response(a).message, "Invalid Authorization header encoding");
}

#[test]
fn invalid_address_is_a_configuration_failure() {
    let config = config_with("a.com", "K");
    let mut file = b"local-data: \"a.com IN A 1.1.1.1\"\n".to_vec();
    let r = run(&config, Some("K"), request("a.com", Some("1.2.3.4\"\nlocal-data: \"x.com IN A 6.6.6.6")), &peer("1.1.1.1"), &mut file, reload_ok);
    assert!(!r.success);
    assert!(r.message.starts_with("Failed to update configuration: Address '"));
    assert_eq!(text(&file), "local-data: \"a.com IN A 1.1.1.1\"\n");
}

#[test]
fn explicit_address_with_a_space_is_written() {
    let config = config_with("a.com", "K");
    let mut file = b"local-data: \"a.com IN A 1.1.1.1\"\n".to_vec();
    let c = ClientAddress {
        forwarded_for: Some("10.0.0.9".to_string()),
        real_ip: None,
        peer: "127.0.0.1".to_string(),
    };
    let r = run(&config, Some("K"), request("a.com", Some("a b")), &c, &mut file, reload_ok);
    assert_eq!(r.message, "Updated a.com to a b");
    assert_eq!(text(&file), "local-data: \"a.com. IN A a b\"\n");
}
