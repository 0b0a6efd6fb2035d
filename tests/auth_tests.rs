use unbound_ddns::auth::{authorize, extract_auth_key, AuthError};
use unbound_ddns::config::{Config, DomainConfig};

fn config_with(name: &str, key: &str) -> Config {
    Config {
        unbound_config_path: "/tmp/test.conf".to_string(),
        domains: vec![DomainConfig {
            name: name.to_string(),
            key: key.to_string(),
        }],
    }
}

#[test]
fn test_extract_auth_key_with_bearer() {
    let result = extract_auth_key(Some("Bearer my-secret-key"));
    assert!(result.is_ok());
    assert_eq!(result.unwrap(), "my-secret-key");
}

#[test]
fn test_extract_auth_key_without_bearer() {
    let result = extract_auth_key(Some("my-secret-key"));
    assert!(result.is_ok());
    assert_eq!(result.unwrap(), "my-secret-key");
}

#[test]
fn test_extract_auth_key_missing() {
    let result = extract_auth_key(None);
    assert!(result.is_err());
    assert!(result.unwrap_err().message().contains("Missing Authorization header"));
}

#[test]
fn test_extract_auth_key_empty() {
    let result = extract_auth_key(Some("Bearer "));
    assert!(result.is_err());
    assert!(result.unwrap_err().message().contains("cannot be empty"));
}

#[test]
fn whitespace_only_key_is_refused() {
    assert_eq!(extract_auth_key(Some("Bearer  \t ")), Err(AuthError::EmptyKey));
    assert_eq!(extract_auth_key(Some("   ")), Err(AuthError::EmptyKey));
    assert_eq!(extract_auth_key(Some("")), Err(AuthError::EmptyKey));
}

#[test]
fn key_is_kept_as_presented() {
    assert_eq!(extract_auth_key(Some("Bearer  spaced ")), Ok(" spaced ".to_string()));
    assert_eq!(extract_auth_key(Some("bearer k")), Ok("bearer k".to_string()));
}

#[test]
fn auth_error_messages() {
    assert_eq!(AuthError::MissingHeader.message(), "Missing Authorization header");
    assert_eq!(AuthError::InvalidEncoding.message(), "Invalid Authorization header encoding");
    assert_eq!(AuthError::EmptyKey.message(), "Authorization header cannot be empty");
}

#[test]
fn authorize_needs_known_domain_and_exact_key() {
    let config = config_with("test.example.com", "correct-key");
    assert!(authorize(&config, "test.example.com", "correct-key"));
    assert!(!authorize(&config, "test.example.com", "wrong-key"));
    assert!(!authorize(&config, "test.example.com", "correct-ke"));
    assert!(!authorize(&config, "test.example.com", "correct-key2"));
    assert!(!authorize(&config, "other.example.com", "correct-key"));
}
