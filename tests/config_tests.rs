use unbound_ddns::config::{decimal_text, Config, DomainConfig};

fn entry(name: &str, key: &str) -> DomainConfig {
    DomainConfig {
        name: name.to_string(),
        key: key.to_string(),
    }
}

#[test]
fn test_config_validation_no_domains() {
    let config = Config {
        unbound_config_path: "/etc/unbound/unbound.conf".to_string(),
        domains: vec![],
    };
    let result = config.validate(b"");
    assert!(result.is_err());
    assert!(result.unwrap_err().contains("at least one domain"));
}

#[test]
fn test_config_validation_empty_domain_name() {
    let config = Config {
        unbound_config_path: "/etc/unbound/unbound.conf".to_string(),
        domains: vec![entry("", "key1")],
    };
    let result = config.validate(b"");
    assert!(result.is_err());
    assert!(result.unwrap_err().contains("empty name"));
}

#[test]
fn test_config_validation_empty_key() {
    let config = Config {
        unbound_config_path: "/etc/unbound/unbound.conf".to_string(),
        domains: vec![entry("test.example.com", "")],
    };
    let result = config.validate(b"");
    assert!(result.is_err());
    assert!(result.unwrap_err().contains("empty key"));
}

#[test]
fn test_config_validation_duplicate_domains() {
    let config = Config {
        unbound_config_path: "/etc/unbound/unbound.conf".to_string(),
        domains: vec![entry("test.example.com", "key1"), entry("test.example.com", "key2")],
    };
    let result = config.validate(b"");
    assert!(result.is_err());
    assert!(result.unwrap_err().contains("Duplicate domain"));
}

#[test]
fn test_find_domain() {
    let config = Config {
        unbound_config_path: "/etc/unbound/unbound.conf".to_string(),
        domains: vec![entry("home.example.com", "key1"), entry("server.example.com", "key2")],
    };

    assert!(config.find_domain("home.example.com").is_some());
    assert!(config.find_domain("nonexistent.com").is_none());
}

#[test]
fn test_config_validation_domain_not_in_unbound_config() {
    let text = b"server:\n  verbosity: 1\n";
    let config = Config {
        unbound_config_path: "/tmp/test_validation_missing_domain.conf".to_string(),
        domains: vec![entry("missing.example.com", "key1")],
    };

    let result = config.validate(text);
    assert!(result.is_err());
    let error_msg = result.unwrap_err();
    assert!(error_msg.contains("missing.example.com"));
    assert!(error_msg.contains("not found in Unbound config"));
}

#[test]
fn validation_accepts_provisioned_domains() {
    let text = b"server:\n  verbosity: 1\nlocal-data: \"home.example.com IN A 192.168.1.1\"\nlocal-data: \"server.example.com. IN A 192.168.1.2\"\n";
    let config = Config {
        unbound_config_path: "/etc/unbound/unbound.conf".to_string(),
        domains: vec![entry("home.example.com", "secret-key-1"), entry("server.example.com", "secret-key-2")],
    };
    assert_eq!(config.validate(text), Ok(()));
}

#[test]
fn validation_messages_are_exact() {
    let config = Config {
        unbound_config_path: "/etc/unbound/unbound.conf".to_string(),
        domains: vec![entry("a.com", "k"), entry("  ", "k")],
    };
    assert_eq!(config.validate(b""), Err("Domain at index 1 has an empty name".to_string()));

    let config = Config {
        unbound_config_path: "/etc/unbound/unbound.conf".to_string(),
        domains: vec![entry("a.com", " \t")],
    };
    assert_eq!(config.validate(b""), Err("Domain 'a.com' has an empty key".to_string()));

    let config = Config {
        unbound_config_path: "/etc/unbound/unbound.conf".to_string(),
        domains: vec![entry("a.com.", "k")],
    };
    assert_eq!(
        config.validate(b""),
        Err("Domain 'a.com.' must be written without a trailing dot".to_string())
    );

    let config = Config {
        unbound_config_path: "/etc/unbound/unbound.conf".to_string(),
        domains: vec![entry("b.com", "k")],
    };
    assert_eq!(
        config.validate(b"local-data: \"a.com IN A 1.1.1.1\"\n"),
        Err("Domain 'b.com' not found in Unbound config file. Please add 'local-data: \"b.com IN A <ip>\"' to \"/etc/unbound/unbound.conf\" first.".to_string())
    );
}

#[test]
fn entries_are_checked_before_duplicates() {
    let config = Config {
        unbound_config_path: "/etc/unbound/unbound.conf".to_string(),
        domains: vec![entry("a.com", "k"), entry("a.com", "k"), entry("c.com", "")],
    };
    assert_eq!(config.validate(b""), Err("Domain 'c.com' has an empty key".to_string()));
}

#[test]
fn find_domain_returns_the_matching_entry() {
    let config = Config {
        unbound_config_path: "/etc/unbound/unbound.conf".to_string(),
        domains: vec![entry("home.example.com", "key1"), entry("server.example.com", "key2")],
    };
    let found = config.find_domain("server.example.com").unwrap();
    assert_eq!(found.key, "key2");
    assert!(config.find_domain("server.example.com.").is_none());
}

#[test]
fn decimal_text_writes_digits() {
    assert_eq!(decimal_text(0), "0");
    assert_eq!(decimal_text(7), "7");
    assert_eq!(decimal_text(10), "10");
    assert_eq!(decimal_text(4096), "4096");
}

#[test]
fn check_entries_needs_no_resolver_text() {
    let config = Config {
        unbound_config_path: "/etc/unbound/unbound.conf".to_string(),
        domains: vec![entry("a.com", "k"), entry("b.com", "k")],
    };
    assert_eq!(config.check_entries(), Ok(()));
    let config = Config {
        unbound_config_path: "/etc/unbound/unbound.conf".to_string(),
        domains: vec![entry("a.com", "k"), entry("b.com", "k"), entry("a.com", "j")],
    };
    assert_eq!(
        config.check_entries(),
        Err("Duplicate domain 'a.com' found in configuration".to_string())
    );
}

#[test]
fn validation_refuses_a_domain_with_two_directives() {
    let config = Config {
        unbound_config_path: "/etc/unbound/unbound.conf".to_string(),
        domains: vec![entry("a.com", "k"), entry("b.com", "k")],
    };
    let text = b"local-data: \"a.com IN A 1.1.1.1\"\nlocal-data: \"b.com IN A 1.1.1.2\"\nlocal-data: \"b.com. IN A 1.1.1.3\"\n";
    assert_eq!(
        config.validate(text),
        Err("Domain 'b.com' has more than one 'local-data' line in Unbound config file \"/etc/unbound/unbound.conf\"; keep exactly one.".to_string())
    );
}
