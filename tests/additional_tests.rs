use hostctl::config::{Config, Environment, HostEntry};
use hostctl::hosts::HostsManager;
use hostctl::ip::IpAddress;

#[test]
fn test_apply_empty_environment() {
    let env = Environment::new("empty".to_string());

    assert_eq!(env.name, "empty");
    assert!(env.entries.is_empty());
    assert_eq!(env.description, None);
}

#[test]
fn test_apply_large_environment() {
    let mut env = Environment::new("large".to_string());

    for i in 0..1000 {
        let ip = IpAddress::V4([10, 0, (i / 256) as u8, (i % 256) as u8]);
        env.add_entry(HostEntry::new(ip, format!("host{i}")));
    }

    assert_eq!(env.entries.len(), 1000);

    let entry = env.find_entry("host500");
    assert!(entry.is_some());
    assert_eq!(entry.unwrap().hostname, "host500");
}

#[test]
fn test_duplicate_hostnames() {
    let mut env = Environment::new("test".to_string());

    let entry1 = HostEntry::new(IpAddress::V4([192, 168, 1, 1]), "duplicate".to_string());
    let entry2 = HostEntry::new(IpAddress::V4([192, 168, 1, 2]), "duplicate".to_string());

    env.add_entry(entry1);
    env.add_entry(entry2);

    assert_eq!(env.entries.len(), 2);

    let found = env.find_entry("duplicate");
    assert!(found.is_some());
    assert_eq!(found.unwrap().ip, IpAddress::V4([192, 168, 1, 1]));
}

#[test]
fn test_ipv6_full_address() {
    let ip = IpAddress::V6([0x2001, 0x0db8, 0x0000, 0x0000, 0x0000, 0x0000, 0x0000, 0x0001]);
    let entry = HostEntry::new(ip, "ipv6-full.example.com".to_string());

    assert_eq!(entry.to_line(), "2001:db8::1 ipv6-full.example.com");
}

#[test]
fn test_hostname_edge_cases() {
    assert!(HostsManager::is_valid_hostname("a"));

    let long_name = format!("{}.{}", "a".repeat(63), "b".repeat(63));
    assert_eq!(long_name.len(), 127);
    assert!(HostsManager::is_valid_hostname(&long_name));

    let too_long = "a".repeat(254);
    assert!(!HostsManager::is_valid_hostname(&too_long));

    let max_label = "a".repeat(63);
    assert!(HostsManager::is_valid_hostname(&max_label));

    let too_long_label = "a".repeat(64);
    assert!(!HostsManager::is_valid_hostname(&too_long_label));

    assert!(!HostsManager::is_valid_hostname("-invalid"));
    assert!(!HostsManager::is_valid_hostname("invalid-"));
    assert!(!HostsManager::is_valid_hostname("invalid..com"));
    assert!(!HostsManager::is_valid_hostname(".invalid.com"));
    assert!(!HostsManager::is_valid_hostname("invalid.com."));
    assert!(!HostsManager::is_valid_hostname("invalid host.com"));
    assert!(!HostsManager::is_valid_hostname("invalid@host.com"));
    assert!(!HostsManager::is_valid_hostname("invalid_host.com"));
    assert!(!HostsManager::is_valid_hostname("test_environment"));
}

#[test]
fn test_ip_edge_cases() {
    assert!(HostsManager::is_valid_ip("0.0.0.0"));
    assert!(HostsManager::is_valid_ip("255.255.255.255"));
    assert!(HostsManager::is_valid_ip("127.0.0.1"));

    assert!(!HostsManager::is_valid_ip("256.0.0.0"));
    assert!(!HostsManager::is_valid_ip("192.168.1"));
    assert!(!HostsManager::is_valid_ip("192.168.1.1.1"));

    assert!(HostsManager::is_valid_ip("::1"));
    assert!(HostsManager::is_valid_ip("2001:db8::1"));
    assert!(HostsManager::is_valid_ip("fe80::1"));

    assert!(!HostsManager::is_valid_ip(":::1"));
    assert!(!HostsManager::is_valid_ip("2001:db8:::1"));

    assert!(!HostsManager::is_valid_ip(""));

    assert!(!HostsManager::is_valid_ip("not an ip"));
}

#[test]
fn test_environment_description() {
    let env1 = Environment::new("test1".to_string());
    assert_eq!(env1.description, None);

    let env2 = Environment::new("test2".to_string()).with_description("Test environment".to_string());
    assert_eq!(env2.description, Some("Test environment".to_string()));

    let env3 = Environment::new("test3".to_string()).with_description(String::new());
    assert_eq!(env3.description, Some(String::new()));
}

#[test]
fn test_entry_comment() {
    let entry1 = HostEntry::new(IpAddress::V4([127, 0, 0, 1]), "localhost".to_string());
    assert_eq!(entry1.comment, None);

    let entry2 = HostEntry::new(IpAddress::V4([127, 0, 0, 1]), "localhost".to_string())
        .with_comment("Local host".to_string());
    assert_eq!(entry2.comment, Some("Local host".to_string()));

    let entry3 = HostEntry::new(IpAddress::V4([127, 0, 0, 1]), "localhost".to_string())
        .with_comment(String::new());
    assert_eq!(entry3.comment, Some(String::new()));
}

#[test]
fn test_config_default() {
    let config = Config::default();

    assert!(config.environments.is_empty());
    assert_eq!(config.current_environment, None);
}

#[test]
fn test_remove_current_environment() {
    let mut config = Config::new();

    config.add_environment(Environment::new("env1".to_string()));
    config.add_environment(Environment::new("env2".to_string()));

    config.current_environment = Some("env1".to_string());

    assert!(config.remove_environment("env1"));

    assert_eq!(config.current_environment, None);

    assert!(config.get_environment("env1").is_none());
    assert!(config.get_environment("env2").is_some());
}

#[test]
fn test_parse_hosts_line_various_formats() {
    let entry = HostsManager::parse_hosts_line("127.0.0.1 localhost").unwrap();
    assert_eq!(entry.hostname, "localhost");
    assert_eq!(entry.comment, None);

    let entry = HostsManager::parse_hosts_line("127.0.0.1 localhost # comment").unwrap();
    assert_eq!(entry.hostname, "localhost");
    assert_eq!(entry.comment, Some("comment".to_string()));

    let entry = HostsManager::parse_hosts_line("127.0.0.1    localhost").unwrap();
    assert_eq!(entry.hostname, "localhost");

    let entry = HostsManager::parse_hosts_line("127.0.0.1\tlocalhost").unwrap();
    assert_eq!(entry.hostname, "localhost");

    let entry = HostsManager::parse_hosts_line("127.0.0.1 \t localhost").unwrap();
    assert_eq!(entry.hostname, "localhost");

    let entry = HostsManager::parse_hosts_line("  127.0.0.1 localhost").unwrap();
    assert_eq!(entry.hostname, "localhost");

    let entry = HostsManager::parse_hosts_line("127.0.0.1 localhost  ").unwrap();
    assert_eq!(entry.hostname, "localhost");
}

#[test]
fn test_environment_name_validation() {
    assert!(HostsManager::is_valid_hostname("dev"));
    assert!(HostsManager::is_valid_hostname("production"));
    assert!(HostsManager::is_valid_hostname("staging-1"));
    assert!(HostsManager::is_valid_hostname("test-environment"));

    assert!(!HostsManager::is_valid_hostname(""));
    assert!(!HostsManager::is_valid_hostname("invalid name"));
    assert!(!HostsManager::is_valid_hostname("invalid@name"));
    assert!(!HostsManager::is_valid_hostname("-invalid"));
    assert!(!HostsManager::is_valid_hostname("invalid-"));
    assert!(!HostsManager::is_valid_hostname("test_environment"));
}
