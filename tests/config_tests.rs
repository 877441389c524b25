use hostctl::config::{Config, Environment, HostEntry};
use hostctl::ip::IpAddress;

fn localhost_v4() -> IpAddress {
    IpAddress::V4([127, 0, 0, 1])
}

#[test]
fn test_host_entry_creation() {
    let ip = localhost_v4();
    let entry = HostEntry::new(ip, "localhost".to_string());

    assert_eq!(entry.ip, ip);
    assert_eq!(entry.hostname, "localhost");
    assert_eq!(entry.comment, None);
}

#[test]
fn test_host_entry_with_comment() {
    let ip = IpAddress::V4([192, 168, 1, 1]);
    let entry = HostEntry::new(ip, "router".to_string()).with_comment("Local router".to_string());

    assert_eq!(entry.comment, Some("Local router".to_string()));
}

#[test]
fn config_test_host_entry_to_line() {
    let ip = localhost_v4();
    let entry = HostEntry::new(ip, "localhost".to_string());

    assert_eq!(entry.to_line(), "127.0.0.1 localhost");

    let entry_with_comment = entry.with_comment("Local host".to_string());
    assert_eq!(entry_with_comment.to_line(), "127.0.0.1 localhost # Local host");
}

#[test]
fn test_ipv6_host_entry() {
    let ip = IpAddress::V6([0, 0, 0, 0, 0, 0, 0, 1]);
    let entry = HostEntry::new(ip, "ipv6-localhost".to_string());

    assert_eq!(entry.to_line(), "::1 ipv6-localhost");
}

#[test]
fn test_environment_creation() {
    let env = Environment::new("dev".to_string());

    assert_eq!(env.name, "dev");
    assert_eq!(env.description, None);
    assert!(env.entries.is_empty());
}

#[test]
fn test_environment_with_description() {
    let env =
        Environment::new("prod".to_string()).with_description("Production environment".to_string());

    assert_eq!(env.description, Some("Production environment".to_string()));
}

#[test]
fn test_environment_add_remove_entries() {
    let mut env = Environment::new("test".to_string());
    let entry = HostEntry::new(IpAddress::V4([10, 0, 0, 1]), "api.internal".to_string());

    env.add_entry(entry.clone());
    assert_eq!(env.entries.len(), 1);
    assert!(env.find_entry("api.internal").is_some());

    assert!(env.remove_entry("api.internal"));
    assert!(env.entries.is_empty());
    assert!(env.find_entry("api.internal").is_none());

    assert!(!env.remove_entry("nonexistent"));
}

#[test]
fn test_config_creation() {
    let config = Config::new();

    assert!(config.environments.is_empty());
    assert_eq!(config.current_environment, None);
}

#[test]
fn test_config_add_environment() {
    let mut config = Config::new();
    let env = Environment::new("staging".to_string());

    config.add_environment(env);
    assert_eq!(config.environments.len(), 1);
    assert!(config.get_environment("staging").is_some());
}

#[test]
fn test_config_remove_environment() {
    let mut config = Config::new();
    let env = Environment::new("qa".to_string());

    config.add_environment(env);
    assert!(config.remove_environment("qa"));
    assert!(config.environments.is_empty());
    assert!(config.get_environment("qa").is_none());

    assert!(!config.remove_environment("nonexistent"));
}

#[test]
fn test_config_environment_names() {
    let mut config = Config::new();

    config.add_environment(Environment::new("dev".to_string()));
    config.add_environment(Environment::new("prod".to_string()));

    let names: Vec<String> = config.environment_names();
    assert_eq!(names.len(), 2);
    assert!(names.contains(&"dev".to_string()));
    assert!(names.contains(&"prod".to_string()));
}

#[test]
fn test_config_current_environment_removal() {
    let mut config = Config::new();
    let env = Environment::new("current".to_string());

    config.add_environment(env);
    config.current_environment = Some("current".to_string());

    config.remove_environment("current");
    assert_eq!(config.current_environment, None);
}

#[test]
fn test_config_environment_operations() {
    let mut config = Config::new();

    config.add_environment(Environment::new("qa".to_string()));
    assert!(config.get_environment("qa").is_some());

    if let Some(env) = config.get_environment_mut("qa") {
        env.description = Some("Quality Assurance".to_string());
    }

    assert_eq!(
        config.get_environment("qa").unwrap().description,
        Some("Quality Assurance".to_string())
    );

    assert!(config.remove_environment("qa"));
    assert!(config.get_environment("qa").is_none());
}

#[test]
fn add_environment_replaces_same_name() {
    let mut config = Config::new();
    config.add_environment(Environment::new("dev".to_string()));
    config.add_environment(
        Environment::new("dev".to_string()).with_description("second".to_string()),
    );
    assert_eq!(config.environments.len(), 1);
    assert_eq!(
        config.get_environment("dev").unwrap().description,
        Some("second".to_string())
    );
}

#[test]
fn removing_inactive_environment_keeps_current() {
    let mut config = Config::new();
    config.add_environment(Environment::new("a".to_string()));
    config.add_environment(Environment::new("b".to_string()));
    config.current_environment = Some("a".to_string());
    assert!(config.remove_environment("b"));
    assert_eq!(config.current_environment, Some("a".to_string()));
    assert!(!config.remove_environment("b"));
    assert_eq!(config.current_environment, Some("a".to_string()));
}

#[test]
fn remove_entry_takes_only_first_duplicate() {
    let mut env = Environment::new("dup".to_string());
    env.add_entry(HostEntry::new(IpAddress::V4([10, 0, 0, 1]), "x".to_string()));
    env.add_entry(HostEntry::new(IpAddress::V4([10, 0, 0, 2]), "y".to_string()));
    env.add_entry(HostEntry::new(IpAddress::V4([10, 0, 0, 3]), "x".to_string()));
    assert!(env.remove_entry("x"));
    assert_eq!(env.entries.len(), 2);
    assert_eq!(env.entries[0].hostname, "y");
    assert_eq!(env.entries[1].ip, IpAddress::V4([10, 0, 0, 3]));
}

#[test]
fn remove_entry_absent_leaves_entries() {
    let mut env = Environment::new("e".to_string());
    env.add_entry(HostEntry::new(IpAddress::V4([10, 0, 0, 1]), "x".to_string()));
    assert!(!env.remove_entry("z"));
    assert_eq!(env.entries.len(), 1);
    assert_eq!(env.entries[0].hostname, "x");
}

#[test]
fn config_default_is_empty() {
    let config = Config::default();
    assert!(config.environments.is_empty());
    assert_eq!(config.current_environment, None);
}
