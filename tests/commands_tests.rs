use hostctl::commands::{
    activate,
    check_switch, create_environment, current_lines, delete_environment, list_lines,
    remove_host_entry, show_lines, add_host_entry, CommandError,
};
use hostctl::config::{Config, Environment, HostEntry};
use hostctl::ip::IpAddress;
use hostctl::storage::ConfigStorage;

fn sample() -> Config {
    let mut config = Config::new();
    let mut dev = Environment::new("dev".to_string()).with_description("Development".to_string());
    dev.add_entry(HostEntry::new(IpAddress::V4([10, 0, 0, 1]), "api.dev".to_string()));
    dev.add_entry(
        HostEntry::new(IpAddress::V4([10, 0, 0, 2]), "db.dev".to_string())
            .with_comment("db".to_string()),
    );
    config.add_environment(dev);
    config.add_environment(Environment::new("prod".to_string()));
    config
}

#[test]
fn list_lines_empty_and_full() {
    assert_eq!(list_lines(&Config::new()), vec!["No environments configured.".to_string()]);
    let mut config = sample();
    config.current_environment = Some("prod".to_string());
    assert_eq!(
        list_lines(&config),
        vec![
            "Environments:".to_string(),
            "  - dev: 2 entries".to_string(),
            "  - prod (current): 0 entries".to_string(),
        ]
    );
}

#[test]
fn show_lines_values() {
    let config = sample();
    assert_eq!(
        show_lines(&config, "dev").unwrap(),
        vec![
            "Environment: dev".to_string(),
            "Description: Development".to_string(),
            "Entries:".to_string(),
            "  10.0.0.1 api.dev".to_string(),
            "  10.0.0.2 db.dev # db".to_string(),
        ]
    );
    assert_eq!(
        show_lines(&config, "prod").unwrap(),
        vec![
            "Environment: prod".to_string(),
            "Entries:".to_string(),
            "  (no entries)".to_string(),
        ]
    );
    assert_eq!(
        show_lines(&config, "nope"),
        Err(CommandError::EnvironmentNotFound("nope".to_string()))
    );
}

#[test]
fn current_lines_values() {
    let mut config = sample();
    assert_eq!(current_lines(&config), vec!["No environment is currently active.".to_string()]);
    config.current_environment = Some("gone".to_string());
    assert_eq!(current_lines(&config), vec!["Current environment 'gone' not found.".to_string()]);
    config.current_environment = Some("prod".to_string());
    assert_eq!(
        current_lines(&config),
        vec!["Current environment: prod".to_string(), "Entries:".to_string()]
    );
}

#[test]
fn create_environment_errors_and_success() {
    let mut config = sample();
    assert_eq!(
        create_environment(&mut config, "bad name", None),
        Err(CommandError::InvalidEnvironmentName("bad name".to_string()))
    );
    assert_eq!(
        create_environment(&mut config, "dev", None),
        Err(CommandError::EnvironmentExists("dev".to_string()))
    );
    assert_eq!(create_environment(&mut config, "qa", Some("QA".to_string())), Ok(()));
    let qa = config.get_environment("qa").unwrap();
    assert_eq!(qa.description, Some("QA".to_string()));
    assert!(qa.entries.is_empty());
    assert_eq!(config.environments.len(), 3);
}

#[test]
fn delete_environment_errors_and_success() {
    let mut config = sample();
    assert_eq!(
        delete_environment(&mut config, "qa"),
        Err(CommandError::EnvironmentNotFound("qa".to_string()))
    );
    assert_eq!(delete_environment(&mut config, "dev"), Ok(()));
    assert!(config.get_environment("dev").is_none());
}

#[test]
fn add_host_entry_errors_and_success() {
    let mut config = sample();
    assert_eq!(
        add_host_entry(&mut config, "prod", "300.1.1.1", "x", None),
        Err(CommandError::InvalidIp("300.1.1.1".to_string()))
    );
    assert_eq!(
        add_host_entry(&mut config, "prod", "10.1.1.1", "x_y", None),
        Err(CommandError::InvalidHostname("x_y".to_string()))
    );
    assert_eq!(
        add_host_entry(&mut config, "qa", "10.1.1.1", "x", None),
        Err(CommandError::EnvironmentNotFound("qa".to_string()))
    );
    assert_eq!(add_host_entry(&mut config, "prod", "fe80::1", "x", Some("c".to_string())), Ok(()));
    let prod = config.get_environment("prod").unwrap();
    assert_eq!(prod.entries.len(), 1);
    assert_eq!(prod.entries[0].ip, IpAddress::V6([0xfe80, 0, 0, 0, 0, 0, 0, 1]));
    assert_eq!(prod.entries[0].comment, Some("c".to_string()));
}

#[test]
fn remove_host_entry_errors_and_success() {
    let mut config = sample();
    assert_eq!(
        remove_host_entry(&mut config, "qa", "api.dev"),
        Err(CommandError::EnvironmentNotFound("qa".to_string()))
    );
    assert_eq!(
        remove_host_entry(&mut config, "dev", "web.dev"),
        Err(CommandError::EntryNotFound {
            environment: "dev".to_string(),
            hostname: "web.dev".to_string()
        })
    );
    assert_eq!(remove_host_entry(&mut config, "dev", "api.dev"), Ok(()));
    let dev = config.get_environment("dev").unwrap();
    assert_eq!(dev.entries.len(), 1);
    assert_eq!(dev.entries[0].hostname, "db.dev");
}

#[test]
fn check_switch_values() {
    let mut config = sample();
    assert_eq!(check_switch(&config, "dev"), Ok(()));
    assert_eq!(
        check_switch(&config, "qa"),
        Err(CommandError::EnvironmentNotFound("qa".to_string()))
    );
    config
        .get_environment_mut("prod")
        .unwrap()
        .add_entry(HostEntry::new(IpAddress::V4([1, 1, 1, 1]), "no_good".to_string()));
    assert_eq!(
        check_switch(&config, "prod"),
        Err(CommandError::InvalidHostnameInEnvironment {
            environment: "prod".to_string(),
            hostname: "no_good".to_string()
        })
    );
}

#[test]
fn test_config_dir_paths() {
    let config_dir = ConfigStorage::get_config_dir_path();
    let config_path = ConfigStorage::get_config_path();

    assert!(config_path.ends_with("config.yaml"));
    assert_eq!(
        std::path::Path::new(&config_path).parent().unwrap(),
        std::path::Path::new(&config_dir)
    );
}

#[test]
fn config_dir_for_home_values() {
    assert_eq!(
        ConfigStorage::config_dir_in(Some("/home/alice".to_string())),
        "/home/alice/.config/hostctl"
    );
    assert_eq!(ConfigStorage::config_dir_in(Some("/".to_string())), "/.config/hostctl");
    assert_eq!(ConfigStorage::config_dir_in(None), "./.config/hostctl");
    assert_eq!(
        ConfigStorage::config_path_in(Some("/root/".to_string())),
        "/root/.config/hostctl/config.yaml"
    );
}

#[test]
fn backup_name_is_padded() {
    assert_eq!(
        hostctl::hosts::HostsManager::backup_file_name(2024, 1, 15, 14, 30, 22),
        "hosts.backup.20240115_143022"
    );
    assert_eq!(
        hostctl::hosts::HostsManager::backup_file_name(987, 12, 3, 0, 5, 9),
        "hosts.backup.09871203_000509"
    );
}

#[test]
fn hosts_path_is_etc_hosts() {
    assert_eq!(hostctl::hosts::HostsManager::get_hosts_path(), "/etc/hosts");
}

#[test]
fn activate_values() {
    let mut config = sample();
    assert_eq!(
        activate(&mut config, "qa"),
        Err(CommandError::EnvironmentNotFound("qa".to_string()))
    );
    assert_eq!(config.current_environment, None);
    assert_eq!(activate(&mut config, "prod"), Ok(()));
    assert_eq!(config.current_environment, Some("prod".to_string()));
    assert_eq!(config.environments.len(), 2);
}

#[test]
fn delete_environment_clears_only_the_active_one() {
    let mut config = sample();
    config.current_environment = Some("dev".to_string());
    assert_eq!(delete_environment(&mut config, "prod"), Ok(()));
    assert_eq!(config.current_environment, Some("dev".to_string()));
    assert!(config.get_environment("dev").is_some());
    assert_eq!(delete_environment(&mut config, "dev"), Ok(()));
    assert_eq!(config.current_environment, None);
}

#[test]
fn entry_commands_keep_the_active_environment() {
    let mut config = sample();
    config.current_environment = Some("dev".to_string());
    assert_eq!(add_host_entry(&mut config, "prod", "10.9.9.9", "web", None), Ok(()));
    assert_eq!(config.current_environment, Some("dev".to_string()));
    assert_eq!(remove_host_entry(&mut config, "dev", "db.dev"), Ok(()));
    assert_eq!(config.current_environment, Some("dev".to_string()));
}
