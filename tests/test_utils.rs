use hostctl::hosts::HostsManager;

/// Whether each line of `content` is blank, a comment, or an address-looking
/// word followed by a hostname.
fn validate_hosts_format(content: &str) -> bool {
    for line in content.lines() {
        let trimmed = line.trim();
        if trimmed.is_empty() || trimmed.starts_with('#') {
            continue;
        }
        let parts: Vec<&str> = trimmed.split_whitespace().collect();
        if parts.len() < 2 {
            return false;
        }
        let ip_part = parts[0];
        if !ip_part.contains('.') && !ip_part.contains(':') {
            return false;
        }
    }
    true
}

/// Number of lines of `content` that are neither blank nor comments.
fn count_host_entries(content: &str) -> usize {
    content
        .lines()
        .filter(|line| {
            let trimmed = line.trim();
            !trimmed.is_empty() && !trimmed.starts_with('#')
        })
        .count()
}

#[test]
fn test_validate_hosts_format() {
    let valid_content = "127.0.0.1 localhost\n::1 ip6-localhost";
    assert!(validate_hosts_format(valid_content));

    let invalid_content = "invalid-format";
    assert!(!validate_hosts_format(invalid_content));
}

#[test]
fn test_count_host_entries() {
    let content = r"# Comment line
127.0.0.1 localhost

# Another comment
::1 ip6-localhost
";

    assert_eq!(count_host_entries(content), 2);
}

#[test]
fn counted_lines_match_parsed_entries() {
    let content = "# Comment line\n127.0.0.1 localhost\n\n# Another comment\n::1 ip6-localhost\n";
    assert_eq!(HostsManager::parse_hosts_content(content).len(), count_host_entries(content));
}
