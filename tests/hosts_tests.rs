use hostctl::config::{Environment, HostEntry};
use hostctl::hosts::{ApplyAction, ApplyEvent, HostsManager};
use hostctl::ip::IpAddress;

#[test]
fn test_parse_hosts_line_valid() {
    let line = "127.0.0.1 localhost";
    let entry = HostsManager::parse_hosts_line(line).unwrap();

    assert_eq!(entry.ip, IpAddress::V4([127, 0, 0, 1]));
    assert_eq!(entry.hostname, "localhost");
    assert_eq!(entry.comment, None);
}

#[test]
fn test_parse_hosts_line_with_comment() {
    let line = "192.168.1.1 router # Local router";
    let entry = HostsManager::parse_hosts_line(line).unwrap();

    assert_eq!(entry.ip, IpAddress::V4([192, 168, 1, 1]));
    assert_eq!(entry.hostname, "router");
    assert_eq!(entry.comment, Some("Local router".to_string()));
}

#[test]
fn test_parse_hosts_line_ipv6() {
    let line = "::1 ipv6-localhost";
    let entry = HostsManager::parse_hosts_line(line).unwrap();

    assert_eq!(entry.ip, IpAddress::V6([0, 0, 0, 0, 0, 0, 0, 1]));
    assert_eq!(entry.hostname, "ipv6-localhost");
}

#[test]
fn test_parse_hosts_line_empty() {
    assert!(HostsManager::parse_hosts_line("").is_none());
    assert!(HostsManager::parse_hosts_line("   ").is_none());
}

#[test]
fn test_parse_hosts_line_comment_only() {
    assert!(HostsManager::parse_hosts_line("# This is a comment").is_none());
}

#[test]
fn test_parse_hosts_line_invalid() {
    assert!(HostsManager::parse_hosts_line("invalid line").is_none());
    assert!(HostsManager::parse_hosts_line("127.0.0.1").is_none());
}

#[test]
fn test_is_valid_hostname() {
    assert!(HostsManager::is_valid_hostname("localhost"));
    assert!(HostsManager::is_valid_hostname("example.com"));
    assert!(HostsManager::is_valid_hostname("sub.domain.example.com"));
    assert!(HostsManager::is_valid_hostname("my-server"));
    assert!(HostsManager::is_valid_hostname("server-1"));

    assert!(!HostsManager::is_valid_hostname(""));
    assert!(!HostsManager::is_valid_hostname("-invalid"));
    assert!(!HostsManager::is_valid_hostname("invalid-"));
    assert!(!HostsManager::is_valid_hostname("invalid..com"));
    assert!(!HostsManager::is_valid_hostname("invalid space.com"));
    assert!(!HostsManager::is_valid_hostname("a".repeat(254).as_str()));
}

#[test]
fn test_is_valid_ip() {
    assert!(HostsManager::is_valid_ip("127.0.0.1"));
    assert!(HostsManager::is_valid_ip("192.168.1.1"));
    assert!(HostsManager::is_valid_ip("::1"));
    assert!(HostsManager::is_valid_ip("2001:db8::1"));

    assert!(!HostsManager::is_valid_ip("256.256.256.256"));
    assert!(!HostsManager::is_valid_ip("invalid"));
    assert!(!HostsManager::is_valid_ip(""));
}

#[test]
fn test_separate_entries() {
    let content = r"127.0.0.1 localhost
192.168.1.1 router

# ===== hostctl managed entries =====
10.0.0.1 api.dev
10.0.0.2 db.dev
";

    let (system, managed) = HostsManager::separate_entries(content);

    assert_eq!(system.len(), 2);
    assert_eq!(managed.len(), 2);

    assert_eq!(system[0].hostname, "localhost");
    assert_eq!(system[1].hostname, "router");
    assert_eq!(managed[0].hostname, "api.dev");
    assert_eq!(managed[1].hostname, "db.dev");
}

#[test]
fn test_separate_entries_no_managed_section() {
    let content = r"127.0.0.1 localhost
192.168.1.1 router
";

    let (system, managed) = HostsManager::separate_entries(content);

    assert_eq!(system.len(), 2);
    assert_eq!(managed.len(), 0);
}

#[test]
fn hosts_test_host_entry_to_line() {
    let entry = HostEntry::new(IpAddress::V4([10, 0, 0, 1]), "api.example.com".to_string());

    assert_eq!(entry.to_line(), "10.0.0.1 api.example.com");

    let entry_with_comment = entry.with_comment("API server".to_string());
    assert_eq!(entry_with_comment.to_line(), "10.0.0.1 api.example.com # API server");
}

#[test]
fn test_parse_hosts_line_multiple_hostnames() {
    let line = "127.0.0.1 localhost localhost.localdomain";
    let entry = HostsManager::parse_hosts_line(line).unwrap();

    assert_eq!(entry.hostname, "localhost");
}

#[test]
fn test_parse_hosts_line_with_tabs() {
    let line = "127.0.0.1\tlocalhost\t# Local host";
    let entry = HostsManager::parse_hosts_line(line).unwrap();

    assert_eq!(entry.hostname, "localhost");
    assert_eq!(entry.comment, Some("Local host".to_string()));
}

#[test]
fn parse_line_scenarios() {
    assert!(HostsManager::parse_hosts_line("# just a comment").is_none());
    assert!(HostsManager::parse_hosts_line("not-an-ip hostname").is_none());
    let e = HostsManager::parse_hosts_line("127.0.0.1 host1 host2 # c").unwrap();
    assert_eq!(e.hostname, "host1");
    assert_eq!(e.comment, Some("c".to_string()));
}

#[test]
fn parse_line_empty_comment_is_kept() {
    let e = HostsManager::parse_hosts_line("10.0.0.1 box #").unwrap();
    assert_eq!(e.comment, Some(String::new()));
    let e = HostsManager::parse_hosts_line("10.0.0.1 box #   ").unwrap();
    assert_eq!(e.comment, Some(String::new()));
}

#[test]
fn parse_line_hash_glued_to_hostname() {
    let e = HostsManager::parse_hosts_line("10.0.0.1 box#note").unwrap();
    assert_eq!(e.hostname, "box");
    assert_eq!(e.comment, Some("note".to_string()));
    assert!(HostsManager::parse_hosts_line("10.0.0.1#x box").is_none());
}

#[test]
fn line_round_trip_on_values() {
    let entries = vec![
        HostEntry::new(IpAddress::V4([10, 1, 2, 3]), "api.dev".to_string()),
        HostEntry::new(IpAddress::V6([0x2001, 0xdb8, 0, 0, 0, 0, 0, 1]), "v6".to_string())
            .with_comment("a note".to_string()),
        HostEntry::new(IpAddress::V4([0, 0, 0, 0]), "zero".to_string())
            .with_comment(String::new()),
    ];
    for e in entries {
        let back = HostsManager::parse_hosts_line(&e.to_line()).unwrap();
        assert_eq!(back.ip, e.ip);
        assert_eq!(back.hostname, e.hostname);
        assert_eq!(back.comment, e.comment);
    }
}

#[test]
fn hostname_scenarios() {
    let label = "a".repeat(63);
    let name253 = format!("{label}.{label}.{label}.{}", "b".repeat(61));
    assert_eq!(name253.len(), 253);
    assert!(HostsManager::is_valid_hostname(&name253));
    let name254 = format!("{label}.{label}.{label}.{}", "b".repeat(62));
    assert!(!HostsManager::is_valid_hostname(&name254));
    assert!(!HostsManager::is_valid_hostname(&"a".repeat(64)));
    assert!(!HostsManager::is_valid_hostname("bad-"));
    assert!(!HostsManager::is_valid_hostname("-bad"));
    assert!(!HostsManager::is_valid_hostname("bad..name"));
    assert!(!HostsManager::is_valid_hostname("has space"));
    assert!(!HostsManager::is_valid_hostname("under_score"));
}

#[test]
fn hostname_accepts_unicode_letters() {
    assert!(HostsManager::is_valid_hostname("bücher.example"));
    assert!(!HostsManager::is_valid_hostname("bücher.€"));
}

#[test]
fn hostname_length_counts_bytes() {
    // 32 two-byte letters: 64 bytes in one label.
    assert!(!HostsManager::is_valid_hostname(&"é".repeat(32)));
    assert!(HostsManager::is_valid_hostname(&"é".repeat(31)));
}

#[test]
fn ip_scenarios() {
    assert!(HostsManager::is_valid_ip("255.255.255.255"));
    assert!(!HostsManager::is_valid_ip("256.0.0.0"));
    assert!(!HostsManager::is_valid_ip("192.168.1"));
    assert!(!HostsManager::is_valid_ip("not an ip"));
    assert!(!HostsManager::is_valid_ip("01.2.3.4"));
    assert!(!HostsManager::is_valid_ip("1.2.3.4:80"));
    assert!(HostsManager::is_valid_ip("1:2:3:4:5:6:7::"));
    assert!(HostsManager::is_valid_ip("::ffff:1.2.3.4"));
    assert!(!HostsManager::is_valid_ip("1.2.3.4::"));
    assert!(!HostsManager::is_valid_ip("12345::1"));
    assert!(HostsManager::is_valid_ip("ABCD::ef"));
}

#[test]
fn ip_parse_values() {
    let v = |s: &str| IpAddress::parse(s);
    assert_eq!(v("10.20.30.40"), Some(IpAddress::V4([10, 20, 30, 40])));
    assert_eq!(v("1::2"), Some(IpAddress::V6([1, 0, 0, 0, 0, 0, 0, 2])));
    assert_eq!(v("::"), Some(IpAddress::V6([0; 8])));
    assert_eq!(
        v("::ffff:1.2.3.4"),
        Some(IpAddress::V6([0, 0, 0, 0, 0, 0xffff, 0x0102, 0x0304]))
    );
    assert_eq!(v("1:2:3:4:5:6:7:8:9"), None);
}

#[test]
fn ip_text_values() {
    let t = |ip: IpAddress| ip.to_text();
    assert_eq!(t(IpAddress::V4([192, 168, 0, 10])), "192.168.0.10");
    assert_eq!(t(IpAddress::V6([0; 8])), "::");
    assert_eq!(t(IpAddress::V6([1, 0, 0, 2, 0, 0, 0, 3])), "1:0:0:2::3");
    assert_eq!(t(IpAddress::V6([1, 0, 0, 2, 0, 0, 3, 4])), "1::2:0:0:3:4");
    assert_eq!(t(IpAddress::V6([1, 0, 2, 3, 4, 5, 6, 7])), "1:0:2:3:4:5:6:7");
    assert_eq!(t(IpAddress::V6([0xfe80, 0, 0, 0, 0, 0, 0, 0xab])), "fe80::ab");
    assert_eq!(t(IpAddress::V6([0, 0, 0, 0, 0, 0xffff, 0xc0a8, 0x0101])), "::ffff:192.168.1.1");
}

#[test]
fn parse_content_reads_every_entry() {
    let content = "# c\n127.0.0.1 localhost\r\n\nbad line\n::1 ip6-localhost # loop\n10.0.0.1 last";
    let all = HostsManager::parse_hosts_content(content);
    assert_eq!(all.len(), 3);
    assert_eq!(all[0].hostname, "localhost");
    assert_eq!(all[1].comment, Some("loop".to_string()));
    assert_eq!(all[2].hostname, "last");
}

#[test]
fn render_keeps_foreign_and_replaces_managed() {
    let content = "# header\n127.0.0.1   localhost # lo\n\n# ===== hostctl managed entries =====\n10.0.0.9 old.dev\n";
    let mut env = Environment::new("dev".to_string());
    env.add_entry(HostEntry::new(IpAddress::V4([10, 0, 0, 1]), "api.dev".to_string()));
    env.add_entry(
        HostEntry::new(IpAddress::V4([10, 0, 0, 2]), "db.dev".to_string())
            .with_comment("db".to_string()),
    );
    let out = HostsManager::render_hosts(content, &env);
    assert_eq!(
        out,
        "127.0.0.1 localhost # lo\n\n# ===== hostctl managed entries =====\n10.0.0.1 api.dev\n10.0.0.2 db.dev # db\n"
    );
}

#[test]
fn render_empty_environment_keeps_separator() {
    let env = Environment::new("empty".to_string());
    let out = HostsManager::render_hosts("", &env);
    assert_eq!(out, "\n# ===== hostctl managed entries =====\n");
}

#[test]
fn invalid_hostnames_in_order() {
    let mut env = Environment::new("e".to_string());
    env.add_entry(HostEntry::new(IpAddress::V4([10, 0, 0, 1]), "ok".to_string()));
    env.add_entry(HostEntry::new(IpAddress::V4([10, 0, 0, 2]), "bad_one".to_string()));
    env.add_entry(HostEntry::new(IpAddress::V4([10, 0, 0, 3]), "-bad".to_string()));
    assert_eq!(
        HostsManager::invalid_hostnames(&env.entries),
        vec!["bad_one".to_string(), "-bad".to_string()]
    );
}

/// Drives the apply steps against an in-memory hosts file, recording what was done.
fn run_apply(env: &Environment, hosts: &mut String) -> (Vec<&'static str>, Option<Vec<String>>) {
    let mut done = Vec::new();
    let mut event = ApplyEvent::Start;
    loop {
        match HostsManager::apply_step(env, &event) {
            ApplyAction::Reject(bad) => return (done, Some(bad)),
            ApplyAction::Backup => {
                done.push("backup");
                event = ApplyEvent::BackedUp;
            }
            ApplyAction::ReadHosts => {
                done.push("read");
                event = ApplyEvent::HostsRead(hosts.clone());
            }
            ApplyAction::Write(text) => {
                done.push("write");
                *hosts = text;
                event = ApplyEvent::Written;
            }
            ApplyAction::Finish => return (done, None),
        }
    }
}

#[test]
fn apply_with_invalid_hostname_touches_nothing() {
    let mut env = Environment::new("e".to_string());
    env.add_entry(HostEntry::new(IpAddress::V4([10, 0, 0, 1]), "good".to_string()));
    env.add_entry(HostEntry::new(IpAddress::V4([10, 0, 0, 2]), "bad host".to_string()));
    let mut hosts = "127.0.0.1 localhost\n".to_string();
    let (done, rejected) = run_apply(&env, &mut hosts);
    assert!(done.is_empty());
    assert_eq!(rejected, Some(vec!["bad host".to_string()]));
    assert_eq!(hosts, "127.0.0.1 localhost\n");
}

#[test]
fn apply_valid_environment_backs_up_then_writes() {
    let mut env = Environment::new("e".to_string());
    env.add_entry(HostEntry::new(IpAddress::V4([10, 0, 0, 1]), "good".to_string()));
    let mut hosts = "127.0.0.1 localhost\n".to_string();
    let (done, rejected) = run_apply(&env, &mut hosts);
    assert_eq!(done, vec!["backup", "read", "write"]);
    assert_eq!(rejected, None);
    assert_eq!(
        hosts,
        "127.0.0.1 localhost\n\n# ===== hostctl managed entries =====\n10.0.0.1 good\n"
    );
}

#[test]
fn applying_twice_keeps_foreign_entries() {
    let content = "127.0.0.1 localhost\n::1 ip6-localhost # loop\n";
    let mut env = Environment::new("dev".to_string());
    env.add_entry(HostEntry::new(IpAddress::V4([10, 0, 0, 1]), "api.dev".to_string()));
    let once = HostsManager::render_hosts(content, &env);
    let twice = HostsManager::render_hosts(&once, &env);
    assert_eq!(once, twice);
    let (foreign, managed) = HostsManager::separate_entries(&once);
    assert_eq!(foreign.len(), 2);
    assert_eq!(foreign[1].comment, Some("loop".to_string()));
    assert_eq!(managed.len(), 1);
    assert_eq!(managed[0].hostname, "api.dev");
}

#[test]
fn check_hostname_with_given_answers() {
    // The answers stand for `char::is_alphanumeric` on each character.
    assert!(HostsManager::check_hostname("a-b.c", &vec![true, false, true, false, true]));
    assert!(!HostsManager::check_hostname("a-b.c", &vec![true, false, false, false, true]));
    assert!(!HostsManager::check_hostname("-ab", &vec![false, true, true]));
    assert!(!HostsManager::check_hostname("a..b", &vec![true, false, false, true]));
    assert!(!HostsManager::check_hostname("", &vec![]));
    assert!(HostsManager::check_hostname("x y", &vec![true, true, true]));
}

#[test]
fn names_with_space_or_underscore_are_rejected() {
    for name in ["a b", "a_b", "_", " ", "ok.na me", "x_.y"] {
        assert!(!HostsManager::is_valid_hostname(name));
    }
}
