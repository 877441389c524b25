//! What each command decides and prints, on a configuration held in memory.
use vstd::prelude::*;

use crate::config::{
    entry_line, has_env, has_host, opt_text, Config, Environment, HostEntry,
};
use crate::hosts::{invalid_hosts, texts_view, valid_hostname, HostsManager};
use crate::ip::{digit_chars, num_text, parse_ip, push_digit, IpAddress};

verus! {

/// Why a command fails.
#[derive(Debug, PartialEq, Eq)]
pub enum CommandError {
    /// No environment has this name.
    EnvironmentNotFound(String),
    /// An environment of this name exists already.
    EnvironmentExists(String),
    /// This is not a valid environment name.
    InvalidEnvironmentName(String),
    /// This is not an IP address.
    InvalidIp(String),
    /// This is not a valid hostname.
    InvalidHostname(String),
    /// The environment has no entry with this hostname.
    EntryNotFound { environment: String, hostname: String },
    /// The environment holds an entry with this invalid hostname.
    InvalidHostnameInEnvironment { environment: String, hostname: String },
}

fn push_count(out: &mut String, n: usize)
    ensures
        final(out)@ == old(out)@ + num_text(n as nat, 10),
    decreases n,
{
    if n < 10 {
        push_digit(out, n as u32);
        assert(num_text(n as nat, 10) =~= seq![digit_chars()[n as int]]);
    } else {
        push_count(out, n / 10);
        push_digit(out, (n % 10) as u32);
        assert(final(out)@ =~= old(out)@ + num_text(n as nat, 10));
    }
}

/// `prefix` followed by `s`.
fn prefixed(prefix: &str, s: &str) -> (r: String)
    ensures
        r@ == prefix@ + s@,
{
    let mut out = prefix.to_owned();
    out.append(s);
    out
}

/// The heading of the environment list.
pub open spec fn lit_environments() -> Seq<char> {
    seq!['E', 'n', 'v', 'i', 'r', 'o', 'n', 'm', 'e', 'n', 't', 's', ':']
}

/// The heading of the entry list.
pub open spec fn lit_entries() -> Seq<char> {
    seq!['E', 'n', 't', 'r', 'i', 'e', 's', ':']
}

/// The line that lists one environment: `  - <name>[ (current)]: <n> entries`.
pub open spec fn list_line(env: Environment, current: Option<Seq<char>>) -> Seq<char> {
    seq![' ', ' ', '-', ' '] + env.name@ + (if current == Some(env.name@) {
        seq![' ', '(', 'c', 'u', 'r', 'r', 'e', 'n', 't', ')']
    } else {
        seq![]
    }) + seq![':', ' '] + num_text(env.entries@.len(), 10) + seq![
        ' ',
        'e',
        'n',
        't',
        'r',
        'i',
        'e',
        's',
    ]
}

/// The description line where there is a description, then `Entries:`.
pub open spec fn detail_head(env: Environment) -> Seq<Seq<char>> {
    match env.description {
        Some(d) => seq![
            seq!['D', 'e', 's', 'c', 'r', 'i', 'p', 't', 'i', 'o', 'n', ':', ' '] + d@,
            lit_entries(),
        ],
        None => seq![lit_entries()],
    }
}

/// Each entry as an indented line.
pub open spec fn entry_lines(es: Seq<HostEntry>) -> Seq<Seq<char>> {
    es.map_values(|e: HostEntry| seq![' ', ' '] + entry_line(e@))
}

fn push_line(out: &mut Vec<String>, s: String)
    ensures
        texts_view(final(out)@) == texts_view(old(out)@).push(s@),
{
    let ghost before = out@;
    out.push(s);
    assert(texts_view(out@) =~= texts_view(before).push(s@));
}

/// Appends the description line, `Entries:`, and each entry.
fn push_details(out: &mut Vec<String>, env: &Environment)
    ensures
        texts_view(final(out)@) == texts_view(old(out)@) + detail_head(*env) + entry_lines(env.entries@),
{
    proof {
        reveal_strlit("Description: ");
        reveal_strlit("Entries:");
        reveal_strlit("  ");
    }
    let ghost start = texts_view(out@);
    assert(env.entries@.take(0) =~= seq![]);
    match &env.description {
        Some(d) => {
            let label = "Description: ";
            assert(label@ =~= seq!['D', 'e', 's', 'c', 'r', 'i', 'p', 't', 'i', 'o', 'n', ':', ' ']);
            push_line(out, prefixed(label, d.as_str()));
        },
        None => {},
    }
    let entries_label = "Entries:".to_owned();
    assert(entries_label@ =~= lit_entries());
    push_line(out, entries_label);
    assert(texts_view(out@) =~~= start + detail_head(*env));
    let mut k: usize = 0;
    while k < env.entries.len()
        invariant
            k <= env.entries@.len(),
            texts_view(out@) == start + detail_head(*env) + entry_lines(env.entries@.take(k as int)),
        decreases env.entries@.len() - k,
    {
        proof {
            reveal_strlit("  ");
        }
        let line = env.entries[k].to_line();
        let indent = "  ";
        assert(indent@ =~= seq![' ', ' ']);
        let shown = prefixed(indent, line.as_str());
        assert(shown@ =~= seq![' ', ' '] + entry_line(env.entries@[k as int]@));
        push_line(out, shown);
        assert(entry_lines(env.entries@.take(k as int + 1)) =~= entry_lines(
            env.entries@.take(k as int),
        ).push(seq![' ', ' '] + entry_line(env.entries@[k as int]@)));
        k = k + 1;
    }
    assert(env.entries@.take(env.entries@.len() as int) =~= env.entries@);
}

/// What `list` prints: a line per environment, its entry count, and which is
/// active.
pub fn list_lines(config: &Config) -> (r: Vec<String>)
    ensures
        config.environments@.len() == 0 ==> texts_view(r@) == seq![
            seq![
                'N', 'o', ' ', 'e', 'n', 'v', 'i', 'r', 'o', 'n', 'm', 'e', 'n', 't', 's', ' ',
                'c', 'o', 'n', 'f', 'i', 'g', 'u', 'r', 'e', 'd', '.',
            ],
        ],
        config.environments@.len() > 0 ==> texts_view(r@) == seq![lit_environments()]
            + config.environments@.map_values(
            |e: Environment| list_line(e, opt_text(config.current_environment)),
        ),
{
    let mut out: Vec<String> = Vec::new();
    assert(texts_view(out@) =~= Seq::<Seq<char>>::empty());
    proof {
        reveal_strlit("No environments configured.");
        reveal_strlit("Environments:");
    }
    if config.environments.len() == 0 {
        let msg = "No environments configured.".to_owned();
        assert(msg@ =~= seq![
            'N', 'o', ' ', 'e', 'n', 'v', 'i', 'r', 'o', 'n', 'm', 'e', 'n', 't', 's', ' ', 'c',
            'o', 'n', 'f', 'i', 'g', 'u', 'r', 'e', 'd', '.',
        ]);
        push_line(&mut out, msg);
        assert(texts_view(out@) =~~= seq![
            seq![
                'N', 'o', ' ', 'e', 'n', 'v', 'i', 'r', 'o', 'n', 'm', 'e', 'n', 't', 's', ' ',
                'c', 'o', 'n', 'f', 'i', 'g', 'u', 'r', 'e', 'd', '.',
            ],
        ]);
        return out;
    }
    let head = "Environments:".to_owned();
    assert(head@ =~= lit_environments());
    push_line(&mut out, head);
    let ghost cur = opt_text(config.current_environment);
    let ghost f = |e: Environment| list_line(e, cur);
    assert(texts_view(out@) =~~= seq![lit_environments()]);
    let mut k: usize = 0;
    while k < config.environments.len()
        invariant
            k <= config.environments@.len(),
            cur == opt_text(config.current_environment),
            f == (|e: Environment| list_line(e, cur)),
            texts_view(out@) == seq![lit_environments()] + config.environments@.take(
                k as int,
            ).map_values(f),
        decreases config.environments@.len() - k,
    {
        proof {
            reveal_strlit("  - ");
            reveal_strlit(" (current)");
            reveal_strlit(": ");
            reveal_strlit(" entries");
        }
        let env = &config.environments[k];
        let mut line = "  - ".to_owned();
        line.append(env.name.as_str());
        let active = match &config.current_environment {
            Some(c) => *c == env.name,
            None => false,
        };
        if active {
            line.append(" (current)");
        }
        line.append(": ");
        push_count(&mut line, env.entries.len());
        line.append(" entries");
        assert(line@ =~= list_line(*env, cur));
        push_line(&mut out, line);
        assert(config.environments@.take(k as int + 1).map_values(f) =~= config.environments@.take(
            k as int,
        ).map_values(f).push(list_line(*env, cur)));
        k = k + 1;
    }
    assert(config.environments@.take(config.environments@.len() as int) =~= config.environments@);
    out
}


/// What `show` prints for an environment that exists.
pub open spec fn show_text(env: Environment) -> Seq<Seq<char>> {
    seq![seq!['E', 'n', 'v', 'i', 'r', 'o', 'n', 'm', 'e', 'n', 't', ':', ' '] + env.name@]
        + detail_head(env) + if env.entries@.len() == 0 {
        seq![seq![' ', ' ', '(', 'n', 'o', ' ', 'e', 'n', 't', 'r', 'i', 'e', 's', ')']]
    } else {
        entry_lines(env.entries@)
    }
}

/// What `current` prints for an active environment that exists.
pub open spec fn current_text(env: Environment) -> Seq<Seq<char>> {
    seq![
        seq![
            'C', 'u', 'r', 'r', 'e', 'n', 't', ' ', 'e', 'n', 'v', 'i', 'r', 'o', 'n', 'm', 'e',
            'n', 't', ':', ' ',
        ] + env.name@,
    ] + detail_head(env) + entry_lines(env.entries@)
}

/// What `current` prints when no environment is active.
pub open spec fn no_current_text() -> Seq<char> {
    seq![
        'N', 'o', ' ', 'e', 'n', 'v', 'i', 'r', 'o', 'n', 'm', 'e', 'n', 't', ' ', 'i', 's', ' ',
        'c', 'u', 'r', 'r', 'e', 'n', 't', 'l', 'y', ' ', 'a', 'c', 't', 'i', 'v', 'e', '.',
    ]
}

/// What `current` prints when the active environment does not exist.
pub open spec fn missing_current_text(name: Seq<char>) -> Seq<char> {
    seq![
        'C', 'u', 'r', 'r', 'e', 'n', 't', ' ', 'e', 'n', 'v', 'i', 'r', 'o', 'n', 'm', 'e', 'n',
        't', ' ', '\'',
    ] + name + seq!['\'', ' ', 'n', 'o', 't', ' ', 'f', 'o', 'u', 'n', 'd', '.']
}

/// Whether `r` is the error that no environment is named `name`.
pub open spec fn is_not_found<T>(r: Result<T, CommandError>, name: Seq<char>) -> bool {
    match r {
        Err(CommandError::EnvironmentNotFound(n)) => n@ == name,
        _ => false,
    }
}

/// What `show` prints for the environment named `name`.
pub fn show_lines(config: &Config, name: &str) -> (r: Result<Vec<String>, CommandError>)
    ensures
        !has_env(config.environments@, name@) ==> is_not_found(r, name@),
        has_env(config.environments@, name@) ==> match r {
            Ok(lines) => exists|i: int|
                0 <= i < config.environments@.len() && config.environments@[i].name@ == name@
                    && texts_view(lines@) == show_text(config.environments@[i]),
            Err(_) => false,
        },
{
    match config.get_environment(name) {
        None => Err(CommandError::EnvironmentNotFound(name.to_owned())),
        Some(env) => {
            let mut out: Vec<String> = Vec::new();
            assert(texts_view(out@) =~= Seq::<Seq<char>>::empty());
            let label = "Environment: ";
            proof {
                reveal_strlit("Environment: ");
                reveal_strlit("  (no entries)");
            }
            assert(label@ =~= seq!['E', 'n', 'v', 'i', 'r', 'o', 'n', 'm', 'e', 'n', 't', ':', ' ']);
            push_line(&mut out, prefixed(label, name));
            push_details(&mut out, env);
            if env.entries.len() == 0 {
                let none = "  (no entries)".to_owned();
                assert(none@ =~= seq![' ', ' ', '(', 'n', 'o', ' ', 'e', 'n', 't', 'r', 'i', 'e', 's', ')']);
                assert(entry_lines(env.entries@) =~= seq![]);
                push_line(&mut out, none);
            }
            assert(texts_view(out@) =~~= show_text(*env));
            Ok(out)
        },
    }
}

/// What `current` prints.
pub fn current_lines(config: &Config) -> (r: Vec<String>)
    ensures
        config.current_environment is None ==> texts_view(r@) == seq![no_current_text()],
        config.current_environment is Some && !has_env(
            config.environments@,
            config.current_environment->0@,
        ) ==> texts_view(r@) == seq![missing_current_text(config.current_environment->0@)],
        config.current_environment is Some && has_env(
            config.environments@,
            config.current_environment->0@,
        ) ==> exists|i: int|
            0 <= i < config.environments@.len() && config.environments@[i].name@
                == config.current_environment->0@ && texts_view(r@) == current_text(
                config.environments@[i],
            ),
{
    let mut out: Vec<String> = Vec::new();
    assert(texts_view(out@) =~= Seq::<Seq<char>>::empty());
    proof {
        reveal_strlit("No environment is currently active.");
        reveal_strlit("Current environment '");
        reveal_strlit("' not found.");
        reveal_strlit("Current environment: ");
    }
    match &config.current_environment {
        None => {
            let msg = "No environment is currently active.".to_owned();
            assert(msg@ =~= no_current_text());
            push_line(&mut out, msg);
            assert(texts_view(out@) =~~= seq![no_current_text()]);
        },
        Some(name) => match config.get_environment(name.as_str()) {
            None => {
                let mut msg = "Current environment '".to_owned();
                msg.append(name.as_str());
                msg.append("' not found.");
                assert(msg@ =~= missing_current_text(name@));
                push_line(&mut out, msg);
                assert(texts_view(out@) =~~= seq![missing_current_text(name@)]);
            },
            Some(env) => {
                let label = "Current environment: ";
                assert(label@ =~= seq![
                    'C', 'u', 'r', 'r', 'e', 'n', 't', ' ', 'e', 'n', 'v', 'i', 'r', 'o', 'n', 'm',
                    'e', 'n', 't', ':', ' ',
                ]);
                push_line(&mut out, prefixed(label, name.as_str()));
                push_details(&mut out, env);
                assert(texts_view(out@) =~~= current_text(*env));
            },
        },
    }
    out
}

/// Creates the environment `name`, with `description` where given. Refuses a
/// name that is not a valid hostname, and a name that is taken.
pub fn create_environment(config: &mut Config, name: &str, description: Option<String>) -> (r:
    Result<(), CommandError>)
    requires
        old(config).wf(),
    ensures
        final(config).wf(),
        old(config).current_exists() ==> final(config).current_exists(),
        !valid_hostname(name@) ==> match r {
            Err(CommandError::InvalidEnvironmentName(n)) => n@ == name@,
            _ => false,
        },
        valid_hostname(name@) && has_env(old(config).environments@, name@) ==> match r {
            Err(CommandError::EnvironmentExists(n)) => n@ == name@,
            _ => false,
        },
        r is Err ==> *final(config) == *old(config),
        r is Ok <==> valid_hostname(name@) && !has_env(old(config).environments@, name@),
        r is Ok ==> final(config).current_environment == old(config).current_environment
            && final(config).environments@.len() == old(config).environments@.len() + 1
            && final(config).environments@.drop_last() == old(config).environments@ && ({
            let e = final(config).environments@.last();
            e.name@ == name@ && e.description == description && e.entries@.len() == 0
        }),
{
    if !HostsManager::is_valid_hostname(name) {
        return Err(CommandError::InvalidEnvironmentName(name.to_owned()));
    }
    if config.get_environment(name).is_some() {
        return Err(CommandError::EnvironmentExists(name.to_owned()));
    }
    let mut env = Environment::new(name.to_owned());
    match description {
        Some(d) => {
            env = env.with_description(d);
        },
        None => {},
    }
    let ghost before = config.environments@;
    config.add_environment(env);
    assert(config.environments@.drop_last() =~= before);
    Ok(())
}

/// Removes the environment `name`.
pub fn delete_environment(config: &mut Config, name: &str) -> (r: Result<(), CommandError>)
    requires
        old(config).wf(),
    ensures
        final(config).wf(),
        r is Ok <==> has_env(old(config).environments@, name@),
        r is Err ==> is_not_found(r, name@) && final(config).environments@ == old(
            config,
        ).environments@ && final(config).current_environment == old(config).current_environment,
        r is Ok ==> !has_env(final(config).environments@, name@)
            && final(config).environments@.len() + 1 == old(config).environments@.len(),
        r is Ok ==> exists|i: int|
            0 <= i < old(config).environments@.len() && old(config).environments@[i].name@
                == name@ && final(config).environments@ == old(config).environments@.remove(i),
        final(config).current_environment == (if r is Ok && opt_text(
            old(config).current_environment,
        ) == Some(name@) {
            None
        } else {
            old(config).current_environment
        }),
        old(config).current_exists() ==> final(config).current_exists(),
{
    if config.remove_environment(name) {
        proof {
            let old_envs = old(config).environments@;
            let i = choose|i: int|
                0 <= i < old_envs.len() && old_envs[i].name@ == name@ && config.environments@
                    == old_envs.remove(i);
            assert forall|j: int| 0 <= j < config.environments@.len() implies config.environments@[j].name@
                != name@ by {
                if j < i {
                    assert(config.environments@[j] == old_envs[j]);
                } else {
                    assert(config.environments@[j] == old_envs[j + 1]);
                }
            }
        }
        Ok(())
    } else {
        Err(CommandError::EnvironmentNotFound(name.to_owned()))
    }
}

/// Adds the entry `ip hostname [# comment]` to the environment `environment`.
/// Refuses text that is not an address, a hostname that is not valid, and an
/// environment that does not exist, in that order.
pub fn add_host_entry(
    config: &mut Config,
    environment: &str,
    ip: &str,
    hostname: &str,
    comment: Option<String>,
) -> (r: Result<(), CommandError>)
    requires
        old(config).wf(),
    ensures
        final(config).wf(),
        final(config).current_environment == old(config).current_environment,
        old(config).current_exists() ==> final(config).current_exists(),
        r is Err ==> *final(config) == *old(config),
        parse_ip(ip@) is None ==> match r {
            Err(CommandError::InvalidIp(t)) => t@ == ip@,
            _ => false,
        },
        parse_ip(ip@) is Some && !valid_hostname(hostname@) ==> match r {
            Err(CommandError::InvalidHostname(h)) => h@ == hostname@,
            _ => false,
        },
        parse_ip(ip@) is Some && valid_hostname(hostname@) && !has_env(
            old(config).environments@,
            environment@,
        ) ==> is_not_found(r, environment@),
        r is Ok <==> parse_ip(ip@) is Some && valid_hostname(hostname@) && has_env(
            old(config).environments@,
            environment@,
        ),
        r is Ok ==> exists|i: int|
            0 <= i < old(config).environments@.len() && old(config).environments@[i].name@
                == environment@ && final(config).environments@.len()
                == old(config).environments@.len() && (forall|j: int|
                0 <= j < old(config).environments@.len() && j != i
                    ==> final(config).environments@[j] == old(config).environments@[j]) && ({
                let e = final(config).environments@[i];
                let o = old(config).environments@[i];
                e.name == o.name && e.description == o.description && e.entries@.drop_last()
                    == o.entries@ && e.entries@.len() == o.entries@.len() + 1
                    && e.entries@.last().ip == parse_ip(ip@)->0 && e.entries@.last().hostname@
                    == hostname@ && e.entries@.last().comment == comment
            }),
{
    let addr = match IpAddress::parse(ip) {
        Some(a) => a,
        None => {
            return Err(CommandError::InvalidIp(ip.to_owned()));
        },
    };
    if !HostsManager::is_valid_hostname(hostname) {
        return Err(CommandError::InvalidHostname(hostname.to_owned()));
    }
    let mut entry = HostEntry::new(addr, hostname.to_owned());
    match comment {
        Some(c) => {
            entry = entry.with_comment(c);
        },
        None => {},
    }
    let i = match config.position_of(environment) {
        None => {
            return Err(CommandError::EnvironmentNotFound(environment.to_owned()));
        },
        Some(i) => i,
    };
    let ghost before = config.environments@;
    let mut env = config.environments.remove(i);
    env.add_entry(entry);
    config.environments.insert(i, env);
    proof {
        assert(config.environments@ =~= before.update(i as int, config.environments@[i as int]));
        assert(config.environments@[i as int].name == before[i as int].name);
        assert forall|j: int| 0 <= j < before.len() implies #[trigger] config.environments@[j].name
            == before[j].name by {
            if j != i {
                assert(config.environments@[j] == before[j]);
            }
        }
        if old(config).current_exists() && config.current_environment is Some {
            let c = config.current_environment->0;
            let j = choose|j: int| 0 <= j < before.len() && before[j].name@ == c@;
            assert(config.environments@[j].name == before[j].name);
        }
    }
    Ok(())
}

/// Removes the first entry with hostname `hostname` from the environment
/// `environment`. Refuses an environment that does not exist, and one without
/// such an entry.
pub fn remove_host_entry(config: &mut Config, environment: &str, hostname: &str) -> (r: Result<
    (),
    CommandError,
>)
    requires
        old(config).wf(),
    ensures
        final(config).wf(),
        final(config).current_environment == old(config).current_environment,
        old(config).current_exists() ==> final(config).current_exists(),
        r is Err ==> *final(config) == *old(config),
        !has_env(old(config).environments@, environment@) ==> is_not_found(r, environment@),
        r is Ok <==> exists|i: int|
            0 <= i < old(config).environments@.len() && old(config).environments@[i].name@
                == environment@ && has_host(old(config).environments@[i].entries@, hostname@),
        forall|i: int|
            0 <= i < old(config).environments@.len() && old(config).environments@[i].name@
                == environment@ && !has_host(old(config).environments@[i].entries@, hostname@)
                ==> match r {
                Err(CommandError::EntryNotFound { environment: en, hostname: h }) => en@
                    == environment@ && h@ == hostname@,
                _ => false,
            },
        r is Ok ==> exists|i: int|
            0 <= i < old(config).environments@.len() && old(config).environments@[i].name@
                == environment@ && final(config).environments@.len()
                == old(config).environments@.len() && (forall|j: int|
                0 <= j < old(config).environments@.len() && j != i
                    ==> final(config).environments@[j] == old(config).environments@[j]) && ({
                let e = final(config).environments@[i];
                let o = old(config).environments@[i];
                e.name == o.name && e.description == o.description && exists|k: int|
                    crate::config::first_with_host(o.entries@, hostname@, k) && e.entries@
                        == o.entries@.remove(k)
            }) && final(config).current_environment == old(config).current_environment,
{
    let i = match config.position_of(environment) {
        None => {
            return Err(CommandError::EnvironmentNotFound(environment.to_owned()));
        },
        Some(i) => i,
    };
    if config.environments[i].position_of(hostname).is_none() {
        return Err(
            CommandError::EntryNotFound {
                environment: environment.to_owned(),
                hostname: hostname.to_owned(),
            },
        );
    }
    let ghost o = config.environments@[i as int];
    assert(has_host(o.entries@, hostname@));
    assert(forall|j: int|
        0 <= j < config.environments@.len() && config.environments@[j].name@ == environment@
            ==> j == i);
    let ghost old_envs = config.environments@;
    match config.get_environment_mut(environment) {
        None => Ok(()),
        Some(env) => {
            let removed = env.remove_entry(hostname);
            proof {
                let e = config.environments@[i as int];
                assert(removed);
                assert(e.name == o.name && e.description == o.description);
                assert(forall|j: int|
                    0 <= j < old_envs.len() && j != i ==> config.environments@[j] == old_envs[j]);
                let k = choose|k: int|
                    crate::config::first_with_host(o.entries@, hostname@, k) && e.entries@
                        == o.entries@.remove(k);
                assert(crate::config::first_with_host(o.entries@, hostname@, k) && e.entries@
                    == o.entries@.remove(k));
            }
            Ok(())
        },
    }
}

/// Checks that the environment `name` can be switched to: it exists, and all its
/// hostnames are valid (else the first invalid one is named).
pub fn check_switch(config: &Config, name: &str) -> (r: Result<(), CommandError>)
    requires
        config.wf(),
    ensures
        !has_env(config.environments@, name@) ==> is_not_found(r, name@),
        r is Ok <==> exists|i: int|
            0 <= i < config.environments@.len() && config.environments@[i].name@ == name@
                && invalid_hosts(config.environments@[i].entries@).len() == 0,
        forall|i: int|
            0 <= i < config.environments@.len() && config.environments@[i].name@ == name@
                && invalid_hosts(config.environments@[i].entries@).len() > 0 ==> match r {
                Err(CommandError::InvalidHostnameInEnvironment { environment: en, hostname: h }) =>
                    en@ == name@ && h@ == invalid_hosts(config.environments@[i].entries@)[0],
                _ => false,
            },
{
    match config.position_of(name) {
        None => Err(CommandError::EnvironmentNotFound(name.to_owned())),
        Some(k) => {
            let env = &config.environments[k];
            assert(forall|i: int|
                0 <= i < config.environments@.len() && config.environments@[i].name@ == name@
                    ==> i == k);
            let bad = HostsManager::invalid_hostnames(&env.entries);
            if bad.len() > 0 {
                Err(
                    CommandError::InvalidHostnameInEnvironment {
                        environment: name.to_owned(),
                        hostname: bad[0].clone(),
                    },
                )
            } else {
                Ok(())
            }
        },
    }
}

/// Makes the environment `name` the active one. Refuses a name that no
/// environment has.
pub fn activate(config: &mut Config, name: &str) -> (r: Result<(), CommandError>)
    ensures
        r is Ok <==> has_env(old(config).environments@, name@),
        r is Err ==> is_not_found(r, name@) && *final(config) == *old(config),
        r is Ok ==> opt_text(final(config).current_environment) == Some(name@)
            && final(config).environments == old(config).environments
            && final(config).current_exists(),
{
    if config.position_of(name).is_none() {
        return Err(CommandError::EnvironmentNotFound(name.to_owned()));
    }
    config.current_environment = Some(name.to_owned());
    Ok(())
}

} // verus!
