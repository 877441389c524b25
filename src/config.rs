//! Host entries, environments that group them, and the configuration that holds
//! the environments.
use vstd::prelude::*;

use crate::ip::{ip_text, IpAddress};

verus! {

/// One line of a hosts file: an address, a hostname and an optional comment.
#[derive(Clone, Debug)]
pub struct HostEntry {
    pub ip: IpAddress,
    pub hostname: String,
    pub comment: Option<String>,
}

/// What a `HostEntry` holds, as plain values.
pub struct HostEntryView {
    pub ip: IpAddress,
    pub hostname: Seq<char>,
    pub comment: Option<Seq<char>>,
}

/// The characters of an optional string.
pub open spec fn opt_text(o: Option<String>) -> Option<Seq<char>> {
    match o {
        Some(s) => Some(s@),
        None => None,
    }
}

impl View for HostEntry {
    type V = HostEntryView;

    open spec fn view(&self) -> HostEntryView {
        HostEntryView { ip: self.ip, hostname: self.hostname@, comment: opt_text(self.comment) }
    }
}

/// What each entry holds, in order.
pub open spec fn entries_view(es: Seq<HostEntry>) -> Seq<HostEntryView> {
    es.map_values(|e: HostEntry| e@)
}

/// The hosts-file line of an entry: `<ip> <hostname>`, then ` # <comment>` where
/// there is a comment.
pub open spec fn entry_line(e: HostEntryView) -> Seq<char> {
    match e.comment {
        Some(c) => ip_text(e.ip) + seq![' '] + e.hostname + seq![' ', '#', ' '] + c,
        None => ip_text(e.ip) + seq![' '] + e.hostname,
    }
}

impl HostEntry {
    /// An entry without a comment.
    pub fn new(ip: IpAddress, hostname: String) -> (r: HostEntry)
        ensures
            r.ip == ip,
            r.hostname == hostname,
            r.comment is None,
    {
        HostEntry { ip, hostname, comment: None }
    }

    /// The entry with `comment` as its comment.
    pub fn with_comment(self, comment: String) -> (r: HostEntry)
        ensures
            r.ip == self.ip,
            r.hostname == self.hostname,
            r.comment == Some(comment),
    {
        HostEntry { ip: self.ip, hostname: self.hostname, comment: Some(comment) }
    }

    /// The entry as a hosts-file line.
    pub fn to_line(&self) -> (r: String)
        ensures
            r@ == entry_line(self@),
    {
        let mut out = self.ip.to_text();
        proof {
            reveal_strlit(" ");
            reveal_strlit(" # ");
        }
        out.append(" ");
        out.append(self.hostname.as_str());
        match &self.comment {
            Some(c) => {
                out.append(" # ");
                out.append(c.as_str());
            },
            None => {},
        }
        out
    }
}

/// A named, ordered list of host entries.
#[derive(Clone, Debug)]
pub struct Environment {
    pub name: String,
    pub description: Option<String>,
    pub entries: Vec<HostEntry>,
}

/// Index of the first entry of `es` whose hostname is `h`, if any.
pub open spec fn first_with_host(es: Seq<HostEntry>, h: Seq<char>, i: int) -> bool {
    0 <= i < es.len() && es[i].hostname@ == h && forall|j: int|
        0 <= j < i ==> es[j].hostname@ != h
}

/// Whether some entry of `es` has the hostname `h`.
pub open spec fn has_host(es: Seq<HostEntry>, h: Seq<char>) -> bool {
    exists|i: int| 0 <= i < es.len() && es[i].hostname@ == h
}

impl Environment {
    /// An environment with no description and no entries.
    pub fn new(name: String) -> (r: Environment)
        ensures
            r.name == name,
            r.description is None,
            r.entries@.len() == 0,
    {
        Environment { name, description: None, entries: Vec::new() }
    }

    /// The environment with `description` as its description.
    pub fn with_description(self, description: String) -> (r: Environment)
        ensures
            r.name == self.name,
            r.description == Some(description),
            r.entries@ == self.entries@,
    {
        Environment { name: self.name, description: Some(description), entries: self.entries }
    }

    /// Appends `entry`; duplicates are kept.
    pub fn add_entry(&mut self, entry: HostEntry)
        ensures
            final(self).entries@ == old(self).entries@.push(entry),
            final(self).name == old(self).name,
            final(self).description == old(self).description,
    {
        self.entries.push(entry);
    }

    /// Index of the first entry whose hostname is `hostname`.
    pub fn position_of(&self, hostname: &str) -> (r: Option<usize>)
        ensures
            match r {
                Some(i) => first_with_host(self.entries@, hostname@, i as int),
                None => !has_host(self.entries@, hostname@),
            },
    {
        let key = hostname.to_owned();
        let mut i: usize = 0;
        while i < self.entries.len()
            invariant
                i <= self.entries@.len(),
                key@ == hostname@,
                forall|j: int| 0 <= j < i ==> self.entries@[j].hostname@ != hostname@,
            decreases self.entries@.len() - i,
        {
            if self.entries[i].hostname == key {
                return Some(i);
            }
            i = i + 1;
        }
        None
    }

    /// Removes the first entry whose hostname is `hostname`; tells whether there
    /// was one.
    pub fn remove_entry(&mut self, hostname: &str) -> (r: bool)
        ensures
            r == has_host(old(self).entries@, hostname@),
            r ==> exists|i: int|
                first_with_host(old(self).entries@, hostname@, i)
                    && final(self).entries@ == old(self).entries@.remove(i),
            !r ==> final(self).entries@ == old(self).entries@,
            final(self).name == old(self).name,
            final(self).description == old(self).description,
    {
        match self.position_of(hostname) {
            Some(i) => {
                self.entries.remove(i);
                true
            },
            None => false,
        }
    }

    /// The first entry whose hostname is `hostname`.
    pub fn find_entry(&self, hostname: &str) -> (r: Option<&HostEntry>)
        ensures
            match r {
                Some(e) => exists|i: int|
                    first_with_host(self.entries@, hostname@, i) && *e == self.entries@[i],
                None => !has_host(self.entries@, hostname@),
            },
    {
        match self.position_of(hostname) {
            Some(i) => Some(&self.entries[i]),
            None => None,
        }
    }
}

/// All environments, keyed by their names, and the one that is active.
#[derive(Clone, Debug)]
pub struct Config {
    pub current_environment: Option<String>,
    pub environments: Vec<Environment>,
}

/// No two environments share a name.
pub open spec fn names_unique(envs: Seq<Environment>) -> bool {
    forall|i: int, j: int|
        0 <= i < envs.len() && 0 <= j < envs.len() && i != j ==> envs[i].name@ != envs[j].name@
}

/// Whether some environment is named `name`.
pub open spec fn has_env(envs: Seq<Environment>, name: Seq<char>) -> bool {
    exists|i: int| 0 <= i < envs.len() && envs[i].name@ == name
}

impl Config {
    /// No two environments share a name.
    pub open spec fn wf(&self) -> bool {
        names_unique(self.environments@)
    }

    /// The active environment, where there is one, is among the environments.
    pub open spec fn current_exists(&self) -> bool {
        match self.current_environment {
            Some(c) => has_env(self.environments@, c@),
            None => true,
        }
    }

    /// An empty configuration with no active environment.
    pub fn new() -> (r: Config)
        ensures
            r.wf(),
            r.environments@.len() == 0,
            r.current_environment is None,
    {
        Config { current_environment: None, environments: Vec::new() }
    }

    /// Index of the environment named `name`.
    pub fn position_of(&self, name: &str) -> (r: Option<usize>)
        ensures
            match r {
                Some(i) => i < self.environments@.len() && self.environments@[i as int].name@
                    == name@,
                None => !has_env(self.environments@, name@),
            },
    {
        let key = name.to_owned();
        let mut i: usize = 0;
        while i < self.environments.len()
            invariant
                i <= self.environments@.len(),
                key@ == name@,
                forall|j: int| 0 <= j < i ==> self.environments@[j].name@ != name@,
            decreases self.environments@.len() - i,
        {
            if self.environments[i].name == key {
                return Some(i);
            }
            i = i + 1;
        }
        None
    }

    /// Adds `env`, in place of the environment of the same name where there is one.
    pub fn add_environment(&mut self, env: Environment)
        requires
            old(self).wf(),
        ensures
            final(self).wf(),
            final(self).current_environment == old(self).current_environment,
            old(self).current_exists() ==> final(self).current_exists(),
            forall|i: int|
                0 <= i < old(self).environments@.len() && old(self).environments@[i].name@
                    == env.name@ ==> final(self).environments@ == old(self).environments@.update(
                    i,
                    env,
                ),
            !has_env(old(self).environments@, env.name@) ==> final(self).environments@ == old(
                self,
            ).environments@.push(env),
    {
        let ghost before = self.environments@;
        match self.position_of(env.name.as_str()) {
            Some(i) => {
                self.environments.set(i, env);
                proof {
                    if self.current_environment is Some {
                        let c = self.current_environment->0;
                        if old(self).current_exists() {
                            let j = choose|j: int| 0 <= j < before.len() && before[j].name@ == c@;
                            assert(self.environments@[j].name@ == c@);
                        }
                    }
                }
            },
            None => {
                self.environments.push(env);
                proof {
                    if self.current_environment is Some {
                        let c = self.current_environment->0;
                        if old(self).current_exists() {
                            let j = choose|j: int| 0 <= j < before.len() && before[j].name@ == c@;
                            assert(self.environments@[j] == before[j]);
                        }
                    }
                }
            },
        }
    }

    /// Removes the environment named `name`; tells whether there was one. Where it
    /// was the active one, no environment is active afterwards.
    pub fn remove_environment(&mut self, name: &str) -> (r: bool)
        requires
            old(self).wf(),
        ensures
            final(self).wf(),
            old(self).current_exists() ==> final(self).current_exists(),
            r == has_env(old(self).environments@, name@),
            r ==> exists|i: int|
                0 <= i < old(self).environments@.len() && old(self).environments@[i].name@
                    == name@ && final(self).environments@ == old(self).environments@.remove(i),
            !r ==> final(self).environments@ == old(self).environments@,
            final(self).current_environment == (if r && opt_text(old(self).current_environment)
                == Some(name@) {
                None
            } else {
                old(self).current_environment
            }),
    {
        match self.position_of(name) {
            Some(i) => {
                self.environments.remove(i);
                let clear = match &self.current_environment {
                    Some(c) => c.as_str().to_owned() == name.to_owned(),
                    None => false,
                };
                if clear {
                    self.current_environment = None;
                }
                proof {
                    let before = old(self).environments@;
                    if self.current_environment is Some {
                        let c = self.current_environment->0;
                        if old(self).current_exists() {
                            let j = choose|j: int| 0 <= j < before.len() && before[j].name@ == c@;
                            assert(j != i);
                            if j < i {
                                assert(self.environments@[j] == before[j]);
                            } else {
                                assert(self.environments@[j - 1] == before[j]);
                            }
                        }
                    }
                }
                true
            },
            None => false,
        }
    }

    /// The environment named `name`.
    pub fn get_environment(&self, name: &str) -> (r: Option<&Environment>)
        ensures
            match r {
                Some(e) => exists|i: int|
                    0 <= i < self.environments@.len() && self.environments@[i].name@ == name@
                        && *e == self.environments@[i],
                None => !has_env(self.environments@, name@),
            },
    {
        match self.position_of(name) {
            Some(i) => Some(&self.environments[i]),
            None => None,
        }
    }

    /// The environment named `name`, to change it in place.
    pub fn get_environment_mut(&mut self, name: &str) -> (r: Option<&mut Environment>)
        ensures
            match r {
                Some(e) => exists|i: int|
                    0 <= i < old(self).environments@.len() && old(self).environments@[i].name@
                        == name@ && *e == old(self).environments@[i]
                        && final(self).environments@ == old(self).environments@.update(i, *final(e))
                        && final(self).current_environment == old(self).current_environment,
                None => !has_env(old(self).environments@, name@) && *final(self) == *old(self),
            },
    {
        match self.position_of(name) {
            Some(i) => Some(&mut self.environments[i]),
            None => None,
        }
    }

    /// The names of all environments.
    pub fn environment_names(&self) -> (r: Vec<String>)
        ensures
            r@.len() == self.environments@.len(),
            forall|i: int| 0 <= i < r@.len() ==> r@[i]@ == self.environments@[i].name@,
    {
        let mut r: Vec<String> = Vec::new();
        let mut i: usize = 0;
        while i < self.environments.len()
            invariant
                i <= self.environments@.len(),
                r@.len() == i,
                forall|j: int| 0 <= j < i ==> r@[j]@ == self.environments@[j].name@,
            decreases self.environments@.len() - i,
        {
            r.push(self.environments[i].name.clone());
            i = i + 1;
        }
        r
    }
}

impl Default for Config {
    fn default() -> (r: Config)
        ensures
            r.wf(),
            r.environments@.len() == 0,
            r.current_environment is None,
    {
        Config::new()
    }
}

} // verus!
