//! Where the configuration file lives.
use vstd::prelude::*;

use crate::config::opt_text;

verus! {

/// Locates the configuration directory and file.
pub struct ConfigStorage;

/// `part` appended to the path `base`, as `Path::join` does for a relative
/// `part`: with a `/` between them unless `base` is empty or already ends in one.
pub open spec fn join_path(base: Seq<char>, part: Seq<char>) -> Seq<char> {
    if base.len() == 0 {
        part
    } else if base.last() == '/' {
        base + part
    } else {
        base + seq!['/'] + part
    }
}

/// The configuration directory, `<home>/.config/hostctl`, with `.` for a home
/// directory that cannot be found.
pub open spec fn config_dir_of(home: Option<Seq<char>>) -> Seq<char> {
    let base = match home {
        Some(h) => h,
        None => seq!['.'],
    };
    join_path(join_path(base, seq!['.', 'c', 'o', 'n', 'f', 'i', 'g']), seq!['h', 'o', 's', 't', 'c', 't', 'l'])
}

/// The configuration file, `config.yaml` in the configuration directory.
pub open spec fn config_path_of(home: Option<Seq<char>>) -> Seq<char> {
    join_path(config_dir_of(home), seq!['c', 'o', 'n', 'f', 'i', 'g', '.', 'y', 'a', 'm', 'l'])
}

/// Relies on `dirs::home_dir`: the current user's home directory, if it can be
/// found. It depends on the environment, so nothing is claimed of it.
#[verifier::external_body]
fn home_dir() -> (r: Option<String>) {
    dirs::home_dir().map(|p| p.to_string_lossy().into_owned())
}

fn join(base: &str, part: &str) -> (r: String)
    ensures
        r@ == join_path(base@, part@),
{
    let n = base.unicode_len();
    let mut out = base.to_owned();
    if n > 0 && base.get_char(n - 1) != '/' {
        proof {
            reveal_strlit("/");
        }
        out.append("/");
    }
    out.append(part);
    out
}

impl ConfigStorage {
    /// The configuration directory for the home directory `home`.
    pub fn config_dir_in(home: Option<String>) -> (r: String)
        ensures
            r@ == config_dir_of(opt_text(home)),
    {
        proof {
            reveal_strlit(".");
            reveal_strlit(".config");
            reveal_strlit("hostctl");
        }
        let base = match home {
            Some(h) => h,
            None => ".".to_owned(),
        };
        let dot = join(base.as_str(), ".config");
        join(dot.as_str(), "hostctl")
    }

    /// The configuration file for the home directory `home`.
    pub fn config_path_in(home: Option<String>) -> (r: String)
        ensures
            r@ == config_path_of(opt_text(home)),
    {
        proof {
            reveal_strlit("config.yaml");
        }
        let dir = ConfigStorage::config_dir_in(home);
        join(dir.as_str(), "config.yaml")
    }

    /// The configuration directory of the current user.
    pub fn get_config_dir_path() -> (r: String)
        ensures
            exists|h: Option<Seq<char>>| r@ == config_dir_of(h),
    {
        let home = home_dir();
        let ghost h = opt_text(home);
        let r = ConfigStorage::config_dir_in(home);
        assert(r@ == config_dir_of(h));
        r
    }

    /// The configuration file of the current user.
    pub fn get_config_path() -> (r: String)
        ensures
            exists|h: Option<Seq<char>>| r@ == config_path_of(h),
    {
        let home = home_dir();
        let ghost h = opt_text(home);
        let r = ConfigStorage::config_path_in(home);
        assert(r@ == config_path_of(h));
        r
    }
}

} // verus!
