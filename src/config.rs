//! Settings of the history: where it lives, its capacity, the dedupe window
//! and how previews are rendered.

use vstd::prelude::*;
use crate::text::{join_path, joined};

verus! {

/// How a thumbnail is woven into a rendered preview line.
#[derive(Copy, Clone, PartialEq, Eq, Debug)]
pub enum ThumbMode {
    Wofi,
    Rofi,
    Plain,
}

pub struct Config {
    pub db_dir_path: String,
    pub max_dedupe_depth: usize,
    pub max_items: usize,
    pub preview_width: usize,
    pub generate_thumb: ThumbMode,
}

/// Settings given on the command line; each one present replaces the
/// configured value.
pub struct CliOverrides {
    pub db_path: Option<String>,
    pub max_dedupe_depth: Option<usize>,
    pub max_items: Option<usize>,
    pub max_preview_width: Option<usize>,
    pub generate_thumb: Option<ThumbMode>,
}

/// The value that an optional override leaves in place of `current`.
pub open spec fn overridden<T>(current: T, given: Option<T>) -> T {
    match given {
        Some(v) => v,
        None => current,
    }
}

impl Config {
    /// Replaces each setting that `cli` gives.
    pub fn cli_override(&mut self, cli: &CliOverrides)
        ensures
            final(self).db_dir_path@ == overridden(
                old(self).db_dir_path@,
                match cli.db_path {
                    Some(p) => Some(p@),
                    None => None,
                },
            ),
            final(self).max_dedupe_depth == overridden(
                old(self).max_dedupe_depth,
                cli.max_dedupe_depth,
            ),
            final(self).max_items == overridden(old(self).max_items, cli.max_items),
            final(self).preview_width == overridden(old(self).preview_width, cli.max_preview_width),
            final(self).generate_thumb == overridden(old(self).generate_thumb, cli.generate_thumb),
    {
        if let Some(db_path) = &cli.db_path {
            self.db_dir_path = db_path.clone();
        }
        if let Some(max_dedupe_depth) = cli.max_dedupe_depth {
            self.max_dedupe_depth = max_dedupe_depth;
        }
        if let Some(max_items) = cli.max_items {
            self.max_items = max_items;
        }
        if let Some(preview_width) = cli.max_preview_width {
            self.preview_width = preview_width;
        }
        if let Some(generate_thumb) = cli.generate_thumb {
            self.generate_thumb = generate_thumb;
        }
    }
}

/// Relies on `dirs::data_dir`: the user's data directory, if the platform
/// and environment name one that is valid Unicode.
#[verifier::external_body]
fn data_dir() -> (r: Option<String>) {
    match dirs::data_dir() {
        Some(p) => p.into_os_string().into_string().ok(),
        None => None,
    }
}

/// Relies on `dirs::config_dir`: the user's configuration directory, if the
/// platform and environment name one that is valid Unicode.
#[verifier::external_body]
fn config_dir() -> (r: Option<String>) {
    match dirs::config_dir() {
        Some(p) => p.into_os_string().into_string().ok(),
        None => None,
    }
}

/// Relies on `dirs::home_dir`: the user's home directory, if the platform
/// and environment name one that is valid Unicode.
#[verifier::external_body]
fn home_dir() -> (r: Option<String>) {
    match dirs::home_dir() {
        Some(p) => p.into_os_string().into_string().ok(),
        None => None,
    }
}

/// The directory of the history under a data directory.
pub open spec fn db_dir_under(data_dir: Seq<char>) -> Seq<char> {
    joined(data_dir, "cliprust"@)
}

/// The configuration file under a configuration directory.
pub open spec fn config_file_under(config_dir: Seq<char>) -> Seq<char> {
    joined(config_dir, "cliprust/config.toml"@)
}

/// The built-in settings, with the history kept under `data_dir`.
pub open spec fn is_default_config(c: Config, data_dir: Seq<char>) -> bool {
    &&& c.db_dir_path@ == db_dir_under(data_dir)
    &&& c.max_dedupe_depth == 100
    &&& c.max_items == 750
    &&& c.preview_width == 100
    &&& c.generate_thumb == ThumbMode::Plain
}

/// The built-in settings, with the history kept under `data_dir`.
pub fn config_for_data_dir(data_dir: &str) -> (r: Config)
    ensures
        is_default_config(r, data_dir@),
{
    Config {
        db_dir_path: join_path(data_dir, "cliprust"),
        max_dedupe_depth: 100,
        max_items: 750,
        preview_width: 100,
        generate_thumb: ThumbMode::Plain,
    }
}

/// The built-in settings under the user's data directory; `None` where the
/// platform names none.
pub fn default_config() -> (r: Option<Config>)
    ensures
        r matches Some(c) ==> exists|d: Seq<char>| is_default_config(c, d),
{
    match data_dir() {
        Some(d) => Some(config_for_data_dir(d.as_str())),
        None => None,
    }
}

/// Where the configuration file lives by default; `None` where the platform
/// names no configuration directory.
pub fn default_config_path() -> (r: Option<String>)
    ensures
        r matches Some(p) ==> exists|d: Seq<char>| p@ == config_file_under(d),
{
    match config_dir() {
        Some(d) => {
            let p = join_path(d.as_str(), "cliprust/config.toml");
            assert(p@ == config_file_under(d@));
            Some(p)
        },
        None => None,
    }
}

/// Whether `path` starts with the home directory shorthand: it is `~` or
/// starts with `~/`.
pub open spec fn is_tilde_path(path: Seq<char>) -> bool {
    path == seq!['~'] || (path.len() >= 2 && path[0] == '~' && path[1] == '/')
}

/// `path` with a leading `~` replaced by `home`.
pub open spec fn tilde_expanded(path: Seq<char>, home: Seq<char>) -> Seq<char> {
    if path == seq!['~'] {
        home
    } else if is_tilde_path(path) {
        joined(home, path.subrange(2, path.len() as int))
    } else {
        path
    }
}

/// Replaces a leading `~` of `path` by `home`.
pub fn expand_tilde_with(path: &str, home: &str) -> (r: String)
    ensures
        r@ == tilde_expanded(path@, home@),
{
    let n = path.unicode_len();
    if n == 1 && path.get_char(0) == '~' {
        assert(path@ =~= seq!['~']);
        return String::from_str(home);
    }
    if n >= 2 && path.get_char(0) == '~' && path.get_char(1) == '/' {
        return join_path(home, path.substring_char(2, n));
    }
    assert(!is_tilde_path(path@));
    String::from_str(path)
}

/// Replaces a leading `~` of `path` by the user's home directory; `None`
/// where one is needed and the platform names none.
pub fn expand_tilde(path: &str) -> (r: Option<String>)
    ensures
        !is_tilde_path(path@) ==> (r matches Some(p) && p@ == path@),
        r matches Some(p) ==> exists|h: Seq<char>| p@ == tilde_expanded(path@, h),
{
    let n = path.unicode_len();
    let tilde = (n == 1 && path.get_char(0) == '~') || (n >= 2 && path.get_char(0) == '~'
        && path.get_char(1) == '/');
    if !tilde {
        assert(!is_tilde_path(path@)) by {
            if path@ == seq!['~'] {
                assert(path@[0] == '~');
            }
        }
        let p = String::from_str(path);
        assert(p@ == tilde_expanded(path@, seq![]));
        return Some(p);
    }
    assert(is_tilde_path(path@)) by {
        if n == 1 {
            assert(path@ =~= seq!['~']);
        }
    }
    match home_dir() {
        Some(h) => {
            let p = expand_tilde_with(path, h.as_str());
            assert(p@ == tilde_expanded(path@, h@));
            Some(p)
        },
        None => None,
    }
}

} // verus!
