//! The configuration file (`~/.config/ttyman/config.toml`): the menu key,
//! the menu command and the scrollback length, each with its default.
use vstd::prelude::*;
use vstd::string::*;

use crate::ipc::{join_chars, join_path};

verus! {

broadcast use vstd::string::group_string_axioms;

pub open spec fn ttyman_dir_name() -> Seq<char> {
    seq!['t', 't', 'y', 'm', 'a', 'n']
}

pub open spec fn config_file_name() -> Seq<char> {
    seq!['c', 'o', 'n', 'f', 'i', 'g', '.', 't', 'o', 'm', 'l']
}

pub open spec fn dot_config_dir_name() -> Seq<char> {
    seq!['.', 'c', 'o', 'n', 'f', 'i', 'g']
}

/// Where the configuration file is looked for, given `$XDG_CONFIG_HOME`
/// and `$HOME`: `$XDG_CONFIG_HOME/ttyman/config.toml`, else
/// `$HOME/.config/ttyman/config.toml`.
pub open spec fn spec_default_config_path(xdg_config_home: Option<Seq<char>>, home: Option<Seq<char>>) -> Option<Seq<char>> {
    match xdg_config_home {
        Some(x) => Some(join_path(join_path(x, ttyman_dir_name()), config_file_name())),
        None => match home {
            Some(h) => Some(
                join_path(
                    join_path(join_path(h, dot_config_dir_name()), ttyman_dir_name()),
                    config_file_name(),
                ),
            ),
            None => None,
        },
    }
}

pub fn default_config_path(xdg_config_home: Option<&str>, home: Option<&str>) -> (r: Option<String>)
    ensures
        match spec_default_config_path(
            crate::ipc::opt_str_view(xdg_config_home),
            crate::ipc::opt_str_view(home),
        ) {
            Some(p) => r matches Some(s) && s@ == p,
            None => r is None,
        },
{
    let ttyman = vec!['t', 't', 'y', 'm', 'a', 'n'];
    let file = vec!['c', 'o', 'n', 'f', 'i', 'g', '.', 't', 'o', 'm', 'l'];
    let dot_config = vec!['.', 'c', 'o', 'n', 'f', 'i', 'g'];
    assert(ttyman@ =~= ttyman_dir_name());
    assert(file@ =~= config_file_name());
    assert(dot_config@ =~= dot_config_dir_name());
    match xdg_config_home {
        Some(x) => {
            let d = join_chars(x, ttyman.as_slice());
            Some(join_chars(d.as_str(), file.as_slice()))
        },
        None => match home {
            Some(h) => {
                let c = join_chars(h, dot_config.as_slice());
                let d = join_chars(c.as_str(), ttyman.as_slice());
                Some(join_chars(d.as_str(), file.as_slice()))
            },
            None => None,
        },
    }
}

/// Ctrl-] (0x1D).
fn default_menu_key() -> (k: u8)
    ensures
        k == 0x1D,
{
    0x1D
}

fn default_menu_command() -> (s: String)
    ensures
        s@ == "echo detach"@,
{
    String::from_str("echo detach")
}

fn default_scrollback() -> (n: usize)
    ensures
        n == 10_000,
{
    10_000
}

/// The `[menu]` table.
pub struct MenuConfig {
    pub key: u8,
    pub command: String,
}

impl Default for MenuConfig {
    fn default() -> (r: Self)
        ensures
            r.key == 0x1D,
            r.command@ == "echo detach"@,
    {
        Self { key: default_menu_key(), command: default_menu_command() }
    }
}

/// The `[session]` table.
pub struct SessionConfig {
    pub scrollback: usize,
}

impl Default for SessionConfig {
    fn default() -> (r: Self)
        ensures
            r.scrollback == 10_000,
    {
        Self { scrollback: default_scrollback() }
    }
}

pub struct Config {
    pub menu: MenuConfig,
    pub session: SessionConfig,
}

impl Default for Config {
    fn default() -> (r: Self)
        ensures
            r.menu.key == 0x1D,
            r.menu.command@ == "echo detach"@,
            r.session.scrollback == 10_000,
    {
        Self { menu: MenuConfig::default(), session: SessionConfig::default() }
    }
}

impl Config {
    /// Loads the explicit configuration file when one is given, else the
    /// default one when it exists; `None` when there is none or it does not
    /// load.
    pub fn load_default_or_explicit<X: Fn(&str) -> bool, L: Fn(&str) -> Option<Config>>(
        config_arg: Option<&str>,
        default_path: Option<&str>,
        is_file: X,
        load: L,
    ) -> (r: Option<Self>)
        requires
            forall|p: &str| is_file.requires((p,)),
            forall|p: &str| load.requires((p,)),
        ensures
            config_arg matches Some(p) ==> load.ensures((p,), r),
            config_arg is None && default_path is None ==> r is None,
            forall|d: &str|
                config_arg is None && default_path == Some(d) ==> {
                    ||| (is_file.ensures((d,), false) && r is None)
                    ||| (is_file.ensures((d,), true) && load.ensures((d,), r))
                },
    {
        match config_arg {
            Some(path) => load(path),
            None => match default_path {
                Some(def_path) => {
                    if is_file(def_path) {
                        load(def_path)
                    } else {
                        None
                    }
                },
                None => None,
            },
        }
    }

    pub fn menu_key(&self) -> (k: u8)
        ensures
            k == self.menu.key,
    {
        self.menu.key
    }

    pub fn menu_command(&self) -> (s: &str)
        ensures
            s@ == self.menu.command@,
    {
        self.menu.command.as_str()
    }

    /// The scrollback length; a zero setting falls back to 10,000.
    pub fn scrollback(&self) -> (n: usize)
        ensures
            n == if self.session.scrollback > 0 {
                self.session.scrollback
            } else {
                10_000
            },
            n > 0,
    {
        if self.session.scrollback > 0 {
            self.session.scrollback
        } else {
            10_000
        }
    }
}

} // verus!
