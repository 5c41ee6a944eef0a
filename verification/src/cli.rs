//! The command line: its commands and what each one asks the program to do.
use crate::config::{config_dir_of, default_config_path, join_relative};
use crate::self_update::SelfUpdateOptions;
use crate::text::chars_of;
use vstd::prelude::*;

verus! {

/// A sub-command with its arguments.
#[derive(Clone, Debug)]
pub enum Command {
    Serve { config: Option<String> },
    Validate { config: Option<String> },
    Init { config: Option<String>, force: bool },
    Reload,
    Tui { config: Option<String> },
    SelfUpdate { repo: Option<String>, asset: Option<String>, token: Option<String>, force: bool },
    ExampleConfig,
}

/// The parsed command line.
#[derive(Clone, Debug)]
pub struct Cli {
    command: Command,
}

/// What the program is to do, with every path resolved.
#[derive(Clone, Debug)]
pub enum CliAction {
    Serve { config: String },
    Validate { config: String },
    Init { config: String, force: bool },
    Reload,
    Tui { config: String },
    SelfUpdate(SelfUpdateOptions),
    PrintExampleConfig,
}

/// The path of the default configuration file for home directory `home`.
pub open spec fn default_config_of(home: Option<&str>) -> Seq<char> {
    join_relative(config_dir_of(home), "itadori.toml"@)
}

/// The configuration path given, else the default one.
pub open spec fn resolved_config(config: Option<String>, home: Option<&str>) -> Seq<char> {
    match config {
        Some(c) => c@,
        None => default_config_of(home),
    }
}

/// The configuration path given, else the default one.
pub fn resolve_config_path(config: Option<String>, home: Option<&str>) -> (p: String)
    ensures
        p@ == resolved_config(config, home),
{
    match config {
        Some(c) => c,
        None => default_config_path(home),
    }
}

/// The dashboard falls back to the default path when handed an empty one.
pub open spec fn dashboard_config(config: Option<String>, home: Option<&str>) -> Seq<char> {
    if resolved_config(config, home).len() == 0 {
        default_config_of(home)
    } else {
        resolved_config(config, home)
    }
}

pub open spec fn planned(command: Command, home: Option<&str>, action: CliAction) -> bool {
    match command {
        Command::Serve { config } => action matches CliAction::Serve { config: p } && p@
            == resolved_config(config, home),
        Command::Validate { config } => action matches CliAction::Validate { config: p } && p@
            == resolved_config(config, home),
        Command::Init { config, force } => action matches CliAction::Init { config: p, force: f }
            && p@ == resolved_config(config, home) && f == force,
        Command::Reload => action matches CliAction::Reload,
        Command::Tui { config } => action matches CliAction::Tui { config: p } && p@
            == dashboard_config(config, home),
        Command::SelfUpdate { repo, asset, token, force } => action matches CliAction::SelfUpdate(
            o,
        ) && o.repo == repo && o.asset == asset && o.token == token && o.force == force,
        Command::ExampleConfig => action matches CliAction::PrintExampleConfig,
    }
}

impl Cli {
    pub fn new(command: Command) -> (c: Self)
        ensures
            c.command() == command,
    {
        Cli { command }
    }

    pub closed spec fn command(self) -> Command {
        self.command
    }

    /// The sub-command.
    pub fn command_ref(&self) -> (c: &Command)
        ensures
            *c == self.command(),
    {
        &self.command
    }

    /// What the command asks for; `home` is the value of `$HOME`, if set.
    pub fn plan(self, home: Option<&str>) -> (a: CliAction)
        ensures
            planned(self.command(), home, a),
    {
        match self.command {
            Command::Serve { config } => CliAction::Serve { config: resolve_config_path(config, home) },
            Command::Validate { config } => CliAction::Validate {
                config: resolve_config_path(config, home),
            },
            Command::Init { config, force } => CliAction::Init {
                config: resolve_config_path(config, home),
                force,
            },
            Command::Reload => CliAction::Reload,
            Command::Tui { config } => {
                let p = resolve_config_path(config, home);
                if chars_of(p.as_str()).len() == 0 {
                    CliAction::Tui { config: default_config_path(home) }
                } else {
                    CliAction::Tui { config: p }
                }
            },
            Command::SelfUpdate { repo, asset, token, force } => CliAction::SelfUpdate(
                SelfUpdateOptions { repo, asset, token, force },
            ),
            Command::ExampleConfig => CliAction::PrintExampleConfig,
        }
    }
}

/// `init` writes the example configuration only where none exists, unless forced.
pub fn init_allowed(present: bool, force: bool) -> (ok: bool)
    ensures
        ok == (!present || force),
{
    !present || force
}

} // verus!
