//! The dashboard's decisions: the status texts it shows and what a key press does.
use crate::config::GatewayConfig;
use crate::text::{decimal, decimal_string};
use vstd::prelude::*;

verus! {

/// The line shown before any key is pressed.
pub fn initial_message() -> (m: &'static str)
    ensures
        m@ == "press r to reload, q to quit"@,
{
    "press r to reload, q to quit"
}

pub open spec fn pid_status_of(pid: Option<u32>, alive: bool) -> Seq<char> {
    match pid {
        Some(p) => if alive {
            "running (pid "@ + decimal(p as nat) + ")"@
        } else {
            "stale pid file (pid "@ + decimal(p as nat) + ")"@
        },
        None => "not running"@,
    }
}

/// The gateway's state from its pid file: `pid` is what the file names
/// (`None` when it cannot be read) and `alive` whether that process runs.
pub fn pid_status_text(pid: Option<u32>, alive: bool) -> (s: String)
    ensures
        s@ == pid_status_of(pid, alive),
{
    match pid {
        Some(p) => {
            let n = decimal_string(p as u64);
            if alive {
                "running (pid ".to_owned().concat(n.as_str()).concat(")")
            } else {
                "stale pid file (pid ".to_owned().concat(n.as_str()).concat(")")
            }
        },
        None => "not running".to_owned(),
    }
}

/// What a key press asks for.
#[derive(Clone, Copy, Debug, PartialEq, Eq, Structural)]
pub enum KeyCommand {
    Quit,
    Reload,
    Ignore,
}

/// `q` quits, `r` reloads, every other key is ignored.
pub fn key_command(c: char) -> (k: KeyCommand)
    ensures
        k == if c == 'q' {
            KeyCommand::Quit
        } else if c == 'r' {
            KeyCommand::Reload
        } else {
            KeyCommand::Ignore
        },
{
    if c == 'q' {
        KeyCommand::Quit
    } else if c == 'r' {
        KeyCommand::Reload
    } else {
        KeyCommand::Ignore
    }
}

/// How a reload request from the dashboard went.
#[derive(Clone, Debug)]
pub enum ReloadOutcome {
    /// The signal was sent to this pid.
    Sent(u32),
    /// Sending the signal failed with this error text.
    SendFailed(String),
    /// The pid file names a process that no longer runs.
    Stale,
    /// The pid file could not be read; the error text.
    LookupFailed(String),
}

pub open spec fn reload_message_of(o: ReloadOutcome) -> Seq<char> {
    match o {
        ReloadOutcome::Sent(p) => "sent reload signal to pid "@ + decimal(p as nat),
        ReloadOutcome::SendFailed(e) => "reload failed: "@ + e@,
        ReloadOutcome::Stale => "pid file is stale"@,
        ReloadOutcome::LookupFailed(e) => "reload failed: "@ + e@,
    }
}

/// The status line after a reload request.
pub fn reload_message(o: &ReloadOutcome) -> (m: String)
    ensures
        m@ == reload_message_of(*o),
{
    match o {
        ReloadOutcome::Sent(p) => {
            let n = decimal_string(*p as u64);
            "sent reload signal to pid ".to_owned().concat(n.as_str())
        },
        ReloadOutcome::SendFailed(e) => "reload failed: ".to_owned().concat(e.as_str()),
        ReloadOutcome::Stale => "pid file is stale".to_owned(),
        ReloadOutcome::LookupFailed(e) => "reload failed: ".to_owned().concat(e.as_str()),
    }
}

/// The text shown in place of the route list when there are no routes.
pub fn empty_routes_hint() -> (m: &'static str)
    ensures
        m@ == "no routes yet. run itadori init"@,
{
    "no routes yet. run itadori init"
}

/// One line of the route list: name, prefix and upstream address.
#[derive(Clone, Debug)]
pub struct RouteRow {
    pub name: String,
    pub prefix: String,
    pub upstream: String,
}

/// The route list, one row per route in the configuration's order.
pub fn route_rows(config: &GatewayConfig) -> (rows: Vec<RouteRow>)
    ensures
        rows@.len() == config.routes@.len(),
        forall|i: int|
            0 <= i < rows@.len() ==> (#[trigger] rows@[i]).name@ == config.routes@[i].name@
                && rows@[i].prefix@ == config.routes@[i].prefix@ && rows@[i].upstream@
                == config.routes@[i].upstream@,
{
    let mut rows: Vec<RouteRow> = Vec::new();
    let mut i: usize = 0;
    while i < config.routes.len()
        invariant
            i <= config.routes@.len(),
            rows@.len() == i,
            forall|j: int|
                0 <= j < i ==> (#[trigger] rows@[j]).name@ == config.routes@[j].name@
                    && rows@[j].prefix@ == config.routes@[j].prefix@ && rows@[j].upstream@
                    == config.routes@[j].upstream@,
        decreases config.routes@.len() - i,
    {
        let r = &config.routes[i];
        rows.push(
            RouteRow { name: r.name.clone(), prefix: r.prefix.clone(), upstream: r.upstream.clone() },
        );
        i = i + 1;
    }
    rows
}

} // verus!
