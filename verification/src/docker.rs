//! The docker compose invocations.

use vstd::prelude::*;
use vstd::string::*;

verus! {

/// The docker compose subcommands the runtime uses.
#[derive(Clone, Copy, Debug, PartialEq, Eq, Structural)]
pub enum ComposeCommand {
    /// `up -d --wait`: start the stack and wait for it.
    Up,
    /// `down`: stop the stack.
    Down,
    /// `ps --format json`: report the stack's containers.
    Ps,
}

/// Runs stacks with `docker compose`.
#[derive(Clone, Copy, Debug)]
pub struct DockerComposeRuntime;

/// The arguments after `docker` for a subcommand on a compose file.
pub open spec fn compose_args(cmd: ComposeCommand, compose_path: Seq<char>) -> Seq<Seq<char>> {
    seq!["compose"@, "-f"@, compose_path] + match cmd {
        ComposeCommand::Up => seq!["up"@, "-d"@, "--wait"@],
        ComposeCommand::Down => seq!["down"@],
        ComposeCommand::Ps => seq!["ps"@, "--format"@, "json"@],
    }
}

impl DockerComposeRuntime {
    /// The arguments after `docker` (see `compose_args`).
    pub fn command_args(cmd: ComposeCommand, compose_path: &str) -> (r: Vec<String>)
        ensures
            r@.map_values(|s: String| s@) == compose_args(cmd, compose_path@),
    {
        let mut r: Vec<String> = Vec::new();
        r.push(String::from_str("compose"));
        r.push(String::from_str("-f"));
        r.push(String::from_str(compose_path));
        match cmd {
            ComposeCommand::Up => {
                r.push(String::from_str("up"));
                r.push(String::from_str("-d"));
                r.push(String::from_str("--wait"));
            },
            ComposeCommand::Down => {
                r.push(String::from_str("down"));
            },
            ComposeCommand::Ps => {
                r.push(String::from_str("ps"));
                r.push(String::from_str("--format"));
                r.push(String::from_str("json"));
            },
        }
        assert(r@.map_values(|s: String| s@) =~= compose_args(cmd, compose_path@));
        r
    }

    /// Seconds a subcommand may run before it counts as failed: a minute for
    /// `ps`, two for the others.
    pub fn command_timeout_secs(cmd: ComposeCommand) -> (r: u64)
        ensures
            r == (if cmd == ComposeCommand::Ps { 60u64 } else { 120u64 }),
    {
        match cmd {
            ComposeCommand::Ps => 60,
            _ => 120,
        }
    }
}

} // verus!
