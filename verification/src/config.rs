//! The configuration a run of the tool operates under: its mode, the
//! directories it works in, and the flags and operands it was given. The
//! caller assembles it from arguments and environment; the library only
//! defines its shape and the defaults.

use vstd::prelude::*;

verus! {

/// Default supervision directory.
pub const DEFAULT_SVDIR: &'static str = "/var/service";

/// Default location of the kernel's process table.
pub const DEFAULT_PROC_DIR: &'static str = "/proc";

/// Default directory of available (installable) services.
pub const DEFAULT_AVAIL_DIR: &'static str = "/etc/sv";

/// Default per-user supervision directory, relative to the home directory.
pub const DEFAULT_USER_DIR: &'static str = "runit/service";

/// The modes the tool runs in, one per subcommand family.
#[derive(Clone, Copy, Debug, PartialEq, Eq, Structural)]
pub enum ProgramMode {
    Status,
    Enable,
    Disable,
    Control,
    Log,
    Add,
    Remove,
    Avail,
}

/// The word a mode displays as.
pub open spec fn mode_label_spec(m: ProgramMode) -> Seq<char> {
    match m {
        ProgramMode::Status => "status"@,
        ProgramMode::Enable => "enable"@,
        ProgramMode::Disable => "disable"@,
        ProgramMode::Control => "control"@,
        ProgramMode::Log => "log"@,
        ProgramMode::Add => "add"@,
        ProgramMode::Remove => "remove"@,
        ProgramMode::Avail => "avail"@,
    }
}

impl ProgramMode {
    /// The word the mode displays as.
    pub fn label(&self) -> (r: String)
        ensures
            r@ == mode_label_spec(*self),
    {
        match self {
            ProgramMode::Status => String::from_str("status"),
            ProgramMode::Enable => String::from_str("enable"),
            ProgramMode::Disable => String::from_str("disable"),
            ProgramMode::Control => String::from_str("control"),
            ProgramMode::Log => String::from_str("log"),
            ProgramMode::Add => String::from_str("add"),
            ProgramMode::Remove => String::from_str("remove"),
            ProgramMode::Avail => String::from_str("avail"),
        }
    }
}

/// Everything one invocation runs under.
#[derive(Debug)]
pub struct Config {
    pub mode: ProgramMode,
    pub colorize: bool,
    /// The supervision directory being operated on.
    pub svdir: String,
    /// Where installable services live.
    pub avail_dir: String,
    pub tree: bool,
    pub log: bool,
    pub verbose: u32,
    /// Service names or filters the subcommand operates on.
    pub operands: Vec<String>,
    /// Where the process table is mounted.
    pub proc_path: String,
}

} // verus!
