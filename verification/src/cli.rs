//! The command line: with no subcommand the program runs the UCI engine.
use vstd::prelude::*;

verus! {

/// The parsed command line.
#[derive(Debug, Clone, Copy, PartialEq, Eq)]
pub struct KramerCli {
    pub command: Option<KramerCommand>,
}

/// The subcommands: print where the log file is, or open it.
#[derive(Debug, Clone, Copy, PartialEq, Eq)]
pub enum KramerCommand {
    LogLocation,
    Log,
}

} // verus!
