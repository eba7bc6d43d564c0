//! The command-line surface: the argument shapes of the subcommands. The
//! binary parses its arguments into these; the values themselves are plain
//! data.

pub mod backtest;
pub mod run;
pub mod start;

use vstd::prelude::*;

verus! {

/// The parsed command line: one subcommand.
pub struct Cli {
    pub command: Command,
}

/// The subcommands: run the live monitor, print one transaction's sheet,
/// print one wallet's report for one block, or run the backtest cases.
pub enum Command {
    Start(crate::cli::start::Args),
    RunTx(crate::cli::run::TxArgs),
    RunBlock(crate::cli::run::BlockArgs),
    Backtest(crate::cli::backtest::Args),
}

} // verus!
