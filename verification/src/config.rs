//! The settings of a run, and the choice of mode that follows from them.

use crate::filter::{filter_result, write_filtered_rows, Filtered};
use crate::unique::{unique_result, write_unique_values, RunError, Unique};
use vstd::prelude::*;

verus! {

/// The two things a run can do.
#[derive(Debug, Clone, Copy, PartialEq, Eq, Structural)]
pub enum Mode {
    /// Keep the lines that hold the target under the key.
    Filter,
    /// Collect the strings found under the key.
    Unique,
}

/// The settings of a run. An empty `archive` means that nothing is unpacked
/// first; an empty `filter` asks for unique mode.
#[derive(Debug)]
pub struct Config {
    pub archive: String,
    pub input: String,
    pub output: String,
    pub key: String,
    pub filter: String,
    pub quiet: bool,
}

/// What a run hands back, by mode.
#[derive(Debug)]
pub enum Output {
    Filtered(Filtered),
    Unique(Unique),
}

impl Config {
    /// The mode that the settings ask for.
    pub open spec fn spec_mode(&self) -> Mode {
        if self.filter@.len() == 0 {
            Mode::Unique
        } else {
            Mode::Filter
        }
    }

    /// The mode that the settings ask for.
    pub fn mode(&self) -> (r: Mode)
        ensures
            r == self.spec_mode(),
    {
        if self.filter.as_str().is_empty() {
            Mode::Unique
        } else {
            Mode::Filter
        }
    }

    /// Whether an archive is to be unpacked before the run.
    pub fn has_archive(&self) -> (r: bool)
        ensures
            r == (self.archive@.len() > 0),
    {
        !self.archive.as_str().is_empty()
    }
}

/// What `run` returns for `config` and `input`.
pub open spec fn run_result(config: &Config, input: Seq<u8>, r: Result<Output, RunError>) -> bool {
    match config.spec_mode() {
        Mode::Unique => match r {
            Ok(Output::Unique(u)) => unique_result(input, config.key@, Ok(u)),
            Ok(Output::Filtered(_)) => false,
            Err(e) => unique_result(input, config.key@, Err(e)),
        },
        Mode::Filter => match r {
            Ok(Output::Filtered(f)) => filter_result(input, config.key@, config.filter@, Ok(f)),
            Ok(Output::Unique(_)) => false,
            Err(RunError::Filter(e)) => filter_result(input, config.key@, config.filter@, Err(e)),
            Err(_) => false,
        },
    }
}

/// Runs the mode that `config` asks for over `input`.
pub fn run(config: &Config, input: &[u8]) -> (r: Result<Output, RunError>)
    requires
        input@.len() < u64::MAX,
    ensures
        run_result(config, input@, r),
{
    match config.mode() {
        Mode::Unique => match write_unique_values(input, config.key.as_str()) {
            Ok(u) => Ok(Output::Unique(u)),
            Err(e) => Err(e),
        },
        Mode::Filter => match write_filtered_rows(
            input,
            config.key.as_str(),
            config.filter.as_str(),
        ) {
            Ok(f) => Ok(Output::Filtered(f)),
            Err(e) => Err(RunError::Filter(e)),
        },
    }
}

} // verus!
