//! The command line of the harness, as plain values.
use crate::job::joined;
use vstd::prelude::*;
use vstd::string::*;

verus! {

/// What the user asked for, with the settings left out taken as `None`.
pub struct Cli {
    /// The compiler; `gcc` when left out.
    pub compiler: Option<String>,
    /// The compiler's arguments; `-Wall -Wextra -lm` when left out.
    pub compiler_args: Option<String>,
    /// The time bound of each run, in seconds; 10 when left out.
    pub timeout: Option<u64>,
    pub command: Commands,
}

pub enum Commands {
    /// Compare outputs with those written in the test file.
    Check { source: String, test_config: Option<String> },
    /// Compare outputs with a reference program's on listed inputs.
    Pal { source: String, std_source: Option<String>, test_config: Option<String> },
    /// Compare outputs with a reference program's on random inputs.
    RandomPal { source: String, std_source: Option<String>, test_config: Option<String> },
    /// Look at or rerun the results of the last run.
    Session { subcommand: Option<SessionCommands> },
}

pub enum SessionCommands {
    /// Write out the input and outputs of some failed jobs.
    Load { num: Option<usize>, job_type: Option<String> },
    /// Rerun the failed jobs.
    Continue,
    /// Rerun all jobs.
    Retest,
}

impl Cli {
    /// The compiler to use.
    pub fn compiler_name(&self) -> (r: String)
        ensures
            r@ == match self.compiler {
                Some(c) => c@,
                None => "gcc"@,
            },
    {
        match &self.compiler {
            Some(c) => c.clone(),
            None => String::from_str("gcc"),
        }
    }

    /// The compiler's arguments.
    pub fn compiler_arguments(&self) -> (r: String)
        ensures
            r@ == match self.compiler_args {
                Some(a) => a@,
                None => "-Wall -Wextra -lm"@,
            },
    {
        match &self.compiler_args {
            Some(a) => a.clone(),
            None => String::from_str("-Wall -Wextra -lm"),
        }
    }

    /// The time bound of each run, in seconds.
    pub fn timeout_sec(&self) -> (r: u64)
        ensures
            r == match self.timeout {
                Some(t) => t,
                None => 10,
            },
    {
        match self.timeout {
            Some(t) => t,
            None => 10,
        }
    }
}

/// Why the harness stopped.
#[derive(Debug)]
pub enum CLIError {
    InvalidArgument(String),
    IOError(String),
    PalError(String),
    OtherError(String),
    EnvironmentError(String),
    ParseError(String),
}

impl CLIError {
    /// The error in words.
    pub fn message(&self) -> (r: String)
        ensures
            r@ == match self {
                CLIError::InvalidArgument(s) => "Argument invalid: "@ + s@,
                CLIError::IOError(s) => "I/O error occured: "@ + s@,
                CLIError::PalError(s) => s@,
                CLIError::OtherError(s) => "Other error: "@ + s@,
                CLIError::EnvironmentError(s) => "Failed getting environment information: "@ + s@,
                CLIError::ParseError(s) => "Failed parsing file: "@ + s@,
            },
    {
        match self {
            CLIError::InvalidArgument(s) => joined("Argument invalid: ", s.as_str()),
            CLIError::IOError(s) => joined("I/O error occured: ", s.as_str()),
            CLIError::PalError(s) => s.clone(),
            CLIError::OtherError(s) => joined("Other error: ", s.as_str()),
            CLIError::EnvironmentError(s) => joined("Failed getting environment information: ", s.as_str()),
            CLIError::ParseError(s) => joined("Failed parsing file: ", s.as_str()),
        }
    }
}

} // verus!
