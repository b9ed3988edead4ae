//! The errors of the program.
use vstd::prelude::*;
use vstd::string::StringExecFns;

verus! {

/// What can go wrong while Lasa gathers and stores its data.
#[derive(Debug, Clone, PartialEq, Eq)]
pub enum LasaError {
    EnvironmentError(String),
    SettingProcessPriority(String),
    Generic(String),
    CommandExecution(String),
    Parsing(String),
    DataStorage(String),
    JournalProbeFailed,
    NoData(String),
}

/// The text that introduces each kind of error in its message.
pub open spec fn error_prefix(e: LasaError) -> Seq<char> {
    match e {
        LasaError::EnvironmentError(_) => "Environment error: "@,
        LasaError::SettingProcessPriority(_) => "Process priority error: "@,
        LasaError::Generic(_) => "Error: "@,
        LasaError::CommandExecution(_) => "Command execution error: "@,
        LasaError::Parsing(_) => "Parsing error: "@,
        LasaError::DataStorage(_) => "Data storage error: "@,
        LasaError::JournalProbeFailed => "Journal probe failed"@,
        LasaError::NoData(_) => "No data: "@,
    }
}

/// The human readable message of an error: its prefix, then the detail it carries.
pub open spec fn error_message(e: LasaError) -> Seq<char> {
    match e {
        LasaError::EnvironmentError(s) => error_prefix(e) + s@,
        LasaError::SettingProcessPriority(s) => error_prefix(e) + s@,
        LasaError::Generic(s) => error_prefix(e) + s@,
        LasaError::CommandExecution(s) => error_prefix(e) + s@,
        LasaError::Parsing(s) => error_prefix(e) + s@,
        LasaError::DataStorage(s) => error_prefix(e) + s@,
        LasaError::JournalProbeFailed => error_prefix(e),
        LasaError::NoData(s) => error_prefix(e) + s@,
    }
}

impl LasaError {
    /// The message that describes this error to a user.
    pub fn message(&self) -> (r: String)
        ensures
            r@ == error_message(*self),
    {
        match self {
            LasaError::EnvironmentError(s) => String::from_str("Environment error: ").concat(s.as_str()),
            LasaError::SettingProcessPriority(s) => String::from_str("Process priority error: ").concat(s.as_str()),
            LasaError::Generic(s) => String::from_str("Error: ").concat(s.as_str()),
            LasaError::CommandExecution(s) => String::from_str("Command execution error: ").concat(s.as_str()),
            LasaError::Parsing(s) => String::from_str("Parsing error: ").concat(s.as_str()),
            LasaError::DataStorage(s) => String::from_str("Data storage error: ").concat(s.as_str()),
            LasaError::JournalProbeFailed => String::from_str("Journal probe failed"),
            LasaError::NoData(s) => String::from_str("No data: ").concat(s.as_str()),
        }
    }
}

} // verus!
