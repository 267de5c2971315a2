//! Application-level errors.

use vstd::prelude::*;
use vstd::string::StringExecFns;

verus! {

/// Application-level errors.
#[derive(Debug)]
pub enum SameError {
    /// A file could not be read; `source` describes why.
    FileRead { path: String, source: String },
    /// No file matched the given patterns.
    NoFilesFound,
    /// A glob pattern could not be used.
    InvalidGlob { pattern: String, message: String },
}

impl SameError {
    /// The message that describes the error.
    pub open spec fn text(&self) -> Seq<char> {
        match self {
            SameError::FileRead { path, source } => "Failed to read file '"@ + path@ + "': "@ + source@,
            SameError::NoFilesFound => "No files found matching the specified patterns"@,
            SameError::InvalidGlob { pattern, message } => "Invalid glob pattern '"@ + pattern@ + "': "@ + message@,
        }
    }

    /// The message that describes the error, for display.
    pub fn message(&self) -> (s: String)
        ensures
            s@ == self.text(),
    {
        match self {
            SameError::FileRead { path, source } => {
                let mut s = String::from_str("Failed to read file '");
                s.append(path.as_str());
                s.append("': ");
                s.append(source.as_str());
                s
            },
            SameError::NoFilesFound => String::from_str("No files found matching the specified patterns"),
            SameError::InvalidGlob { pattern, message } => {
                let mut s = String::from_str("Invalid glob pattern '");
                s.append(pattern.as_str());
                s.append("': ");
                s.append(message.as_str());
                s
            },
        }
    }
}

/// The exit status of a run: 0 when it found no duplicate, 1 when it found
/// some, 2 when it failed.
pub fn exit_code(outcome: &Result<bool, SameError>) -> (code: u8)
    ensures
        code == match outcome {
            Ok(false) => 0u8,
            Ok(true) => 1u8,
            Err(_) => 2u8,
        },
{
    match outcome {
        Ok(false) => 0,
        Ok(true) => 1,
        Err(_) => 2,
    }
}

} // verus!
