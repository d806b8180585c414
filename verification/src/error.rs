//! The error that a truncated write reports.

use vstd::prelude::*;

verus! {

/// What can go wrong when bytes are written to a buffer.
#[derive(Debug, Clone, Copy, PartialEq, Eq, Structural)]
pub enum Error {
    /// Failed to write whole buffer.
    WriteZero,
}

impl Error {
    /// The name of the error, as it is shown to a user.
    pub fn to_string(&self) -> (text: String)
        ensures
            text@ == "WriteZero"@,
    {
        match self {
            Error::WriteZero => "WriteZero".to_string(),
        }
    }
}

} // verus!
