//! The errors that the library reports.
use vstd::prelude::*;

verus! {

/// What went wrong, by kind; each kind carries a message that says more.
#[derive(Debug, Clone)]
pub enum JujuError {
    /// A file or a process could not be read or written.
    IoFailure(String),
    /// Text is not the JSON, or not the UTF-8, that was expected.
    DecodeFailure(String),
    /// A required environment variable is absent.
    EnvironmentMissing(String),
    /// Output of a hook tool does not have the expected shape.
    ParseFailure(String),
    /// No registered hook carries the name of the running hook.
    UnknownHook(String),
    /// A hook's own callback reported failure.
    CallbackFailure(String),
}

impl JujuError {
    /// The message carried by the error.
    pub open spec fn message(&self) -> Seq<char> {
        match self {
            JujuError::IoFailure(m) => m@,
            JujuError::DecodeFailure(m) => m@,
            JujuError::EnvironmentMissing(m) => m@,
            JujuError::ParseFailure(m) => m@,
            JujuError::UnknownHook(m) => m@,
            JujuError::CallbackFailure(m) => m@,
        }
    }

    /// Returns the message carried by the error.
    pub fn to_string(&self) -> (r: String)
        ensures
            r@ == self.message(),
    {
        match self {
            JujuError::IoFailure(m) => m.clone(),
            JujuError::DecodeFailure(m) => m.clone(),
            JujuError::EnvironmentMissing(m) => m.clone(),
            JujuError::ParseFailure(m) => m.clone(),
            JujuError::UnknownHook(m) => m.clone(),
            JujuError::CallbackFailure(m) => m.clone(),
        }
    }
}

} // verus!
