//! What can stop the operation, and how it is reported.

use vstd::prelude::*;
use vstd::string::*;

verus! {

/// A fatal error: the step that failed, with the paths it failed on.
#[derive(Clone, Debug)]
pub enum Failure {
    /// The root does not exist or cannot be resolved.
    Resolve { path: String },
    /// A file could not be moved; files moved before it stay moved.
    Move { from: String, to: String },
    /// A directory that was found empty could not be removed.
    RemoveDirectory { path: String },
}

/// The one line that reports a failure: the action, then the paths.
pub open spec fn message_of(failure: Failure) -> Seq<char> {
    match failure {
        Failure::Resolve { path } => "Failed to resolve path: "@ + path@,
        Failure::Move { from, to } => "Failed to move file from "@ + from@ + " to "@ + to@,
        Failure::RemoveDirectory { path } => "Failed to remove empty directory: "@ + path@,
    }
}

impl Failure {
    /// Writes the line that reports this failure.
    pub fn message(&self) -> (text: String)
        ensures
            text@ == message_of(*self),
    {
        match self {
            Failure::Resolve { path } => {
                let mut text = String::from_str("Failed to resolve path: ");
                text.append(path.as_str());
                text
            },
            Failure::Move { from, to } => {
                let mut text = String::from_str("Failed to move file from ");
                text.append(from.as_str());
                text.append(" to ");
                text.append(to.as_str());
                text
            },
            Failure::RemoveDirectory { path } => {
                let mut text = String::from_str("Failed to remove empty directory: ");
                text.append(path.as_str());
                text
            },
        }
    }
}

} // verus!
