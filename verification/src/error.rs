//! The errors the library reports.

use vstd::prelude::*;

verus! {

#[derive(Debug)]
pub enum JbsyncError {
    Io(String),
    Configuration(String),
    NoMatchingIde { role: String, selector: String, available: String },
    Xml { path: String, source: String },
    Git(String),
    Other(String),
}

/// The message a person reads for an error.
pub open spec fn message_text(e: JbsyncError) -> Seq<char> {
    match e {
        JbsyncError::Io(m) => "I/O error: "@ + m@,
        JbsyncError::Configuration(m) => "configuration error: "@ + m@,
        JbsyncError::NoMatchingIde { role, selector, available } => "no "@ + role@ + " matches \""@ + selector@
            + "\". Available IDEs: "@ + available@,
        JbsyncError::Xml { path, source } => "XML error in "@ + path@ + ": "@ + source@,
        JbsyncError::Git(m) => "git error: "@ + m@,
        JbsyncError::Other(m) => m@,
    }
}

impl JbsyncError {
    pub fn configuration(message: String) -> (e: Self)
        ensures
            e matches JbsyncError::Configuration(m) && m@ == message@,
    {
        JbsyncError::Configuration(message)
    }

    pub fn other(message: String) -> (e: Self)
        ensures
            e matches JbsyncError::Other(m) && m@ == message@,
    {
        JbsyncError::Other(message)
    }

    /// The message a person reads.
    pub fn message(&self) -> (r: String)
        ensures
            r@ == message_text(*self),
    {
        match self {
            JbsyncError::Io(m) => crate::text::concat("I/O error: ", m.as_str()),
            JbsyncError::Configuration(m) => crate::text::concat("configuration error: ", m.as_str()),
            JbsyncError::NoMatchingIde { role, selector, available } => {
                let mut s = crate::text::concat("no ", role.as_str());
                s.append(" matches \"");
                s.append(selector.as_str());
                s.append("\". Available IDEs: ");
                s.append(available.as_str());
                s
            },
            JbsyncError::Xml { path, source } => {
                let mut s = crate::text::concat("XML error in ", path.as_str());
                s.append(": ");
                s.append(source.as_str());
                s
            },
            JbsyncError::Git(m) => crate::text::concat("git error: ", m.as_str()),
            JbsyncError::Other(m) => m.clone(),
        }
    }
}

} // verus!
