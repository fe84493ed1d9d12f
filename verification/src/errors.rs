//! The failures the control panel reports. Every error carries the text
//! that is surfaced verbatim to the caller.

use vstd::prelude::*;

verus! {

/// An operation's failure, with the text shown to the caller.
#[derive(Debug)]
pub enum NginxError {
    /// An action, variant or log kind name outside the known sets.
    InvalidArgument(String),
    /// A file could not be read or written.
    Io(String),
    /// An external command failed; the text is its captured diagnostic output.
    Process(String),
    /// The liveness probe could not run, so the server state is unknown.
    Undeterminable(String),
}

/// The text an error carries.
pub open spec fn spec_message(e: &NginxError) -> Seq<char> {
    match e {
        NginxError::InvalidArgument(m) => m@,
        NginxError::Io(m) => m@,
        NginxError::Process(m) => m@,
        NginxError::Undeterminable(m) => m@,
    }
}

impl NginxError {
    /// The text of the error, as surfaced to the caller.
    pub fn message(&self) -> (r: &String)
        ensures
            r@ == spec_message(self),
    {
        match self {
            NginxError::InvalidArgument(m) => m,
            NginxError::Io(m) => m,
            NginxError::Process(m) => m,
            NginxError::Undeterminable(m) => m,
        }
    }
}

} // verus!
