//! What can go wrong while a report is made.

use vstd::prelude::*;
use vstd::string::StringExecFns;

verus! {

/// Why one attempt at a page gave no page. Neither ends the sweep by itself:
/// the page is asked for again until its attempts are used up.
#[derive(Debug, Clone, Copy, PartialEq, Eq, Structural)]
pub enum AttemptError {
    /// The request failed on the network.
    TransportError,
    /// An answer came, and it was not a page.
    ParseError,
}

/// Why no report was made. Each of these ends the run.
#[derive(Debug, Clone, Copy, PartialEq, Eq, Structural)]
pub enum ReportError {
    /// The roster could not be read.
    ResourceUnavailable,
    /// A page gave no answer on any of its attempts.
    UpstreamUnavailable,
    /// The report could not be written.
    OutputUnavailable,
}

/// The message that names the stage at which the run ended.
pub open spec fn message_of(error: ReportError) -> Seq<char> {
    match error {
        ReportError::ResourceUnavailable => "roster load failed: the roster could not be read"@,
        ReportError::UpstreamUnavailable => "page fetch failed: no answer after every attempt at a page"@,
        ReportError::OutputUnavailable => "output creation failed: the report could not be written"@,
    }
}

impl ReportError {
    /// The message that names the stage at which the run ended.
    pub fn message(&self) -> (text: String)
        ensures
            text@ == message_of(*self),
    {
        match self {
            ReportError::ResourceUnavailable => String::from_str(
                "roster load failed: the roster could not be read",
            ),
            ReportError::UpstreamUnavailable => String::from_str(
                "page fetch failed: no answer after every attempt at a page",
            ),
            ReportError::OutputUnavailable => String::from_str(
                "output creation failed: the report could not be written",
            ),
        }
    }
}

} // verus!
