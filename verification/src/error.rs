//! The ways in which obtaining a puzzle input fails.

use vstd::prelude::*;
use vstd::std_specs::convert::FromSpecImpl;

verus! {

/// `std::io::Error`, the failure of a read or a write. It is carried
/// through as it came: nothing is known of what it holds.
#[verifier::external_type_specification]
#[verifier::external_body]
pub struct ExIoError(std::io::Error);

/// `ureq::Error`, the failure of a request. It is carried through as it
/// came: nothing is known of what it holds.
#[verifier::external_type_specification]
#[verifier::external_body]
pub struct ExNetworkError(ureq::Error);

/// Why no input could be obtained.
#[derive(Debug)]
pub enum AocError {
    /// The cache could not be used.
    Cache(std::io::Error),
    /// The download failed: the request could not be made or completed, or
    /// the server answered with an error status.
    Network(ureq::Error),
}

/// How the message for a cache failure begins.
pub open spec fn cache_failure_intro() -> Seq<char> {
    "failed to load input from cache: "@
}

/// How the message for a download failure begins.
pub open spec fn network_failure_intro() -> Seq<char> {
    "failed to download input from adventofcode.com: "@
}

/// The text that `std::io::Error` shows for itself through `Display`.
/// Nothing is claimed of it: it may come from the operating system.
#[verifier::external_body]
fn io_error_text(error: &std::io::Error) -> (text: String) {
    format!("{error}")
}

/// The text that `ureq::Error` shows for itself through `Display`.
/// Nothing is claimed of it: it may enclose an error of the operating system.
#[verifier::external_body]
fn network_error_text(error: &ureq::Error) -> (text: String) {
    format!("{error}")
}

impl AocError {
    /// How the message for this failure begins.
    pub open spec fn intro(&self) -> Seq<char> {
        match self {
            AocError::Cache(_) => cache_failure_intro(),
            AocError::Network(_) => network_failure_intro(),
        }
    }

    /// The message for this failure: its introduction, then what the
    /// enclosed error says of itself.
    pub fn message(&self) -> (text: String)
        ensures
            self.intro().is_prefix_of(text@),
    {
        match self {
            AocError::Cache(error) => {
                let mut text: String = String::from_str("failed to load input from cache: ");
                let detail: String = io_error_text(error);
                text.append(detail.as_str());
                text
            },
            AocError::Network(error) => {
                let mut text: String = String::from_str(
                    "failed to download input from adventofcode.com: ",
                );
                let detail: String = network_error_text(error);
                text.append(detail.as_str());
                text
            },
        }
    }
}

impl FromSpecImpl<std::io::Error> for AocError {
    open spec fn obeys_from_spec() -> bool {
        true
    }

    open spec fn from_spec(error: std::io::Error) -> AocError {
        AocError::Cache(error)
    }
}

impl From<std::io::Error> for AocError {
    fn from(error: std::io::Error) -> (failure: AocError)
        ensures
            failure == AocError::Cache(error),
    {
        AocError::Cache(error)
    }
}

impl FromSpecImpl<ureq::Error> for AocError {
    open spec fn obeys_from_spec() -> bool {
        true
    }

    open spec fn from_spec(error: ureq::Error) -> AocError {
        AocError::Network(error)
    }
}

impl From<ureq::Error> for AocError {
    fn from(error: ureq::Error) -> (failure: AocError)
        ensures
            failure == AocError::Network(error),
    {
        AocError::Network(error)
    }
}

} // verus!
