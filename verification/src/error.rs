//! The errors that a command reports, and their wording.

use vstd::prelude::*;

verus! {

/// Why an operation failed.
#[derive(Debug)]
pub enum OpenBoltError {
    /// An input or output operation failed, with the system's own words.
    Io(String),
    /// Service discovery failed.
    Mdns(String),
    InvalidPath,
    /// The named service runs already.
    AlreadyRunning(&'static str),
    /// The named service does not run.
    NotRunning(&'static str),
    /// An outside command or request failed.
    CommandFailed(String),
    UnsupportedPlatform,
}

pub type OpenBoltResult<T> = Result<T, OpenBoltError>;

impl OpenBoltError {
    /// The sentence that is shown for this error.
    pub open spec fn wording(self) -> Seq<char> {
        match self {
            OpenBoltError::Io(s) => "io error: "@ + s@,
            OpenBoltError::Mdns(s) => "mdns error: "@ + s@,
            OpenBoltError::InvalidPath => "invalid path"@,
            OpenBoltError::AlreadyRunning(s) => "service already running: "@ + s@,
            OpenBoltError::NotRunning(s) => "service not running: "@ + s@,
            OpenBoltError::CommandFailed(s) => "external command failed: "@ + s@,
            OpenBoltError::UnsupportedPlatform => "unsupported platform"@,
        }
    }
}

/// The sentence that is shown for `err`.
pub fn to_err(err: OpenBoltError) -> (r: String)
    ensures
        r@ == err.wording(),
{
    match err {
        OpenBoltError::Io(s) => crate::text::concat("io error: ", s.as_str()),
        OpenBoltError::Mdns(s) => crate::text::concat("mdns error: ", s.as_str()),
        OpenBoltError::InvalidPath => "invalid path".to_string(),
        OpenBoltError::AlreadyRunning(s) => crate::text::concat("service already running: ", s),
        OpenBoltError::NotRunning(s) => crate::text::concat("service not running: ", s),
        OpenBoltError::CommandFailed(s) => {
            crate::text::concat("external command failed: ", s.as_str())
        },
        OpenBoltError::UnsupportedPlatform => "unsupported platform".to_string(),
    }
}

/// The sentence that is shown for an error names its kind and ends in its own
/// words.
pub proof fn law_sentence_ends_in_the_words(words: String, name: &'static str)
    ensures
        OpenBoltError::Io(words).wording() == "io error: "@ + words@,
        OpenBoltError::Mdns(words).wording() == "mdns error: "@ + words@,
        OpenBoltError::CommandFailed(words).wording() == "external command failed: "@ + words@,
        OpenBoltError::AlreadyRunning(name).wording() == "service already running: "@ + name@,
        OpenBoltError::NotRunning(name).wording() == "service not running: "@ + name@,
        OpenBoltError::InvalidPath.wording() == "invalid path"@,
        OpenBoltError::UnsupportedPlatform.wording() == "unsupported platform"@,
{
}

} // verus!
