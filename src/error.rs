use vstd::prelude::*;

verus! {

/// Errors that can occur while reading or resolving a VAST document.
#[derive(Debug, Clone, PartialEq, Eq)]
pub enum VastError {
    /// The markup is not well formed, or ends before an element is closed.
    XmlParseError(String),
    /// Reading a local document failed.
    IoError(String),
    /// The VAST version is not usable.
    InvalidVersion(String),
    /// A mandatory field is absent.
    MissingField(String),
    /// A remote location is not a valid URL.
    UrlError(String),
    /// A format feature that is not supported.
    UnsupportedFeature(String),
    /// Any other failure, such as a network error or a timeout.
    Other(String),
}

impl VastError {
    /// A message describing the error.
    pub fn message(&self) -> (r: String)
        ensures
            r@ == self.detail(),
    {
        match self {
            VastError::XmlParseError(s) => s.clone(),
            VastError::IoError(s) => s.clone(),
            VastError::InvalidVersion(s) => s.clone(),
            VastError::MissingField(s) => s.clone(),
            VastError::UrlError(s) => s.clone(),
            VastError::UnsupportedFeature(s) => s.clone(),
            VastError::Other(s) => s.clone(),
        }
    }

    pub open spec fn detail(&self) -> Seq<char> {
        match self {
            VastError::XmlParseError(s) => s@,
            VastError::IoError(s) => s@,
            VastError::InvalidVersion(s) => s@,
            VastError::MissingField(s) => s@,
            VastError::UrlError(s) => s@,
            VastError::UnsupportedFeature(s) => s@,
            VastError::Other(s) => s@,
        }
    }
}

pub type Result<T> = core::result::Result<T, VastError>;

} // verus!
