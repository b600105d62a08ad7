//! The error taxonomy shared by every component.
use vstd::prelude::*;

verus! {

/// What can go wrong in a request. Each variant carries a message for the
/// caller; the variant alone decides how the boundary answers.
#[derive(Debug)]
pub enum Error {
    /// Anything that has no variant of its own, such as a missing shared secret.
    Other(String),
    /// The token is missing, malformed, expired or not signed with the shared secret.
    NotLogin(String),
    /// The offset or length of a write violates the declared length or would leave a gap.
    Bounds(String),
    /// The artifact, or a configuration value that was needed, is absent.
    NotFound(String),
    /// The storage failed for a reason other than absence.
    Io(String),
}

pub type Result<T> = std::result::Result<T, Error>;

impl Error {
    /// The message that the error carries.
    pub open spec fn text(self) -> Seq<char> {
        match self {
            Error::Other(m) => m@,
            Error::NotLogin(m) => m@,
            Error::Bounds(m) => m@,
            Error::NotFound(m) => m@,
            Error::Io(m) => m@,
        }
    }

    /// The status code with which the request boundary answers this error:
    /// 401 for a caller that is not authenticated, 500 for everything else.
    pub open spec fn status(self) -> u16 {
        if self is NotLogin {
            401
        } else {
            500
        }
    }

    pub fn message(&self) -> (m: String)
        ensures
            m@ == self.text(),
    {
        match self {
            Error::Other(m) => m.clone(),
            Error::NotLogin(m) => m.clone(),
            Error::Bounds(m) => m.clone(),
            Error::NotFound(m) => m.clone(),
            Error::Io(m) => m.clone(),
        }
    }

    pub fn status_code(&self) -> (code: u16)
        ensures
            code == self.status(),
    {
        match self {
            Error::NotLogin(_) => 401,
            _ => 500,
        }
    }

    /// The same failure as seen by a caller who must first be authenticated:
    /// every error on the way to a subject becomes `NotLogin`, with its message kept.
    pub fn into_not_login(self) -> (e: Error)
        ensures
            e is NotLogin,
            e.text() == self.text(),
    {
        match self {
            Error::Other(m) => Error::NotLogin(m),
            Error::NotLogin(m) => Error::NotLogin(m),
            Error::Bounds(m) => Error::NotLogin(m),
            Error::NotFound(m) => Error::NotLogin(m),
            Error::Io(m) => Error::NotLogin(m),
        }
    }
}

} // verus!
