//! The tracker abstraction: a capability interface for creating issues and
//! listing open ones, with a no-op variant for dry runs, plus the pure
//! configuration rule that selects which variant a run uses.

use vstd::prelude::*;
use vstd::string::StringExecFns;
use crate::ticket::Ticket;

verus! {

/// A tracker-side issue record, as returned after creation or by a search.
#[derive(Debug, Clone)]
pub struct Issue {
    pub id: u64,
    pub url: String,
    pub html_url: String,
    pub number: u64,
    pub title: String,
    pub body: String,
}

/// A tracker failure: authentication, rate limiting, transport, or an API
/// answer other than success.
#[derive(Debug)]
pub enum Error {
    Auth { message: String },
    RateLimit { message: String },
    Network { message: String },
    Api { status: u16, message: String },
}

impl Error {
    /// The human-readable message carried by the failure.
    pub fn message(&self) -> (r: &str)
        ensures
            match self {
                Error::Auth { message } => r@ == message@,
                Error::RateLimit { message } => r@ == message@,
                Error::Network { message } => r@ == message@,
                Error::Api { message, .. } => r@ == message@,
            },
    {
        match self {
            Error::Auth { message } => message.as_str(),
            Error::RateLimit { message } => message.as_str(),
            Error::Network { message } => message.as_str(),
            Error::Api { message, .. } => message.as_str(),
        }
    }
}

/// The capability the dispatcher needs: create one issue, list open issues.
/// Implementations must be interchangeable; the dispatcher never learns which
/// one it holds, and nothing is promised about whether a call succeeds.
pub trait Tracker {
    /// Attempts to create one issue for `tkt`.
    fn create_issue(&self, tkt: &Ticket) -> (r: Result<Issue, Error>);

    /// Lists all open issues.
    fn search(&self) -> (r: Result<Vec<Issue>, Error>);
}

/// The no-op tracker used for dry runs: creation succeeds without a side
/// effect, and a search finds nothing.
pub struct Null {}

impl Null {
    pub fn new() -> (n: Null) {
        Null {}
    }
}

impl Tracker for Null {
    fn create_issue(&self, tkt: &Ticket) -> (r: Result<Issue, Error>)
        ensures
            r matches Ok(i) && i.title@ == tkt.pname@,
    {
        Ok(
            Issue {
                id: 0,
                url: String::new(),
                html_url: String::new(),
                number: 0,
                title: String::from_str(tkt.name()),
                body: String::new(),
            },
        )
    }

    fn search(&self) -> (r: Result<Vec<Issue>, Error>)
        ensures
            r matches Ok(v) && v@.len() == 0,
    {
        Ok(Vec::new())
    }
}

/// Which tracker a run uses, decided once at startup from configuration.
#[derive(Debug, Clone)]
pub enum TrackerChoice {
    /// A hosted tracker: repository in `owner/name` form, plus a credential.
    Hosted { repo: String, token: String },
    /// The no-op tracker: no repository was configured.
    Dry,
}

/// The one fatal configuration error: a repository without a credential.
#[derive(Debug)]
pub enum ConfigError {
    MissingCredential { repo: String },
}

/// Selects the tracker variant from configuration: a repository with a
/// credential selects the hosted tracker, a repository without one is a fatal
/// configuration error, and no repository selects the no-op tracker.
pub fn select_tracker(repo: Option<String>, token: Option<String>) -> (r: Result<
    TrackerChoice,
    ConfigError,
>)
    ensures
        match (repo, token) {
            (Option::None, _) => r matches Ok(c) && c is Dry,
            (Option::Some(rp), Option::Some(tk)) => r matches Ok(
                TrackerChoice::Hosted { repo: r2, token: t2 },
            ) && r2@ == rp@ && t2@ == tk@,
            (Option::Some(rp), Option::None) => r matches Err(
                ConfigError::MissingCredential { repo: r3 },
            ) && r3@ == rp@,
        },
{
    match (repo, token) {
        (Some(rp), Some(tk)) => Ok(TrackerChoice::Hosted { repo: rp, token: tk }),
        (Some(rp), None) => Err(ConfigError::MissingCredential { repo: rp }),
        (None, _) => Ok(TrackerChoice::Dry),
    }
}

} // verus!
