//! The error type shared by every part of gamestore.

use vstd::prelude::*;

use crate::text::{joined, owned};

verus! {

/// Anything that can go wrong while running gamestore.
#[derive(Debug)]
pub enum Error {
    /// A filesystem or terminal operation failed.
    Io { operation: String, reason: String },
    /// A platform directory could not be determined.
    MissingDirectory(String),
    /// The configuration file could not be parsed.
    ConfigParse { path: String, reason: String },
    /// The configuration could not be serialized.
    ConfigSerialize(String),
    /// No OAuth2 client credentials are configured.
    MissingCredentials { path: String },
    /// A request failed before any response came back.
    Http { url: String, reason: String },
    /// The GOG login or token exchange failed.
    Auth(String),
    /// The token store could not be used.
    TokenStore(String),
    /// A binary VDF document could not be read or written.
    Vdf(String),
    /// The GOG library could not be read.
    Catalog(String),
    /// The installed-games registry could not be read or written.
    Registry(String),
    /// There is no GOG session.
    NotLoggedIn,
    /// No Steam installation was found.
    SteamNotFound,
    /// The platform does not support an operation.
    Unsupported(String),
    /// The Steam accounts on this machine do not allow the requested choice.
    Steam(String),
}

/// Result with [`Error`] as its error type.
pub type Result<T> = core::result::Result<T, Error>;

/// The message an error is shown with.
pub open spec fn message(error: Error) -> Seq<char> {
    match error {
        Error::Io { operation, reason } => operation@ + " failed: "@ + reason@,
        Error::MissingDirectory(what) => "could not determine the "@ + what@
            + " directory for this platform"@,
        Error::ConfigParse { path, reason } => "could not parse the configuration file "@ + path@
            + ": "@ + reason@,
        Error::ConfigSerialize(reason) => "could not serialize the configuration: "@ + reason@,
        Error::MissingCredentials { path } => "no GOG client credentials configured; put them under [auth] in "@
            + path@ + " or set GOG_CLIENT_ID and GOG_CLIENT_SECRET"@,
        Error::Http { url, reason } => "request to "@ + url@ + " failed: "@ + reason@,
        Error::Auth(reason) => "GOG login failed: "@ + reason@,
        Error::TokenStore(reason) => reason@,
        Error::Vdf(reason) => reason@,
        Error::Catalog(reason) => "the GOG library could not be read: "@ + reason@,
        Error::Registry(reason) => reason@,
        Error::NotLoggedIn => "not logged in to GOG; run `gamestore login`"@,
        Error::SteamNotFound => "no Steam installation found; set STEAM_ROOT to point at one"@,
        Error::Unsupported(what) => what@ + " is not supported on this platform"@,
        Error::Steam(reason) => reason@,
    }
}

impl Error {
    /// An error about an operation that failed, and why.
    pub fn io(operation: &str, reason: &str) -> (error: Error)
        ensures
            error matches Error::Io { operation: o, reason: r } && o@ == operation@ && r@ == reason@,
    {
        Error::Io { operation: owned(operation), reason: owned(reason) }
    }

    /// The message this error is shown with.
    pub fn to_string(&self) -> (text: String)
        ensures
            text@ == message(*self),
    {
        match self {
            Error::Io { operation, reason } => {
                let text = joined(operation.as_str(), " failed: ");
                joined(text.as_str(), reason.as_str())
            },
            Error::MissingDirectory(what) => {
                let text = joined("could not determine the ", what.as_str());
                joined(text.as_str(), " directory for this platform")
            },
            Error::ConfigParse { path, reason } => {
                let text = joined("could not parse the configuration file ", path.as_str());
                let text = joined(text.as_str(), ": ");
                joined(text.as_str(), reason.as_str())
            },
            Error::ConfigSerialize(reason) => joined(
                "could not serialize the configuration: ",
                reason.as_str(),
            ),
            Error::MissingCredentials { path } => {
                let text = joined(
                    "no GOG client credentials configured; put them under [auth] in ",
                    path.as_str(),
                );
                joined(text.as_str(), " or set GOG_CLIENT_ID and GOG_CLIENT_SECRET")
            },
            Error::Http { url, reason } => {
                let text = joined("request to ", url.as_str());
                let text = joined(text.as_str(), " failed: ");
                joined(text.as_str(), reason.as_str())
            },
            Error::Auth(reason) => joined("GOG login failed: ", reason.as_str()),
            Error::TokenStore(reason) => owned(reason.as_str()),
            Error::Vdf(reason) => owned(reason.as_str()),
            Error::Catalog(reason) => joined("the GOG library could not be read: ", reason.as_str()),
            Error::Registry(reason) => owned(reason.as_str()),
            Error::NotLoggedIn => owned("not logged in to GOG; run `gamestore login`"),
            Error::SteamNotFound => owned("no Steam installation found; set STEAM_ROOT to point at one"),
            Error::Unsupported(what) => joined(what.as_str(), " is not supported on this platform"),
            Error::Steam(reason) => owned(reason.as_str()),
        }
    }
}

} // verus!
