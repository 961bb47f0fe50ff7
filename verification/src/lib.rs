//! Install and launch GOG games from the Steam library: the platform-agnostic core.

pub mod atomic;
pub mod auth;
pub mod catalog;
pub mod config;
pub mod error;
pub mod http;
pub mod json;
pub mod linux;
pub mod order;
pub mod platform;
pub mod registry;
pub mod shortcuts;
pub mod steam;
pub mod text;
pub mod tiles;
pub mod time;
pub mod tokens;
pub mod vdf;
pub mod windows;

pub use config::{Config, Paths};
pub use error::{Error, Result};

use vstd::prelude::*;

verus! {

/// Name used for configuration and data directories, and for the command-line
/// binary.
pub const APP_NAME: &'static str = "gamestore";

} // verus!
