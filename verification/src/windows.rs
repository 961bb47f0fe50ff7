//! The Windows side: no Proton, no prefix; where Steam is installed.

use vstd::prelude::*;

use crate::error::{Error, Result};
use crate::platform::{first_existing, Platform, STEAM_ROOT_ENV};
use crate::text::{join_path, joined_path};

verus! {

/// Steam on Windows.
#[derive(Debug, Default, Clone, Copy)]
pub struct WindowsPlatform;

impl Platform for WindowsPlatform {
    fn id(&self) -> (id: &'static str)
        ensures
            id@ == "windows"@,
    {
        "windows"
    }

    fn steam_root<F: Fn(&str) -> Option<String>>(&self, lookup: F) -> (result: Result<String>)
        ensures
            result matches Err(error) ==> error is SteamNotFound,
            forall|root: String| #[trigger] call_ensures(lookup, (STEAM_ROOT_ENV,), Some(root)) && (forall|other: Option<String>| call_ensures(lookup, (STEAM_ROOT_ENV,), other) ==> other == Some(root)) ==> result == Ok::<String, Error>(root),
            result matches Ok(root) ==> (exists|set: String| call_ensures(lookup, (STEAM_ROOT_ENV,), Some(set)) && set == root)
                || (exists|dir: String| call_ensures(lookup, ("ProgramFiles(x86)",), Some(dir)) && root@ == joined_path(dir@, "Steam"@))
                || (exists|dir: String| call_ensures(lookup, ("ProgramFiles",), Some(dir)) && root@ == joined_path(dir@, "Steam"@)),
    {
        steam_root_from(lookup)
    }

    fn uses_proton(&self) -> (proton: bool)
        ensures
            !proton,
    {
        false
    }
}

/// Resolve the Steam root: `STEAM_ROOT` wins when `lookup` finds it; else
/// `Steam` under the Program Files directories, the 32-bit one first since 32-bit
/// Steam is the default install even on 64-bit Windows, the first that is a
/// directory; else [`Error::SteamNotFound`].
pub fn steam_root_from<F: Fn(&str) -> Option<String>>(lookup: F) -> (result: Result<String>)
    requires
        forall|key: &str| call_requires(lookup, (key,)),
    ensures
        result matches Err(error) ==> error is SteamNotFound,
        forall|root: String| #[trigger] call_ensures(lookup, (STEAM_ROOT_ENV,), Some(root)) && (forall|other: Option<String>| call_ensures(lookup, (STEAM_ROOT_ENV,), other) ==> other == Some(root)) ==> result == Ok::<String, Error>(root),
        result matches Ok(root) ==> (exists|set: String| call_ensures(lookup, (STEAM_ROOT_ENV,), Some(set)) && set == root)
            || (exists|dir: String| call_ensures(lookup, ("ProgramFiles(x86)",), Some(dir)) && root@ == joined_path(dir@, "Steam"@))
            || (exists|dir: String| call_ensures(lookup, ("ProgramFiles",), Some(dir)) && root@ == joined_path(dir@, "Steam"@)),
{
    match lookup(STEAM_ROOT_ENV) {
        Some(root) => return Ok(root),
        None => {},
    }
    let mut candidates: Vec<String> = Vec::new();
    let x86 = lookup("ProgramFiles(x86)");
    let ghost x86_seen = x86;
    match x86 {
        Some(dir) => candidates.push(join_path(dir.as_str(), "Steam")),
        None => {},
    }
    let native = lookup("ProgramFiles");
    let ghost native_seen = native;
    match native {
        Some(dir) => candidates.push(join_path(dir.as_str(), "Steam")),
        None => {},
    }
    match first_existing(candidates) {
        Some(root) => Ok(root),
        None => Err(Error::SteamNotFound),
    }
}

} // verus!
