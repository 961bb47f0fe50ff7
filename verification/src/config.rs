//! Configuration and the per-platform directories it lives in.

use vstd::prelude::*;

use crate::auth::{Credentials, CLIENT_ID_ENV, CLIENT_SECRET_ENV, GALAXY_REDIRECT_URI};
use crate::error::{Error, Result};
use crate::text::{join_path, joined_path, owned};

verus! {

/// Environment variable overriding the configuration directory.
pub const CONFIG_DIR_ENV: &'static str = "GAMESTORE_CONFIG_DIR";
/// Environment variable overriding the data directory.
pub const DATA_DIR_ENV: &'static str = "GAMESTORE_DATA_DIR";
/// Environment variable overriding the cache directory.
pub const CACHE_DIR_ENV: &'static str = "GAMESTORE_CACHE_DIR";

/// Where gamestore keeps its configuration, state and cache.
#[derive(Debug, Clone, PartialEq, Eq)]
pub struct Paths {
    /// Holds `config.toml`.
    pub config_dir: String,
    /// Holds installed games, launch wrappers and per-game logs.
    pub data_dir: String,
    /// Holds the catalog cache and downloaded installers.
    pub cache_dir: String,
}

impl Paths {
    /// The configuration file, whether or not it exists yet.
    pub fn config_file(&self) -> (path: String)
        ensures
            path@ == joined_path(self.config_dir@, "config.toml"@),
    {
        join_path(self.config_dir.as_str(), "config.toml")
    }

    /// Where installed games go unless the configuration says otherwise.
    pub fn install_root(&self) -> (path: String)
        ensures
            path@ == joined_path(self.data_dir@, "games"@),
    {
        join_path(self.data_dir.as_str(), "games")
    }

    /// Where per-game launch logs go; Big Picture has no terminal to read.
    pub fn log_dir(&self) -> (path: String)
        ensures
            path@ == joined_path(self.data_dir@, "logs"@),
    {
        join_path(self.data_dir.as_str(), "logs")
    }
}

/// A platform's standard directories for an application.
#[verifier::external_type_specification]
#[verifier::external_body]
pub struct ExProjectDirs(directories::ProjectDirs);

/// The platform's standard directories for `application`, when the platform has
/// a home directory to put them under.
///
/// Trusted: `directories::ProjectDirs::from`, which reads the environment (the
/// home directory, the XDG variables), so nothing is claimed of the result.
#[verifier::external_body]
fn project_dirs(qualifier: &str, organization: &str, application: &str) -> Option<directories::ProjectDirs> {
    directories::ProjectDirs::from(qualifier, organization, application)
}

/// The configuration directory of a set of standard directories.
///
/// Trusted: `directories::ProjectDirs::config_dir`, read as text (lossily, for a
/// path that is not UTF-8).
#[verifier::external_body]
fn config_dir_of(dirs: &directories::ProjectDirs) -> String {
    dirs.config_dir().to_string_lossy().into_owned()
}

/// The data directory of a set of standard directories.
///
/// Trusted: `directories::ProjectDirs::data_dir`, read as text.
#[verifier::external_body]
fn data_dir_of(dirs: &directories::ProjectDirs) -> String {
    dirs.data_dir().to_string_lossy().into_owned()
}

/// The cache directory of a set of standard directories.
///
/// Trusted: `directories::ProjectDirs::cache_dir`, read as text.
#[verifier::external_body]
fn cache_dir_of(dirs: &directories::ProjectDirs) -> String {
    dirs.cache_dir().to_string_lossy().into_owned()
}

/// The platform's standard configuration, data and cache directories for
/// gamestore, when the platform has a home directory to put them under.
fn platform_defaults() -> (defaults: Option<(String, String, String)>) {
    match project_dirs("", "", crate::APP_NAME) {
        Some(dirs) => Some((config_dir_of(&dirs), data_dir_of(&dirs), cache_dir_of(&dirs))),
        None => None,
    }
}

/// The default configuration directory among `defaults`.
pub open spec fn default_config(defaults: Option<(String, String, String)>) -> Option<String> {
    match defaults {
        Some((config, _, _)) => Some(config),
        None => None,
    }
}

/// The default data directory among `defaults`.
pub open spec fn default_data(defaults: Option<(String, String, String)>) -> Option<String> {
    match defaults {
        Some((_, data, _)) => Some(data),
        None => None,
    }
}

/// The default cache directory among `defaults`.
pub open spec fn default_cache(defaults: Option<(String, String, String)>) -> Option<String> {
    match defaults {
        Some((_, _, cache)) => Some(cache),
        None => None,
    }
}

/// A variable's value when it is set, else the default.
pub open spec fn set_or(value: Option<String>, default: Option<String>) -> Option<String> {
    match value {
        Some(value) => Some(value),
        None => default,
    }
}

/// Whether `result` is what the variables' values `config`, `data` and `cache`
/// and the platform's `defaults` resolve to: each directory is its variable's
/// value when it is set and else its default; the first directory, in the order
/// configuration, data, cache, that has neither is the one reported missing.
pub open spec fn resolved(
    config: Option<String>,
    data: Option<String>,
    cache: Option<String>,
    defaults: Option<(String, String, String)>,
    result: Result<Paths>,
) -> bool {
    match (
        set_or(config, default_config(defaults)),
        set_or(data, default_data(defaults)),
        set_or(cache, default_cache(defaults)),
    ) {
        (None, _, _) => result matches Err(Error::MissingDirectory(what)) && what@ == "configuration"@,
        (Some(_), None, _) => result matches Err(Error::MissingDirectory(what)) && what@ == "data"@,
        (Some(_), Some(_), None) => result matches Err(Error::MissingDirectory(what)) && what@ == "cache"@,
        (Some(config_dir), Some(data_dir), Some(cache_dir)) => result matches Ok(paths) && paths.config_dir
            == config_dir && paths.data_dir == data_dir && paths.cache_dir == cache_dir,
    }
}

/// A variable's value when it is set, else the default, else that `what` has no
/// directory.
fn set_or_default(value: Option<String>, default: Option<String>, what: &str) -> (result: Result<String>)
    ensures
        match set_or(value, default) {
            Some(dir) => result == Ok::<String, Error>(dir),
            None => result matches Err(Error::MissingDirectory(missing)) && missing@ == what@,
        },
{
    match value {
        Some(value) => Ok(value),
        None => match default {
            Some(default) => Ok(default),
            None => Err(Error::MissingDirectory(owned(what))),
        },
    }
}

impl Paths {
    /// The directories that the values of [`CONFIG_DIR_ENV`], [`DATA_DIR_ENV`] and
    /// [`CACHE_DIR_ENV`] and the platform's `defaults` (configuration, data,
    /// cache) give: each variable that is set wins over the default for its
    /// directory.
    pub fn resolve_from(
        config: Option<String>,
        data: Option<String>,
        cache: Option<String>,
        defaults: Option<(String, String, String)>,
    ) -> (result: Result<Paths>)
        ensures
            resolved(config, data, cache, defaults, result),
    {
        let (default_config_dir, default_data_dir, default_cache_dir) = match defaults {
            Some((config_dir, data_dir, cache_dir)) => (Some(config_dir), Some(data_dir), Some(cache_dir)),
            None => (None, None, None),
        };
        let config_dir = match set_or_default(config, default_config_dir, "configuration") {
            Ok(dir) => dir,
            Err(error) => return Err(error),
        };
        let data_dir = match set_or_default(data, default_data_dir, "data") {
            Ok(dir) => dir,
            Err(error) => return Err(error),
        };
        let cache_dir = match set_or_default(cache, default_cache_dir, "cache") {
            Ok(dir) => dir,
            Err(error) => return Err(error),
        };
        Ok(Paths { config_dir, data_dir, cache_dir })
    }

    /// Resolve the directories from `lookup`, which reads the environment, and the
    /// platform defaults, as [`Paths::resolve_from`] does. Each of
    /// [`CONFIG_DIR_ENV`], [`DATA_DIR_ENV`] and [`CACHE_DIR_ENV`] wins over the
    /// default for its directory.
    pub fn resolve_with<F: Fn(&str) -> Option<String>>(lookup: F) -> (result: Result<Paths>)
        requires
            call_requires(lookup, (CONFIG_DIR_ENV,)),
            call_requires(lookup, (DATA_DIR_ENV,)),
            call_requires(lookup, (CACHE_DIR_ENV,)),
        ensures
            exists|config: Option<String>, data: Option<String>, cache: Option<String>, defaults: Option<(String, String, String)>|
                #![trigger resolved(config, data, cache, defaults, result)]
                call_ensures(lookup, (CONFIG_DIR_ENV,), config) && call_ensures(lookup, (DATA_DIR_ENV,), data)
                    && call_ensures(lookup, (CACHE_DIR_ENV,), cache) && resolved(config, data, cache, defaults, result),
            (forall|v: Option<String>| #[trigger] call_ensures(lookup, (CONFIG_DIR_ENV,), v) ==> v is Some)
                && (forall|v: Option<String>| #[trigger] call_ensures(lookup, (DATA_DIR_ENV,), v) ==> v is Some)
                && (forall|v: Option<String>| #[trigger] call_ensures(lookup, (CACHE_DIR_ENV,), v) ==> v is Some)
                ==> result is Ok,
    {
        let defaults = platform_defaults();
        let config = lookup(CONFIG_DIR_ENV);
        let data = lookup(DATA_DIR_ENV);
        let cache = lookup(CACHE_DIR_ENV);
        Paths::resolve_from(config, data, cache, defaults)
    }
}

/// GOG OAuth2 client credentials. There is no built-in default: the user
/// supplies them here or in the environment.
#[derive(Clone, PartialEq, Eq)]
pub struct Auth {
    pub client_id: Option<String>,
    pub client_secret: Option<String>,
    /// Only for a client registered with a different redirect than Galaxy's.
    pub redirect_uri: Option<String>,
}

impl Default for Auth {
    /// No credentials configured.
    fn default() -> (auth: Auth)
        ensures
            auth.client_id is None,
            auth.client_secret is None,
            auth.redirect_uri is None,
    {
        Auth { client_id: None, client_secret: None, redirect_uri: None }
    }
}

/// Download behaviour. Defaults are deliberately polite: GOG rate-limits.
#[derive(Debug, Clone, PartialEq, Eq)]
pub struct Download {
    /// Number of chunks fetched in parallel.
    pub concurrency: usize,
}

impl Default for Download {
    /// Four chunks at a time.
    fn default() -> (download: Download)
        ensures
            download.concurrency == 4,
    {
        Download { concurrency: 4 }
    }
}

/// How to reach Ludusavi, which handles save backup and restore.
#[derive(Debug, Clone, PartialEq, Eq)]
pub struct Ludusavi {
    /// Binary name or absolute path; resolved on `PATH` when it is a bare name.
    pub binary: String,
}

impl Default for Ludusavi {
    /// The binary called `ludusavi`, looked up on `PATH`.
    fn default() -> (ludusavi: Ludusavi)
        ensures
            ludusavi.binary@ == "ludusavi"@,
    {
        Ludusavi { binary: owned("ludusavi") }
    }
}

/// The user's configuration, as read from `config.toml`.
#[derive(Clone, PartialEq, Eq)]
pub struct Config {
    /// Install games here instead of under the data directory.
    pub install_root: Option<String>,
    pub auth: Auth,
    pub download: Download,
    pub ludusavi: Ludusavi,
}

impl Default for Config {
    /// Everything at its default.
    fn default() -> (config: Config)
        ensures
            config.install_root is None,
            config.auth.client_id is None,
            config.auth.client_secret is None,
            config.auth.redirect_uri is None,
            config.download.concurrency == 4,
            config.ludusavi.binary@ == "ludusavi"@,
    {
        Config {
            install_root: None,
            auth: Auth::default(),
            download: Download::default(),
            ludusavi: Ludusavi::default(),
        }
    }
}

/// A copy of an optional string.
fn copy_text(text: &Option<String>) -> (copy: Option<String>)
    ensures
        copy == *text,
{
    match text {
        Some(text) => Some(text.clone()),
        None => None,
    }
}

/// Which of two values wins: the environment's when it is set, else the
/// configuration's.
pub open spec fn preferred(environment: Option<String>, configured: Option<String>) -> Option<String> {
    match environment {
        Some(value) => Some(value),
        None => configured,
    }
}

/// The credentials a configuration gives with `client_id` and `client_secret`
/// chosen: `None` when either is missing.
pub open spec fn credentials_from(
    auth: Auth,
    client_id: Option<String>,
    client_secret: Option<String>,
    credentials: Credentials,
) -> bool {
    &&& client_id matches Some(id) && credentials.client_id@ == id@
    &&& client_secret matches Some(secret) && credentials.client_secret@ == secret@
    &&& credentials.redirect_uri@ == match auth.redirect_uri {
        Some(uri) => uri@,
        None => GALAXY_REDIRECT_URI@,
    }
}

impl Config {
    /// The OAuth2 credentials to log in with. The environment, read by `lookup`,
    /// wins over the file, so a shared machine can keep them out of a config the
    /// kids can read. With either missing the error points at the configuration
    /// file.
    pub fn credentials<F: Fn(&str) -> Option<String>>(&self, paths: &Paths, lookup: F) -> (result: Result<Credentials>)
        requires
            call_requires(lookup, (CLIENT_ID_ENV,)),
            call_requires(lookup, (CLIENT_SECRET_ENV,)),
        ensures
            exists|from_env_id: Option<String>, from_env_secret: Option<String>| {
                &&& call_ensures(lookup, (CLIENT_ID_ENV,), from_env_id)
                &&& call_ensures(lookup, (CLIENT_SECRET_ENV,), from_env_secret)
                &&& {
                    let id = preferred(from_env_id, self.auth.client_id);
                    let secret = preferred(from_env_secret, self.auth.client_secret);
                    match result {
                        Ok(credentials) => credentials_from(self.auth, id, secret, credentials),
                        Err(Error::MissingCredentials { path }) => (id is None || secret is None)
                            && path@ == joined_path(paths.config_dir@, "config.toml"@),
                        Err(_) => false,
                    }
                }
            },
    {
        let from_env_id = lookup(CLIENT_ID_ENV);
        let from_env_secret = lookup(CLIENT_SECRET_ENV);
        let ghost env_id = from_env_id;
        let ghost env_secret = from_env_secret;
        let client_id = match from_env_id {
            Some(value) => Some(value),
            None => copy_text(&self.auth.client_id),
        };
        let client_secret = match from_env_secret {
            Some(value) => Some(value),
            None => copy_text(&self.auth.client_secret),
        };
        match (client_id, client_secret) {
            (Some(client_id), Some(client_secret)) => {
                let credentials = Credentials::new(client_id.as_str(), client_secret.as_str());
                match &self.auth.redirect_uri {
                    Some(redirect_uri) => Ok(credentials.with_redirect_uri(redirect_uri.as_str())),
                    None => Ok(credentials),
                }
            },
            _ => Err(Error::MissingCredentials { path: paths.config_file() }),
        }
    }

    /// The configuration with the client secret, when there is one, replaced by
    /// `<redacted>`, for printing.
    pub fn redacted(&self) -> (config: Config)
        ensures
            config.install_root == self.install_root,
            config.auth.client_id == self.auth.client_id,
            config.auth.redirect_uri == self.auth.redirect_uri,
            self.auth.client_secret is None ==> config.auth.client_secret is None,
            self.auth.client_secret is Some ==> (config.auth.client_secret matches Some(secret)
                && secret@ == "<redacted>"@),
            config.download == self.download,
            config.ludusavi.binary == self.ludusavi.binary,
    {
        let secret = match &self.auth.client_secret {
            Some(_) => Some(owned("<redacted>")),
            None => None,
        };
        Config {
            install_root: copy_text(&self.install_root),
            auth: Auth {
                client_id: copy_text(&self.auth.client_id),
                client_secret: secret,
                redirect_uri: copy_text(&self.auth.redirect_uri),
            },
            download: Download { concurrency: self.download.concurrency },
            ludusavi: Ludusavi { binary: self.ludusavi.binary.clone() },
        }
    }

    /// Where games are installed, honouring `install_root`.
    pub fn install_root(&self, paths: &Paths) -> (root: String)
        ensures
            root@ == match self.install_root {
                Some(root) => root@,
                None => joined_path(paths.data_dir@, "games"@),
            },
    {
        match &self.install_root {
            Some(root) => root.clone(),
            None => paths.install_root(),
        }
    }
}

/// Law: a setting from the environment wins over the configured one, which is
/// used only when the environment has none; directories given by all three
/// variables are used as they are, whatever the platform defaults; and with no
/// platform defaults every directory needs its variable.
pub proof fn lemma_environment_wins(
    environment: Option<String>,
    configured: Option<String>,
    config: Option<String>,
    data: Option<String>,
    cache: Option<String>,
    defaults: Option<(String, String, String)>,
    result: Result<Paths>,
)
    ensures
        environment matches Some(value) ==> preferred(environment, configured) == Some(value),
        environment is None ==> preferred(environment, configured) == configured,
        (config is Some && data is Some && cache is Some && resolved(
            config,
            data,
            cache,
            defaults,
            result,
        )) ==> (result matches Ok(paths) && paths.config_dir == config.unwrap() && paths.data_dir == data.unwrap()
            && paths.cache_dir == cache.unwrap()),
        (defaults is None && (config is None || data is None || cache is None) && resolved(
            config,
            data,
            cache,
            defaults,
            result,
        )) ==> (result matches Err(Error::MissingDirectory(_))),
        (defaults is Some && config is None && data is None && cache is None && resolved(
            config,
            data,
            cache,
            defaults,
            result,
        )) ==> (result matches Ok(paths) && paths.config_dir == defaults.unwrap().0 && paths.data_dir
            == defaults.unwrap().1 && paths.cache_dir == defaults.unwrap().2),
{
}

} // verus!
