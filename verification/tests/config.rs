use gamestore::auth::{CLIENT_ID_ENV, GALAXY_REDIRECT_URI};
use gamestore::config::{Auth, Download, Ludusavi, CACHE_DIR_ENV, CONFIG_DIR_ENV, DATA_DIR_ENV};
use gamestore::{Config, Error, Paths, Result};

/// The error of a result whose success value has no `Debug`.
fn failure<T>(result: Result<T>) -> Error {
    match result {
        Ok(_) => panic!("expected an error"),
        Err(error) => error,
    }
}


fn overrides(dir: &'static str) -> impl Fn(&str) -> Option<String> {
    move |key| match key {
        CONFIG_DIR_ENV => Some(format!("{dir}/config")),
        DATA_DIR_ENV => Some(format!("{dir}/data")),
        CACHE_DIR_ENV => Some(format!("{dir}/cache")),
        _ => None,
    }
}

#[test]
fn environment_overrides_win_over_platform_defaults() {
    let paths = Paths::resolve_with(overrides("/somewhere")).unwrap();

    assert_eq!(paths.config_dir, "/somewhere/config");
    assert_eq!(paths.config_file(), "/somewhere/config/config.toml");
    assert_eq!(paths.install_root(), "/somewhere/data/games");
    assert_eq!(paths.cache_dir, "/somewhere/cache");
    assert_eq!(paths.log_dir(), "/somewhere/data/logs");
}

#[test]
fn the_environment_wins_over_the_configured_credentials() {
    let paths = Paths::resolve_with(overrides("/somewhere")).unwrap();
    let config = Config {
        auth: Auth {
            client_id: Some("from-file".to_string()),
            client_secret: Some("file-secret".to_string()),
            redirect_uri: None,
        },
        ..Config::default()
    };

    let credentials = config
        .credentials(&paths, |key| {
            if key == CLIENT_ID_ENV {
                Some("from-env".to_string())
            } else {
                None
            }
        })
        .unwrap();

    assert_eq!(credentials.client_id, "from-env");
    assert_eq!(credentials.client_secret, "file-secret");
    assert_eq!(credentials.redirect_uri, GALAXY_REDIRECT_URI);
}

#[test]
fn missing_credentials_point_at_the_config_file() {
    let paths = Paths::resolve_with(overrides("/somewhere")).unwrap();

    let error = failure(Config::default().credentials(&paths, |_| None));

    assert!(matches!(error, Error::MissingCredentials { .. }), "{error:?}");
    assert!(error.to_string().contains("config.toml"), "{error:?}");
    assert!(error.to_string().contains(CLIENT_ID_ENV), "{error:?}");
}

#[test]
fn the_redacted_config_hides_only_the_secret() {
    let config = Config {
        auth: Auth {
            client_id: Some("an-id".to_string()),
            client_secret: Some("a-secret".to_string()),
            redirect_uri: Some("http://localhost/cb".to_string()),
        },
        ..Config::default()
    };

    let printed = config.redacted();

    assert_eq!(printed.auth.client_secret.as_deref(), Some("<redacted>"));
    assert_eq!(printed.auth.client_id.as_deref(), Some("an-id"));
    assert!(Config::default().redacted() == Config::default());
    assert_eq!(config.auth.client_secret.as_deref(), Some("a-secret"));
}

#[test]
fn a_configured_redirect_is_used_for_the_credentials() {
    let paths = Paths::resolve_with(overrides("/somewhere")).unwrap();
    let config = Config {
        auth: Auth {
            client_id: Some("an-id".to_string()),
            client_secret: Some("a-secret".to_string()),
            redirect_uri: Some("http://localhost/cb".to_string()),
        },
        ..Config::default()
    };

    let credentials = config.credentials(&paths, |_| None).unwrap();

    assert_eq!(credentials.redirect_uri, "http://localhost/cb");
}

#[test]
fn the_install_root_setting_wins_over_the_data_directory() {
    let paths = Paths::resolve_with(overrides("/somewhere")).unwrap();
    let mut config = Config::default();

    assert_eq!(config.install_root(&paths), "/somewhere/data/games");
    config.install_root = Some("/games".to_string());
    assert_eq!(config.install_root(&paths), "/games");
}

#[test]
fn the_defaults_are_polite() {
    assert_eq!(Download::default().concurrency, 4);
    assert_eq!(Ludusavi::default().binary, "ludusavi");
    assert!(Auth::default().client_id.is_none());
}

fn owned(text: &str) -> String {
    text.to_string()
}

fn defaults() -> Option<(String, String, String)> {
    Some((owned("/home/u/.config/gamestore"), owned("/home/u/.local/share/gamestore"), owned("/home/u/.cache/gamestore")))
}

#[test]
fn each_directory_is_its_variable_or_its_own_default() {
    let paths = Paths::resolve_from(None, Some(owned("/d")), None, defaults()).unwrap();

    assert_eq!(paths.config_dir, "/home/u/.config/gamestore");
    assert_eq!(paths.data_dir, "/d");
    assert_eq!(paths.cache_dir, "/home/u/.cache/gamestore");
}

#[test]
fn every_variable_set_needs_no_defaults() {
    let paths = Paths::resolve_from(Some(owned("/c")), Some(owned("/d")), Some(owned("/k")), None).unwrap();

    assert_eq!(paths, Paths { config_dir: owned("/c"), data_dir: owned("/d"), cache_dir: owned("/k") });
}

#[test]
fn the_first_directory_without_a_value_is_reported_missing() {
    let missing = |config: Option<&str>, data: Option<&str>, cache: Option<&str>| {
        match failure(Paths::resolve_from(config.map(owned), data.map(owned), cache.map(owned), None)) {
            Error::MissingDirectory(what) => what,
            other => panic!("unexpected error {other:?}"),
        }
    };

    assert_eq!(missing(None, None, None), "configuration");
    assert_eq!(missing(Some("/c"), None, None), "data");
    assert_eq!(missing(Some("/c"), Some("/d"), None), "cache");
    assert_eq!(missing(None, Some("/d"), Some("/k")), "configuration");
}
