use std::path::Path;

use gamestore::linux::{steam_root_candidates, steam_root_in, LinuxPlatform};
use gamestore::platform::{first_existing, Platform, UnsupportedPlatform, STEAM_ROOT_ENV};
use gamestore::windows::{steam_root_from, WindowsPlatform};
use gamestore::Error;

fn text(path: &Path) -> String {
    path.to_string_lossy().into_owned()
}

/// Create the directories of `relative` under `root`, one component at a time;
/// they live as long as what is returned.
fn make_dirs(root: &Path, relative: &str) -> Vec<tempfile::TempDir> {
    let mut made: Vec<tempfile::TempDir> = Vec::new();
    let mut here = root.to_path_buf();
    for component in relative.split('/') {
        let dir = tempfile::Builder::new()
            .prefix(component)
            .rand_bytes(0)
            .tempdir_in(&here)
            .unwrap();
        here = dir.path().to_path_buf();
        made.push(dir);
    }
    made
}

fn no_env(_: &str) -> Option<String> {
    None
}

#[test]
fn first_existing_picks_the_first_directory_that_is_there() {
    let temp = tempfile::tempdir().unwrap();
    let present = temp.path().join("steam");
    let _made = make_dirs(temp.path(), "steam");

    let found = first_existing(vec![text(&temp.path().join("missing")), text(&present)]);

    assert_eq!(found, Some(text(&present)));
}

#[test]
fn first_existing_is_none_when_nothing_matches() {
    assert_eq!(first_existing(vec!["/nope/nothing".to_string()]), None);
}

#[test]
fn the_unsupported_platform_explains_itself() {
    let error = UnsupportedPlatform.steam_root(no_env).unwrap_err();

    assert!(matches!(error, Error::Unsupported(_)), "{error:?}");
    assert_eq!(UnsupportedPlatform.id(), "unsupported");
    assert!(!UnsupportedPlatform.uses_proton());
}

#[test]
fn the_first_existing_candidate_wins() {
    let home = tempfile::tempdir().unwrap();
    let flatpak = home.path().join(".var/app/com.valvesoftware.Steam/.local/share/Steam");
    let native = home.path().join(".local/share/Steam");
    let _flatpak = make_dirs(home.path(), ".var/app/com.valvesoftware.Steam/.local/share/Steam");
    let _native = make_dirs(home.path(), ".local/share/Steam");

    assert_eq!(steam_root_in(&text(home.path()), no_env).unwrap(), text(&native));
}

#[test]
fn steam_root_env_overrides_the_candidates() {
    let home = tempfile::tempdir().unwrap();
    let _made = make_dirs(home.path(), ".steam/steam");

    let root = steam_root_in(&text(home.path()), |key| {
        if key == STEAM_ROOT_ENV {
            Some("/elsewhere/Steam".to_string())
        } else {
            None
        }
    })
    .unwrap();

    assert_eq!(root, "/elsewhere/Steam");
}

#[test]
fn no_steam_anywhere_is_an_error_that_names_the_way_out() {
    let home = tempfile::tempdir().unwrap();

    let error = steam_root_in(&text(home.path()), no_env).unwrap_err();

    assert!(matches!(error, Error::SteamNotFound), "{error:?}");
    assert!(error.to_string().contains(STEAM_ROOT_ENV));
}

#[test]
fn linux_runs_games_through_proton() {
    assert!(LinuxPlatform.uses_proton());
    assert_eq!(LinuxPlatform.id(), "linux");
}

#[test]
fn the_native_steam_locations_come_before_the_flatpak_one() {
    assert_eq!(
        steam_root_candidates("/home/deck"),
        vec![
            "/home/deck/.steam/steam",
            "/home/deck/.local/share/Steam",
            "/home/deck/.steam/root",
            "/home/deck/.var/app/com.valvesoftware.Steam/.local/share/Steam",
        ]
    );
}

#[test]
fn program_files_x86_is_tried_before_program_files() {
    let root = tempfile::tempdir().unwrap();
    let x86 = root.path().join("Program Files (x86)");
    let native = root.path().join("Program Files");
    let _x86 = make_dirs(root.path(), "Program Files (x86)/Steam");
    let _native = make_dirs(root.path(), "Program Files/Steam");

    let found = steam_root_from(|key| match key {
        "ProgramFiles(x86)" => Some(text(&x86)),
        "ProgramFiles" => Some(text(&native)),
        _ => None,
    })
    .unwrap();

    assert_eq!(found, text(&x86.join("Steam")));
}

#[test]
fn steam_root_env_overrides_program_files() {
    let found = steam_root_from(|key| {
        if key == STEAM_ROOT_ENV {
            Some(r"D:\Steam".to_string())
        } else {
            None
        }
    })
    .unwrap();

    assert_eq!(found, r"D:\Steam");
}

#[test]
fn no_steam_anywhere_is_an_error() {
    let error = steam_root_from(|_| None).unwrap_err();

    assert!(matches!(error, Error::SteamNotFound), "{error:?}");
}

#[test]
fn windows_runs_games_natively() {
    assert!(!WindowsPlatform.uses_proton());
    assert_eq!(WindowsPlatform.id(), "windows");
}

#[test]
fn the_first_yes_answer_picks_its_candidate() {
    let candidates = vec!["a".to_string(), "b".to_string(), "c".to_string()];

    assert_eq!(gamestore::platform::first_dir(&candidates, &[false, true, true]), Some("b".to_string()));
    assert_eq!(gamestore::platform::first_dir(&candidates, &[false, false]), None);
    assert_eq!(gamestore::platform::first_dir(&candidates, &[]), None);
}
