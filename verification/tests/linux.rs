use gamestore::linux::{parse_account_id, steam_users_from, SteamUser, BACKUP_SUFFIX};

fn entries(names: &[(&str, bool)]) -> Vec<(String, bool)> {
    names.iter().map(|(name, dir)| (name.to_string(), *dir)).collect()
}

#[test]
fn every_real_user_is_found_and_the_placeholders_are_not() {
    let listing = entries(&[("1234", true), ("0", true), ("anonymous", true), ("77", true)]);

    let users = steam_users_from("/steam", listing);

    assert_eq!(
        users.iter().map(|user| user.id).collect::<Vec<_>>(),
        vec![77, 1234],
        "real accounts only, in a stable order"
    );
    assert_eq!(users[0].dir, "/steam/userdata/77");
}

#[test]
fn no_userdata_directory_is_no_users_rather_than_an_error() {
    assert!(steam_users_from("/steam", Vec::new()).is_empty());
}

#[test]
fn the_paths_follow_steams_layout() {
    let user = &steam_users_from("/steam", entries(&[("1234", true)]))[0];

    assert!(user.shortcuts_file().ends_with("userdata/1234/config/shortcuts.vdf"));
    assert!(user.grid_dir().ends_with("userdata/1234/config/grid"));
    assert!(user
        .shortcuts_backup()
        .ends_with("userdata/1234/config/shortcuts.vdf.gamestore-backup"));
}

#[test]
fn a_file_named_like_an_account_is_not_one() {
    let users = steam_users_from("/steam", entries(&[("42", false), ("43", true)]));

    assert_eq!(users, vec![SteamUser { id: 43, dir: "/steam/userdata/43".to_string() }]);
}

#[test]
fn an_account_id_reads_as_str_parse_reads_it() {
    assert_eq!(parse_account_id("1234"), Some(1234));
    assert_eq!(parse_account_id("+7"), Some(7));
    assert_eq!(parse_account_id("4294967295"), Some(u32::MAX));
    assert_eq!(parse_account_id("4294967296"), None);
    assert_eq!(parse_account_id(""), None);
    assert_eq!(parse_account_id("+"), None);
    assert_eq!(parse_account_id("-1"), None);
    assert_eq!(parse_account_id("12a"), None);
}

#[test]
fn the_backup_sits_beside_the_shortcuts_file() {
    let user = SteamUser { id: 5, dir: "/s/userdata/5".to_string() };

    assert_eq!(user.config_dir(), "/s/userdata/5/config");
    assert_eq!(user.shortcuts_backup(), format!("{}{}", user.shortcuts_file(), BACKUP_SUFFIX));
}

#[test]
fn the_backup_is_taken_once_and_only_of_a_file_that_is_there() {
    assert!(gamestore::linux::needs_backup(true, false));
    assert!(!gamestore::linux::needs_backup(true, true));
    assert!(!gamestore::linux::needs_backup(false, false));
}
