use gamestore::linux::SteamUser;
use gamestore::tiles::{pick_users, shortcut, Tile};

fn user(id: u32) -> SteamUser {
    SteamUser {
        id,
        dir: format!("/steam/userdata/{id}"),
    }
}

fn tile() -> Tile {
    Tile {
        name: "gamestore".to_string(),
        command: "login".to_string(),
        terminal: true,
    }
}

#[test]
fn the_only_account_on_the_machine_needs_no_choosing() {
    let picked = pick_users(vec![user(7)], None, false).unwrap();

    assert_eq!(picked, vec![user(7)]);
}

#[test]
fn several_accounts_and_no_choice_is_an_error_that_lists_them() {
    let error = pick_users(vec![user(7), user(9)], None, false).unwrap_err();

    let message = error.to_string();
    assert!(message.contains('7') && message.contains('9'), "{message}");
    assert!(message.contains("--user") && message.contains("--all-users"), "{message}");
}

#[test]
fn asking_for_every_account_gets_every_account() {
    let picked = pick_users(vec![user(7), user(9)], None, true).unwrap();

    assert_eq!(picked.len(), 2);
}

#[test]
fn naming_an_account_picks_only_that_one() {
    let picked = pick_users(vec![user(7), user(9)], Some(9), false).unwrap();

    assert_eq!(picked, vec![user(9)]);
}

#[test]
fn naming_an_account_that_is_not_there_lists_the_ones_that_are() {
    let error = pick_users(vec![user(7), user(9)], Some(3), false).unwrap_err();

    let message = error.to_string();
    assert!(message.contains("no Steam account 3"), "{message}");
    assert!(message.contains('7') && message.contains('9'), "{message}");
}

#[test]
fn no_steam_account_at_all_says_what_to_do_about_it() {
    let error = pick_users(Vec::new(), None, false).unwrap_err();

    assert!(error.to_string().contains("start Steam"), "{error:?}");
}

#[test]
fn the_tile_points_at_the_launcher_and_carries_the_command() {
    let launcher = "/data/steam/gamestore-tile.sh";
    let shortcut = shortcut(&tile(), "/bin/gamestore", Some(launcher));

    assert_eq!(shortcut.exe, "/data/steam/gamestore-tile.sh");
    assert_eq!(shortcut.start_dir, "/bin");
    assert_eq!(shortcut.launch_options, "login");
}

#[test]
fn without_a_terminal_the_tile_points_straight_at_the_binary() {
    let shortcut = shortcut(&tile(), "/bin/gamestore", None);

    assert_eq!(shortcut.exe, "/bin/gamestore");
}

#[test]
fn the_appid_follows_the_exe_so_the_two_variants_are_different_tiles() {
    let launcher = "/data/steam/gamestore-tile.sh";
    let wrapped = shortcut(&tile(), "/bin/gamestore", Some(launcher));
    let bare = shortcut(&tile(), "/bin/gamestore", None);

    assert_ne!(wrapped.appid(), bare.appid());
}

#[test]
fn all_three_accounts_are_listed_in_order() {
    let error = pick_users(vec![user(7), user(9), user(11)], None, false).unwrap_err();

    assert!(error.to_string().contains("has 3 Steam accounts (7, 9, 11)"), "{error:?}");
}

#[test]
fn a_binary_at_the_root_starts_in_the_root() {
    let shortcut = shortcut(&tile(), "/gamestore", None);

    assert_eq!(shortcut.start_dir, "/");
    assert_eq!(shortcut.app_name, "gamestore");
}
