use gamestore::shortcuts::{apply, fill_defaults, stored_appid, Shortcut, Shortcuts};
use gamestore::steam;
use gamestore::vdf::Value;

fn a_shortcut(name: &str) -> Shortcut {
    Shortcut {
        app_name: name.to_string(),
        exe: format!("/games/{name}/{name}.exe"),
        start_dir: format!("/games/{name}"),
        launch_options: String::new(),
        icon: String::new(),
    }
}

/// A file with one entry that gamestore did not write, carrying a field it
/// does not manage and a tag the user added.
fn foreign_file() -> Shortcuts {
    let mut shortcuts = Shortcuts::empty();
    let mut entry = Value::map();
    fill_defaults(&mut entry);
    entry.set("appid", Value::Int32(0x1234_5678));
    entry.set("AppName", Value::String("Someone Else's Game".to_string()));
    entry.set("Exe", Value::String("\"/elsewhere/other.exe\"".to_string()));
    entry.set("SomethingValveAddedLater", Value::UInt64(u64::MAX));
    let mut tags = Value::map();
    tags.set("0", Value::String("favourite".to_string()));
    entry.set("tags", tags);
    shortcuts.list_mut().push(("0".to_string(), entry));

    shortcuts
}

#[test]
fn a_new_shortcut_is_appended_and_gets_its_derived_appid() {
    let mut shortcuts = Shortcuts::empty();
    let bastion = a_shortcut("Bastion");

    let appid = shortcuts.upsert(&bastion).unwrap();

    assert_eq!(appid, bastion.appid());
    assert_eq!(shortcuts.len(), 1);
    assert_eq!(shortcuts.appids(), vec![appid]);
    assert_eq!(shortcuts.name_of(appid), Some("Bastion"));
}

#[test]
fn upserting_twice_changes_nothing_the_second_time() {
    let mut shortcuts = Shortcuts::empty();
    let bastion = a_shortcut("Bastion");

    shortcuts.upsert(&bastion).unwrap();
    let after_first = shortcuts.to_bytes().unwrap();
    shortcuts.upsert(&bastion).unwrap();

    assert_eq!(shortcuts.len(), 1, "a second upsert must not add a duplicate");
    assert_eq!(shortcuts.to_bytes().unwrap(), after_first);
}

#[test]
fn updating_a_shortcut_keeps_fields_gamestore_does_not_own() {
    let mut shortcuts = Shortcuts::empty();
    let bastion = a_shortcut("Bastion");
    let appid = shortcuts.upsert(&bastion).unwrap();

    let entry = &mut shortcuts.list_mut()[0].1;
    let mut tags = Value::map();
    tags.set("0", Value::String("favourite".to_string()));
    entry.set("tags", tags);
    entry.set("AllowOverlay", Value::Int32(0));
    entry.set("SomethingValveAddedLater", Value::UInt64(7));

    shortcuts.upsert(&bastion).unwrap();

    let entry = shortcuts.find(appid).unwrap();
    assert_eq!(entry.get("tags").unwrap().get_str("0"), Some("favourite"));
    assert_eq!(entry.get_i32("AllowOverlay"), Some(0));
    assert_eq!(entry.get("SomethingValveAddedLater"), Some(&Value::UInt64(7)));
}

#[test]
fn a_foreign_entry_survives_adding_and_removing_our_own() {
    let mut shortcuts = foreign_file();
    let before = shortcuts.to_bytes().unwrap();
    let bastion = a_shortcut("Bastion");

    let appid = shortcuts.upsert(&bastion).unwrap();
    assert_eq!(shortcuts.len(), 2);
    assert!(shortcuts.remove(appid));

    assert_eq!(
        shortcuts.to_bytes().unwrap(),
        before,
        "adding and removing our shortcut has to leave the file as it was"
    );
}

#[test]
fn removing_renumbers_so_steam_does_not_stop_at_the_hole() {
    let mut shortcuts = Shortcuts::empty();
    let first = shortcuts.upsert(&a_shortcut("First")).unwrap();
    shortcuts.upsert(&a_shortcut("Second")).unwrap();
    shortcuts.upsert(&a_shortcut("Third")).unwrap();

    assert!(shortcuts.remove(first));

    let keys: Vec<&str> = shortcuts.list().iter().map(|(key, _)| key.as_str()).collect();
    assert_eq!(keys, vec!["0", "1"], "indices must stay contiguous from zero");
}

#[test]
fn removing_something_absent_says_so_and_changes_nothing() {
    let mut shortcuts = foreign_file();
    let before = shortcuts.to_bytes().unwrap();

    assert!(!shortcuts.remove(a_shortcut("Never Installed").appid()));

    assert_eq!(shortcuts.to_bytes().unwrap(), before);
}

#[test]
fn a_new_entry_carries_the_fields_steam_writes_itself() {
    let mut shortcuts = Shortcuts::empty();
    let appid = shortcuts.upsert(&a_shortcut("Bastion")).unwrap();

    let entry = shortcuts.find(appid).unwrap();

    assert_eq!(entry.get_i32("IsHidden"), Some(0));
    assert_eq!(entry.get_i32("AllowOverlay"), Some(1));
    assert_eq!(entry.get_str("ShortcutPath"), Some(""));
    assert!(entry.get("tags").is_some());
}

#[test]
fn the_stored_exe_is_quoted_and_the_appid_matches_it() {
    let mut shortcuts = Shortcuts::empty();
    let bastion = a_shortcut("Bastion");
    let appid = shortcuts.upsert(&bastion).unwrap();

    let entry = shortcuts.find(appid).unwrap();

    assert_eq!(entry.get_str("Exe"), Some("\"/games/Bastion/Bastion.exe\""));
    assert_eq!(
        appid,
        steam::shortcut_appid("\"/games/Bastion/Bastion.exe\"", "Bastion"),
        "the appid has to be derived from the string actually stored"
    );
}

#[test]
fn the_stored_appid_field_wins_over_a_derived_one() {
    let shortcuts = foreign_file();

    assert_eq!(shortcuts.appids(), vec![0x1234_5678]);
}

#[test]
fn a_round_trip_through_bytes_preserves_everything() {
    let mut shortcuts = foreign_file();
    shortcuts.upsert(&a_shortcut("Bastion")).unwrap();
    let bytes = shortcuts.to_bytes().unwrap();

    let reparsed = Shortcuts::parse(&bytes).unwrap();

    assert_eq!(reparsed, shortcuts);
    assert_eq!(reparsed.to_bytes().unwrap(), bytes);
}

#[test]
fn an_empty_or_missing_file_is_treated_as_no_shortcuts() {
    assert!(Shortcuts::parse_or_empty(&[]).unwrap().is_empty());
    assert!(Shortcuts::parse_or_empty(&[0]).unwrap().is_empty());
}

#[test]
fn something_that_is_not_a_shortcuts_file_is_refused() {
    let other = Value::Mapping(vec![("config".to_string(), Value::map())]);
    let bytes = gamestore::vdf::write(&other).unwrap();

    let error = Shortcuts::parse(&bytes).unwrap_err();

    assert!(error.to_string().contains("shortcuts.vdf"), "{error:?}");
}

#[test]
fn an_entry_without_a_stored_appid_derives_one_from_its_fields() {
    let mut entry = Value::map();
    entry.set("AppName", Value::String("Bastion".to_string()));
    entry.set("Exe", Value::String("\"/games/b.exe\"".to_string()));

    assert_eq!(stored_appid(&entry), steam::shortcut_appid("\"/games/b.exe\"", "Bastion"));
}

#[test]
fn applying_a_shortcut_sets_the_owned_fields_and_the_signed_appid() {
    let mut entry = Value::map();
    fill_defaults(&mut entry);
    let bastion = a_shortcut("Bastion");

    apply(&mut entry, &bastion, 0x8000_0001);

    assert_eq!(entry.get_i32("appid"), Some(i32::MIN + 1));
    assert_eq!(entry.get_str("AppName"), Some("Bastion"));
    assert_eq!(entry.get_str("Exe"), Some("\"/games/Bastion/Bastion.exe\""));
    assert_eq!(entry.get_str("StartDir"), Some("\"/games/Bastion\""));
    assert_eq!(stored_appid(&entry), 0x8000_0001);
}

#[test]
fn a_parsed_file_lists_its_entries_in_file_order() {
    let mut shortcuts = Shortcuts::empty();
    let first = shortcuts.upsert(&a_shortcut("First")).unwrap();
    let second = shortcuts.upsert(&a_shortcut("Second")).unwrap();

    let reparsed = Shortcuts::parse(&shortcuts.to_bytes().unwrap()).unwrap();

    assert_eq!(reparsed.appids(), vec![first, second]);
    assert_eq!(reparsed.name_of(second), Some("Second"));
    assert_eq!(reparsed.name_of(12345), None);
    assert!(reparsed.find(12345).is_none());
}

#[test]
fn a_shortcuts_key_that_is_not_a_map_is_refused() {
    let other = Value::Mapping(vec![("shortcuts".to_string(), Value::Int32(0))]);
    let bytes = gamestore::vdf::write(&other).unwrap();

    let error = Shortcuts::parse(&bytes).unwrap_err();

    assert!(error.to_string().contains("\"shortcuts\" map"), "{error:?}");
}

#[test]
fn a_file_that_is_not_vdf_is_refused_with_the_readers_own_message() {
    let bytes = [0x03, b'f', b'p', 0, 0, 0, 0, 0, 0x08];

    let error = Shortcuts::parse(&bytes).unwrap_err();

    assert_eq!(error.to_string(), gamestore::vdf::parse(&bytes).unwrap_err().to_string());
    assert!(error.to_string().contains("unsupported value type 0x03"), "{error:?}");
}
