use gamestore::catalog::ProductId;
use gamestore::registry::{alive_from, pid_is_alive, Entry, Registry, State, CLAIM_MAX_AGE};
use gamestore::time::Timestamp;
use gamestore::Paths;

const T0: Timestamp = Timestamp { secs: 0, nanos: 0 };

fn bastion() -> ProductId {
    ProductId::new("1207658930")
}

fn alive(_: u32) -> bool {
    true
}

fn dead(_: u32) -> bool {
    false
}

#[test]
fn a_game_with_no_row_is_not_installed() {
    let registry = Registry::default();

    assert_eq!(registry.state_of(&bastion()), State::NotInstalled);
    assert!(registry.is_empty());
}

#[test]
fn an_install_records_everything_uninstall_will_need() {
    let mut registry = Registry::default();

    registry.mark_installed(&bastion(), "build-42".to_string(), "/games/Bastion".to_string(), 4057670083);

    let entry = registry.get(&bastion()).unwrap();
    assert_eq!(entry.state, State::Installed);
    assert_eq!(entry.build.as_deref(), Some("build-42"));
    assert_eq!(entry.install_path, Some("/games/Bastion".to_string()));
    assert_eq!(entry.steam_appid, Some(4057670083));
    assert!(entry.state.is_playable());
}

#[test]
fn a_claim_survives_only_as_long_as_the_process_that_made_it() {
    let mut registry = Registry::default();
    registry.claim(&bastion(), State::Downloading, 4321, T0);

    assert!(registry.reconcile_with(alive, T0).is_empty());
    assert_eq!(registry.state_of(&bastion()), State::Downloading);

    let reset = registry.reconcile_with(dead, T0);

    assert_eq!(reset, vec![bastion()]);
    assert_eq!(registry.state_of(&bastion()), State::Failed);
    let entry = registry.get(&bastion()).unwrap();
    assert!(entry.failure.as_ref().unwrap().contains("interrupted"));
    assert_eq!(entry.claim, None);
}

#[test]
fn a_stale_claim_is_cleared_even_when_the_pid_looks_alive() {
    let mut registry = Registry::default();
    registry.claim(&bastion(), State::Installing, 4321, T0);

    let reset = registry.reconcile_with(alive, Timestamp::from_secs(CLAIM_MAX_AGE + 1));

    assert_eq!(reset, vec![bastion()]);
    assert_eq!(registry.state_of(&bastion()), State::Failed);
}

#[test]
fn a_transient_state_with_no_claim_is_treated_as_interrupted() {
    let mut registry = Registry::default();
    registry.update(&bastion(), |mut entry: Entry| {
        entry.state = State::Installing;
        entry
    });

    assert_eq!(registry.reconcile_with(alive, T0), vec![bastion()]);
    assert_eq!(registry.state_of(&bastion()), State::Failed);
}

#[test]
fn reconciling_never_touches_a_settled_entry() {
    let mut registry = Registry::default();
    registry.mark_installed(&bastion(), "b".to_string(), "/games/B".to_string(), 1);
    let other = ProductId::new("2");
    registry.mark_failed(&other, "the installer ignored /VERYSILENT".to_string());
    let before = registry.clone();

    assert!(registry
        .reconcile_with(dead, Timestamp::from_secs(CLAIM_MAX_AGE * 10))
        .is_empty());

    assert_eq!(registry, before);
}

#[test]
fn claiming_again_clears_a_previous_failure() {
    let mut registry = Registry::default();
    registry.mark_failed(&bastion(), "no space left on device".to_string());

    registry.claim(&bastion(), State::Downloading, 99, T0);

    let entry = registry.get(&bastion()).unwrap();
    assert_eq!(entry.state, State::Downloading);
    assert_eq!(entry.failure, None, "a retry must not show the old reason");
}

#[test]
fn a_launch_is_recorded_without_disturbing_the_state() {
    let mut registry = Registry::default();
    registry.mark_installed(&bastion(), "b".to_string(), "/games/B".to_string(), 1);

    registry.record_launch(&bastion(), Timestamp::from_secs(99));

    let entry = registry.get(&bastion()).unwrap();
    assert_eq!(entry.last_played, Some(Timestamp::from_secs(99)));
    assert_eq!(entry.state, State::Installed);
}

#[test]
fn removing_forgets_the_game_and_says_whether_there_was_one() {
    let mut registry = Registry::default();
    registry.mark_installed(&bastion(), "b".to_string(), "/games/B".to_string(), 1);

    assert!(registry.remove(&bastion()));
    assert!(!registry.remove(&bastion()));
    assert!(registry.is_empty());
}

#[test]
fn the_first_process_counts_as_alive() {
    assert!(pid_is_alive(1));
}

#[test]
fn a_pid_that_is_not_running_is_seen_as_dead_on_linux() {
    // pid 0 is never a real process in /proc.
    assert!(!pid_is_alive(0));
}

#[test]
fn the_registry_file_lives_in_the_data_directory() {
    let paths = Paths {
        config_dir: "/c".to_string(),
        data_dir: "/d".to_string(),
        cache_dir: "/k".to_string(),
    };

    assert_eq!(Registry::path(&paths), "/d/registry.json");
}

#[test]
fn entries_come_out_in_id_order_and_each_id_once() {
    let mut registry = Registry::default();
    registry.mark_installed(&ProductId::new("3"), "b".to_string(), "/g/3".to_string(), 3);
    registry.mark_installed(&ProductId::new("1"), "b".to_string(), "/g/1".to_string(), 1);
    registry.mark_failed(&ProductId::new("2"), "x".to_string());
    registry.mark_installed(&ProductId::new("1"), "c".to_string(), "/g/1".to_string(), 1);

    let ids: Vec<&str> = registry.entries().iter().map(|entry| entry.id.as_str()).collect();

    assert_eq!(ids, vec!["1", "2", "3"]);
    assert_eq!(registry.len(), 3);
    assert_eq!(registry.get(&ProductId::new("1")).unwrap().build.as_deref(), Some("c"));
}

#[test]
fn a_claim_on_a_dead_process_is_reset_by_the_real_liveness_check() {
    let mut registry = Registry::default();
    registry.claim(&bastion(), State::Queued, 0, T0);
    registry.mark_installed(&ProductId::new("2"), "b".to_string(), "/g".to_string(), 2);

    assert_eq!(registry.reconcile(T0), vec![bastion()]);
    assert_eq!(registry.state_of(&bastion()), State::Failed);
    assert_eq!(registry.state_of(&ProductId::new("2")), State::Installed);
}

#[test]
fn a_new_entry_is_not_installed_and_knows_nothing_else() {
    let entry = Entry::new(bastion());

    assert_eq!(entry.state, State::NotInstalled);
    assert_eq!(entry.build, None);
    assert_eq!(entry.claim, None);
    assert!(!entry.state.is_transient());
    assert!(State::Downloading.is_transient());
    assert!(State::UpdateAvailable.is_playable());
    assert!(!State::Failed.is_playable());
}

#[test]
fn the_listing_names_every_state() {
    assert_eq!(State::NotInstalled.label(), "-");
    assert_eq!(State::UpdateAvailable.label(), "update");
    assert_eq!(State::Downloading.label(), "downloading");
}

#[test]
fn without_a_proc_every_process_counts_as_alive() {
    assert!(alive_from(false, false));
    assert!(alive_from(false, true));
    assert!(alive_from(true, true));
    assert!(!alive_from(true, false));
}
