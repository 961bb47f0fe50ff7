use gamestore::atomic::{temporary_beside, Access};

#[test]
fn the_temporary_file_sits_beside_the_target() {
    assert_eq!(temporary_beside("/data/registry.json"), "/data/registry.json.gamestore-tmp");
    assert_eq!(temporary_beside("file.bin"), "file.bin.gamestore-tmp");
}

#[test]
fn only_private_files_get_their_modes_set() {
    assert_eq!(Access::Private.file_mode(), Some(0o600));
    assert_eq!(Access::Private.dir_mode(), Some(0o700));
    assert_eq!(Access::Default.file_mode(), None);
    assert_eq!(Access::Default.dir_mode(), None);
}
