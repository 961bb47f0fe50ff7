use gamestore::steam::{
    appid_to_shortcut_id, compatdata_name, crc32, quote_exe, shortcut_appid, shortcut_id,
    shortcut_id_to_appid,
};

// Vectors for the plain CRC-32, checked against Python's `zlib.crc32`, which is
// the same function Steam's own tooling and every reference implementation use.
// These pin the checksum half of the derivation; what they cannot pin is the
// Steam-specific half — which string goes in, and the high-bit mask — and that
// is settled by the end-to-end run on the mini PC, not here.
const CRC32_VECTORS: &[(&str, u32)] = &[
    ("", 0x00000000),
    ("a", 0xe8b7be43),
    ("abc", 0x352441c2),
    ("message digest", 0x20159d7f),
    ("abcdefghijklmnopqrstuvwxyz", 0x4c2750bd),
    ("123456789", 0xcbf43926),
    ("The quick brown fox jumps over the lazy dog", 0x414fa339),
    ("Brütal Legend", 0x55284eae),
    ("Beneath a Steel Sky", 0xd4348ea3),
    ("Baldur's Gate II", 0x05e4ad9c),
    ("Grim Fandango Remastered", 0x33d3c92b),
    ("FTL: Faster Than Light", 0x616048fd),
    ("\"/home/deck/Games/Bastion/Bastion.exe\"", 0x7c0219bf),
    (
        "\"/home/deck/Games/Brütal Legend/BrutalLegend.exe\"Brütal Legend",
        0x47743451,
    ),
    ("\"C:\\Games\\Gothic II\\Gothic2.exe\"Gothic II", 0xfb454b77),
    ("日本語のタイトル", 0x27be6e0b),
];

#[test]
fn crc32_matches_the_standard_vectors() {
    for (input, expected) in CRC32_VECTORS {
        assert_eq!(
            crc32(input.as_bytes()),
            *expected,
            "crc32({input:?}) should be {expected:#010x}"
        );
    }
}

#[test]
fn crc32_is_computed_over_bytes_not_characters() {
    // A non-ASCII title is ordinary in a GOG library, and the CRC has to be over
    // its UTF-8 bytes; anything else silently diverges from Steam for exactly
    // the games whose names are not plain ASCII.
    let text = "Brütal Legend";
    assert_eq!(crc32(text.as_bytes()), crc32(text.to_string().as_bytes()));
    assert_ne!(crc32("Brutal Legend".as_bytes()), crc32(text.as_bytes()));
}

#[test]
fn an_appid_always_has_the_high_bit_set() {
    for name in ["A", "Beneath a Steel Sky", "Brütal Legend", ""] {
        let appid = shortcut_appid("\"/games/game.exe\"", name);
        assert_ne!(appid & 0x8000_0000, 0, "{name:?} produced {appid:#010x}");
    }
}

#[test]
fn the_appid_is_the_crc_of_the_exe_followed_by_the_name() {
    let exe = "\"/games/Bastion/Bastion.exe\"";
    let name = "Bastion";

    let expected = crc32(format!("{exe}{name}").as_bytes()) | 0x8000_0000;

    assert_eq!(shortcut_appid(exe, name), expected);
}

#[test]
fn the_same_shortcut_always_derives_the_same_appid() {
    let first = shortcut_appid("\"/games/game.exe\"", "A Game");
    let second = shortcut_appid("\"/games/game.exe\"", "A Game");

    assert_eq!(first, second, "the derivation has to be stable across runs");
}

#[test]
fn a_different_exe_or_name_derives_a_different_appid() {
    let base = shortcut_appid("\"/games/game.exe\"", "A Game");

    assert_ne!(base, shortcut_appid("\"/games/other.exe\"", "A Game"));
    assert_ne!(base, shortcut_appid("\"/games/game.exe\"", "Other Game"));
}

#[test]
fn quoting_changes_the_appid_which_is_why_quote_exe_exists() {
    // The trap this module is guarding: the CRC is over the stored string, so
    // the quoted and unquoted spellings are different shortcuts to Steam.
    let path = "/games/game.exe";

    assert_ne!(
        shortcut_appid(path, "A Game"),
        shortcut_appid(&quote_exe(path), "A Game")
    );
    assert_eq!(quote_exe(path), "\"/games/game.exe\"");
}

#[test]
fn the_two_id_widths_convert_both_ways() {
    let exe = quote_exe("/games/game.exe");
    let appid = shortcut_appid(&exe, "A Game");

    let wide = shortcut_id(&exe, "A Game");

    assert_eq!(wide, appid_to_shortcut_id(appid));
    assert_eq!(shortcut_id_to_appid(wide), appid);
    assert_eq!(
        wide & 0xFFFF_FFFF,
        0x0200_0000,
        "the low half is the marker"
    );
}

#[test]
fn the_prefix_directory_is_named_after_the_appid() {
    let appid = shortcut_appid("\"/games/game.exe\"", "A Game");

    assert_eq!(compatdata_name(appid), appid.to_string());
    assert!(
        appid > 2_147_483_647,
        "the high bit makes it a large unsigned number, and it must not be \
         formatted as a negative one"
    );
}

#[test]
fn the_high_half_of_any_wide_id_is_its_appid() {
    assert_eq!(shortcut_id_to_appid(0x1234_5678_0200_0000), 0x1234_5678);
    assert_eq!(appid_to_shortcut_id(0x8000_0001), 0x8000_0001_0200_0000);
    assert_eq!(quote_exe(""), "\"\"");
    assert_eq!(compatdata_name(0), "0");
}
