use gamestore::vdf::{self, parse, Value, TAG_END, TAG_INT32, TAG_MAP, TAG_STRING, TAG_UINT64};

/// A document shaped like a real `shortcuts.vdf`, including a key type we do
/// not manage (`UInt64`) and a nested `tags` map.
fn sample() -> Vec<u8> {
    let mut bytes = Vec::new();
    bytes.push(TAG_MAP);
    bytes.extend_from_slice(b"shortcuts\0");

    bytes.push(TAG_MAP);
    bytes.extend_from_slice(b"0\0");
    bytes.push(TAG_INT32);
    bytes.extend_from_slice(b"appid\0");
    bytes.extend_from_slice(&(-1234_i32).to_le_bytes());
    bytes.push(TAG_STRING);
    bytes.extend_from_slice("AppName\0Br\u{fc}tal Legend\0".as_bytes());
    bytes.push(TAG_STRING);
    bytes.extend_from_slice(b"Exe\0\"/games/bl/bl.exe\"\0");
    bytes.push(TAG_UINT64);
    bytes.extend_from_slice(b"SomethingValveAddedLater\0");
    bytes.extend_from_slice(&u64::MAX.to_le_bytes());
    bytes.push(TAG_MAP);
    bytes.extend_from_slice(b"tags\0");
    bytes.push(TAG_STRING);
    bytes.extend_from_slice(b"0\0favourite\0");
    bytes.push(TAG_END); // tags
    bytes.push(TAG_END); // shortcut 0

    bytes.push(TAG_END); // shortcuts
    bytes.push(TAG_END); // document

    bytes
}

#[test]
fn a_document_round_trips_byte_for_byte() {
    let original = sample();

    let reparsed = vdf::write(&parse(&original).unwrap()).unwrap();

    assert_eq!(reparsed, original);
}

#[test]
fn every_key_and_type_survives_the_trip() {
    let document = parse(&sample()).unwrap();
    let shortcut = document.get("shortcuts").unwrap().get("0").unwrap();

    assert_eq!(shortcut.get_i32("appid"), Some(-1234));
    assert_eq!(shortcut.get_str("AppName"), Some("Brütal Legend"));
    assert_eq!(shortcut.get_str("Exe"), Some("\"/games/bl/bl.exe\""));
    assert_eq!(
        shortcut.get("SomethingValveAddedLater"),
        Some(&Value::UInt64(u64::MAX)),
        "a type we do not manage still has to survive"
    );
    assert_eq!(shortcut.get("tags").unwrap().get_str("0"), Some("favourite"));
}

#[test]
fn lookups_ignore_case_because_steam_has_shipped_both_spellings() {
    let document = parse(&sample()).unwrap();
    let shortcut = document.get("SHORTCUTS").unwrap().get("0").unwrap();

    assert_eq!(shortcut.get_str("appname"), shortcut.get_str("AppName"));
    assert_eq!(shortcut.get_str("EXE"), Some("\"/games/bl/bl.exe\""));
}

#[test]
fn setting_a_key_keeps_the_spelling_and_the_position_already_in_the_file() {
    let mut document = parse(&sample()).unwrap();
    let shortcuts = document.entries_mut().unwrap();
    let shortcut = &mut shortcuts[0].1.entries_mut().unwrap()[0].1;

    shortcut.set("appname", Value::String("Renamed".to_string()));

    let keys: Vec<&str> = shortcut
        .entries()
        .unwrap()
        .iter()
        .map(|(key, _)| key.as_str())
        .collect();
    assert_eq!(
        keys,
        vec!["appid", "AppName", "Exe", "SomethingValveAddedLater", "tags"],
        "the original spelling and order have to survive a set"
    );
    assert_eq!(shortcut.get_str("AppName"), Some("Renamed"));
}

#[test]
fn setting_an_absent_key_appends_it() {
    let mut document = parse(&sample()).unwrap();
    let shortcut = &mut document.entries_mut().unwrap()[0].1.entries_mut().unwrap()[0].1;

    shortcut.set("LaunchOptions", Value::String("-windowed".to_string()));

    assert_eq!(shortcut.get_str("LaunchOptions"), Some("-windowed"));
    assert_eq!(shortcut.entries().unwrap().last().unwrap().0, "LaunchOptions");
}

#[test]
fn an_empty_document_is_just_the_end_marker() {
    let document = parse(&[TAG_END]).unwrap();

    assert_eq!(document, Value::Mapping(Vec::new()));
    assert_eq!(vdf::write(&document).unwrap(), vec![TAG_END]);
}

#[test]
fn a_truncated_file_is_an_error_rather_than_a_panic() {
    let full = sample();

    for cut in 1..full.len() {
        let result = parse(&full[..cut]);
        if let Ok(parsed) = result {
            assert_eq!(
                vdf::write(&parsed).unwrap().len(),
                cut,
                "a {cut}-byte prefix parsed as something that is not itself"
            );
        }
    }
}

#[test]
fn trailing_bytes_are_refused() {
    let mut bytes = sample();
    bytes.push(TAG_END);

    let error = parse(&bytes).unwrap_err();

    assert!(error.to_string().contains("trailing"), "{error:?}");
}

#[test]
fn an_unsupported_type_is_refused_by_name_rather_than_guessed_at() {
    let bytes = vec![0x03, b'f', b'p', 0, 0, 0, 0, 0, TAG_END];

    let error = parse(&bytes).unwrap_err();

    assert!(error.to_string().contains("0x03"), "{error:?}");
    assert!(error.to_string().contains("refusing"), "{error:?}");
}

#[test]
fn invalid_utf8_is_refused_rather_than_replaced() {
    let bytes = vec![TAG_STRING, b'k', 0, 0xFF, 0xFE, 0, TAG_END];

    let error = parse(&bytes).unwrap_err();

    assert!(error.to_string().contains("UTF-8"), "{error:?}");
}

#[test]
fn a_nul_inside_a_value_is_refused_on_write() {
    let document = Value::Mapping(vec![("k".to_string(), Value::String("a\0b".to_string()))]);

    let error = vdf::write(&document).unwrap_err();

    assert!(error.to_string().contains("NUL"), "{error:?}");
}

#[test]
fn a_written_int_and_u64_read_back_as_the_same_values() {
    let document = Value::Mapping(vec![
        ("n".to_string(), Value::Int32(-7)),
        ("big".to_string(), Value::UInt64(1 << 40)),
        ("s".to_string(), Value::String("text".to_string())),
    ]);

    let bytes = vdf::write(&document).unwrap();

    assert_eq!(parse(&bytes).unwrap(), document);
    assert_eq!(bytes[0], TAG_INT32);
    assert_eq!(*bytes.last().unwrap(), TAG_END);
}

#[test]
fn a_map_value_has_no_string_or_int_to_give() {
    let document = parse(&sample()).unwrap();

    assert_eq!(document.get_str("shortcuts"), None);
    assert_eq!(document.get_i32("shortcuts"), None);
    assert_eq!(Value::Int32(3).entries(), None);
    assert_eq!(Value::map(), Value::Mapping(Vec::new()));
}

#[test]
fn a_refusal_names_exactly_what_is_wrong() {
    let mut bytes = sample();
    bytes.push(TAG_END);
    bytes.push(TAG_END);
    let length = sample().len();

    let error = parse(&bytes).unwrap_err();

    assert_eq!(
        error.to_string(),
        format!("2 trailing bytes after the end of the document at offset {length}")
    );
    let nul = Value::Mapping(vec![("k\0".to_string(), Value::Int32(1))]);
    assert_eq!(
        vdf::write(&nul).unwrap_err().to_string(),
        "\"k\\0\" contains a NUL byte and cannot be stored in a VDF field"
    );
    assert_eq!(
        vdf::write(&Value::Int32(1)).unwrap_err().to_string(),
        "the document root has to be a map"
    );
}

#[test]
fn each_malformed_document_gets_the_refusal_for_what_is_wrong_with_it() {
    let refusal = |bytes: &[u8]| parse(bytes).unwrap_err().to_string();

    assert_eq!(refusal(&[]), "the file ends inside the document, with no closing 0x08");
    assert_eq!(
        refusal(&[TAG_MAP, b'm', 0, TAG_END]),
        "the file ends inside the document, with no closing 0x08"
    );
    assert_eq!(
        refusal(&[TAG_MAP, b'm', 0]),
        "the file ends inside m, with no closing 0x08"
    );
    assert_eq!(
        refusal(&[TAG_INT32, b'n', 0, 1, 2]),
        "the file ends inside the value of \"n\""
    );
    assert_eq!(
        refusal(&[TAG_STRING, b'k']),
        "the file ends inside a string in the document, with no NUL terminator"
    );
    assert_eq!(
        refusal(&[TAG_STRING, b'k', 0, 0xFF, 0xFE, 0, TAG_END]),
        "a string in k is not valid UTF-8; gamestore will not rewrite this file rather than risk corrupting it"
    );
    assert_eq!(
        refusal(&[0x03, b'f', b'p', 0, 0, 0, 0, 0, TAG_END]),
        "unsupported value type 0x03 for key \"fp\" at offset 4; refusing to touch the file rather than guessing at its length"
    );
}

#[test]
fn a_cloned_value_is_equal_down_to_its_nested_maps() {
    let value = parse(&sample()).unwrap();

    let copy = value.clone();

    assert_eq!(copy, value);
    assert_eq!(vdf::write(&copy).unwrap(), vdf::write(&value).unwrap());
}
