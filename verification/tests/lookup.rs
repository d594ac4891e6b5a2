use vault_config::{VaultConfiguration, VaultError};

fn load(text: &str) -> VaultConfiguration {
    VaultConfiguration::new(Some(text)).unwrap()
}

#[test]
fn repeated_key_among_three_lines() {
    let config = load("a: 1\nb: 2\na: 3\n");
    assert_eq!(config.get_val("a", None), Ok("3".to_string()));
    assert_eq!(config.get_val("b", None), Ok("2".to_string()));
    assert_eq!(config.get_val("c", None), Err(VaultError::KeyNotFound));
    assert_eq!(config.get_val("c", Some("from env".to_string())), Ok("from env".to_string()));
}

#[test]
fn round_trip_of_rendered_entries() {
    let entries = [
        ("db_host", "localhost"),
        ("db_port", "8000"),
        ("motto", "keep: it: simple"),
        ("empty", ""),
        ("path with spaces", "/var/lib/some dir"),
        ("colon:inside", ":x"),
    ];
    let mut text = String::new();
    for (key, value) in entries {
        text.push_str(key);
        text.push_str(": ");
        text.push_str(value);
        text.push('\n');
    }
    let config = load(&text);
    assert_eq!(config.map.len(), entries.len());
    for (key, value) in entries {
        assert_eq!(config.get_val(key, None), Ok(value.to_string()));
        assert_eq!(config.get_val(key, Some("other".to_string())), Ok(value.to_string()));
    }
}

#[test]
fn fallback_decides_absent_key() {
    let config = load("a: 1\n");
    assert_eq!(config.get_val("HOME", Some("/root".to_string())), Ok("/root".to_string()));
    assert_eq!(config.get_val("", Some(String::new())), Ok(String::new()));
}

#[test]
fn file_overrides_fallback() {
    let config = load("HOME: /srv\n");
    assert_eq!(config.get_val("HOME", Some("/root".to_string())), Ok("/srv".to_string()));
}

#[test]
fn no_file_means_fallback_only() {
    let config = VaultConfiguration::new(None).unwrap();
    assert!(config.map.is_empty());
    assert_eq!(config.get_val("a", Some("1".to_string())), Ok("1".to_string()));
    assert_eq!(config.get_val("b", Some("2".to_string())), Ok("2".to_string()));
    assert_eq!(config.get_val("a", None), Err(VaultError::KeyNotFound));
}

#[test]
fn overwrite_by_later_line() {
    let config = load("mode: slow\nmode: fast\n");
    assert_eq!(config.get_val("mode", None), Ok("fast".to_string()));
    assert_eq!(config.get_val("mode", Some("env".to_string())), Ok("fast".to_string()));
}

#[test]
fn key_known_nowhere_is_an_error() {
    let config = load("a: 1\n");
    assert_eq!(config.get_val("missing", None), Err(VaultError::KeyNotFound));
    let empty = load("");
    assert_eq!(empty.get_val("a", None), Err(VaultError::KeyNotFound));
}

#[test]
fn keys_are_case_sensitive() {
    let config = load("Key: upper\nkey: lower\n");
    assert_eq!(config.get_val("Key", None), Ok("upper".to_string()));
    assert_eq!(config.get_val("key", None), Ok("lower".to_string()));
    assert_eq!(config.get_val("KEY", None), Err(VaultError::KeyNotFound));
}

#[test]
fn values_are_returned_verbatim() {
    let config = load("n: 0042 \nt:  \tx\n");
    assert_eq!(config.get_val("n", None), Ok("0042 ".to_string()));
    assert_eq!(config.get_val("t", None), Ok(" \tx".to_string()));
}

#[test]
fn entry_inserted_by_hand_is_found() {
    let mut config = VaultConfiguration::new(None).unwrap();
    config.map.insert("db_port".to_string(), "8000".to_string());
    assert_eq!(config.get_val("db_port", None), Ok("8000".to_string()));
}

#[test]
fn lookup_leaves_the_configuration_unchanged() {
    let config = load("a: 1\n");
    assert_eq!(config.get_val("a", None), Ok("1".to_string()));
    assert_eq!(config.get_val("b", Some("2".to_string())), Ok("2".to_string()));
    assert_eq!(config.map.len(), 1);
    assert_eq!(config.get_val("b", None), Err(VaultError::KeyNotFound));
    assert_eq!(config.get_val("a", None), Ok("1".to_string()));
}
