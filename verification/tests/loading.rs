use vault_config::{parse_text_to_map, VaultConfiguration, VaultError};

fn load(text: &str) -> VaultConfiguration {
    VaultConfiguration::new(Some(text)).unwrap()
}

fn value(config: &VaultConfiguration, key: &str) -> String {
    config.get_val(key, None).unwrap()
}

fn malformed(text: &str) -> VaultError {
    match VaultConfiguration::new(Some(text)) {
        Ok(_) => panic!("the text was accepted"),
        Err(e) => e,
    }
}

#[test]
fn two_entries_are_loaded() {
    let config = load("db_host: localhost\ndb_port: 8000\n");
    assert_eq!(config.map.len(), 2);
    assert_eq!(value(&config, "db_host"), "localhost");
    assert_eq!(value(&config, "db_port"), "8000");
}

#[test]
fn last_line_needs_no_line_feed() {
    let config = load("db_host: localhost\ndb_port: 8000");
    assert_eq!(config.map.len(), 2);
    assert_eq!(value(&config, "db_port"), "8000");
}

#[test]
fn empty_text_gives_empty_configuration() {
    let config = load("");
    assert!(config.map.is_empty());
}

#[test]
fn empty_lines_are_skipped() {
    let config = load("\na: 1\n\n\nb: 2\n\n");
    assert_eq!(config.map.len(), 2);
    assert_eq!(value(&config, "a"), "1");
    assert_eq!(value(&config, "b"), "2");
}

#[test]
fn only_line_feeds_give_empty_configuration() {
    let config = load("\n\r\n\n");
    assert!(config.map.is_empty());
}

#[test]
fn value_keeps_further_delimiters() {
    let config = load("url: http: //host: 80\n");
    assert_eq!(config.map.len(), 1);
    assert_eq!(value(&config, "url"), "http: //host: 80");
}

#[test]
fn key_ends_at_first_delimiter() {
    let config = load("a:b: c\n");
    assert_eq!(value(&config, "a:b"), "c");
    let config = load("a:: c\n");
    assert_eq!(value(&config, "a:"), "c");
}

#[test]
fn spaces_around_the_delimiter_are_kept() {
    let config = load(" a :  b \n");
    assert_eq!(value(&config, " a "), " b ");
}

#[test]
fn empty_key_and_empty_value() {
    let config = load(": \nk: \n: v\n");
    assert_eq!(config.map.len(), 2);
    assert_eq!(value(&config, ""), "v");
    assert_eq!(value(&config, "k"), "");
}

#[test]
fn carriage_return_before_line_feed_is_dropped() {
    let config = load("a: 1\r\nb: 2\r\n");
    assert_eq!(value(&config, "a"), "1");
    assert_eq!(value(&config, "b"), "2");
}

#[test]
fn only_one_carriage_return_is_dropped() {
    let config = load("a: 1\r\r\nb: 2\n");
    assert_eq!(value(&config, "a"), "1\r");
}

#[test]
fn carriage_return_without_line_feed_is_kept() {
    let config = load("a: 1\rb\nc: 2\r");
    assert_eq!(value(&config, "a"), "1\rb");
    assert_eq!(value(&config, "c"), "2\r");
}

#[test]
fn lone_carriage_return_line_is_empty() {
    let config = load("a: 1\n\r\nb: 2\n");
    assert_eq!(config.map.len(), 2);
}

#[test]
fn text_beyond_ascii_is_kept() {
    let config = load("schlüssel: wert ✓\n名前: 値: 二\n");
    assert_eq!(value(&config, "schlüssel"), "wert ✓");
    assert_eq!(value(&config, "名前"), "値: 二");
}

#[test]
fn later_line_overwrites_earlier() {
    let config = load("k: first\nk: second\n");
    assert_eq!(config.map.len(), 1);
    assert_eq!(value(&config, "k"), "second");
}

#[test]
fn last_of_three_lines_decides() {
    let config = load("k: 1\nother: x\nk: 2\nk: 3\nmore: y\n");
    assert_eq!(config.map.len(), 3);
    assert_eq!(value(&config, "k"), "3");
}

#[test]
fn line_without_delimiter_is_malformed() {
    assert_eq!(
        malformed("justtext\n"),
        VaultError::MalformedLine { number: 1, content: "justtext".to_string() }
    );
}

#[test]
fn colon_without_space_is_malformed() {
    assert_eq!(
        malformed("a: 1\nb:2\n"),
        VaultError::MalformedLine { number: 2, content: "b:2".to_string() }
    );
    assert_eq!(
        malformed("a:"),
        VaultError::MalformedLine { number: 1, content: "a:".to_string() }
    );
}

#[test]
fn first_malformed_line_is_reported() {
    assert_eq!(
        malformed("a: 1\n\nbad one\nb: 2\nbad two\n"),
        VaultError::MalformedLine { number: 3, content: "bad one".to_string() }
    );
}

#[test]
fn malformed_line_is_reported_without_its_terminator() {
    assert_eq!(
        malformed("a: 1\r\nbad\r\n"),
        VaultError::MalformedLine { number: 2, content: "bad".to_string() }
    );
}

#[test]
fn lone_carriage_return_at_the_end_is_malformed() {
    assert_eq!(
        malformed("a: 1\n\r"),
        VaultError::MalformedLine { number: 2, content: "\r".to_string() }
    );
}

#[test]
fn delimiter_split_over_two_lines_is_malformed() {
    assert_eq!(
        malformed("a:\n b\n"),
        VaultError::MalformedLine { number: 1, content: "a:".to_string() }
    );
}

#[test]
fn parse_text_to_map_returns_the_entries() {
    let map = parse_text_to_map("a: 1\nb: 2\na: 3\n").unwrap();
    assert_eq!(map.len(), 2);
    assert_eq!(map.get("a"), Some(&"3".to_string()));
    assert_eq!(map.get("b"), Some(&"2".to_string()));
    assert_eq!(map.get("c"), None);
}

#[test]
fn parse_text_to_map_reports_the_malformed_line() {
    match parse_text_to_map("a: 1\nbroken") {
        Ok(_) => panic!("the text was accepted"),
        Err(e) => assert_eq!(
            e,
            VaultError::MalformedLine { number: 2, content: "broken".to_string() }
        ),
    }
}

#[test]
fn parsing_agrees_with_line_splitting_of_std() {
    let texts = [
        "a: 1\nb: 2\n",
        "a: 1\r\nb: 2",
        "a: 1\r\n\r\nb: 2\r",
        "x: y: z\n\nx: w\r\n",
        "\n\n",
        "k: \r\r\nl: \r",
    ];
    for text in texts {
        let config = load(text);
        let mut expected: Vec<(String, String)> = Vec::new();
        for line in text.lines() {
            if line.is_empty() {
                continue;
            }
            let (key, value) = line.split_once(": ").unwrap();
            expected.retain(|(k, _)| k != key);
            expected.push((key.to_string(), value.to_string()));
        }
        assert_eq!(config.map.len(), expected.len());
        for (key, val) in expected {
            assert_eq!(value(&config, &key), val);
        }
    }
}

#[test]
fn long_text_is_parsed() {
    let mut text = String::new();
    for i in 0..2000 {
        text.push_str(&format!("key{}: value{}\n", i, i));
    }
    let config = load(&text);
    assert_eq!(config.map.len(), 2000);
    assert_eq!(value(&config, "key0"), "value0");
    assert_eq!(value(&config, "key1999"), "value1999");
}

#[test]
fn wide_characters_do_not_split_lines_or_entries() {
    // U+010A, U+0A0A, U+303A, U+3A20 and U+2020 hold the values of line feed,
    // colon or space in one of their bytes or in their code point.
    let config = load("\u{010A}\u{303A}\u{2020}k: \u{0A0A}\u{3A20}v\n");
    assert_eq!(config.map.len(), 1);
    assert_eq!(value(&config, "\u{010A}\u{303A}\u{2020}k"), "\u{0A0A}\u{3A20}v");
    assert_eq!(
        malformed("\u{303A}\u{2020}\n"),
        VaultError::MalformedLine { number: 1, content: "\u{303A}\u{2020}".to_string() }
    );
}

#[test]
fn wide_characters_next_to_terminators() {
    let config = load("é: ü\r\nß: ∂\n𝄞: 𝄢");
    assert_eq!(config.map.len(), 3);
    assert_eq!(value(&config, "é"), "ü");
    assert_eq!(value(&config, "ß"), "∂");
    assert_eq!(value(&config, "𝄞"), "𝄢");
}

#[test]
fn wide_character_before_carriage_return() {
    // U+000D stands alone as a byte only where it is the character itself.
    let config = load("k: \u{010D}\r\nl: \u{0D0D}\n");
    assert_eq!(value(&config, "k"), "\u{010D}");
    assert_eq!(value(&config, "l"), "\u{0D0D}");
}
