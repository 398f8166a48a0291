use x11_key_remapper::key_map::Key;
use x11_key_remapper::key_map::KeyConstant;
use x11_key_remapper::key_map::KeyMap;
use x11_key_remapper::key_map::KeyMapParseError;

fn lines(text: &[&str]) -> Vec<Vec<u8>> {
    text.iter().map(|l| l.as_bytes().to_vec()).collect()
}

#[test]
fn parse_key_reads_a_decimal_code() {
    assert!(matches!(
        x11_key_remapper::key_map::parse_key(b"46"),
        Some(KeyConstant::NormalKey { code: 46 })
    ));
    assert!(matches!(
        x11_key_remapper::key_map::parse_key(b"0"),
        Some(KeyConstant::NormalKey { code: 0 })
    ));
    assert!(matches!(
        x11_key_remapper::key_map::parse_key(b"4294967295"),
        Some(KeyConstant::NormalKey { code: 4294967295 })
    ));
}

#[test]
fn parse_key_accepts_a_leading_plus_and_leading_zeros() {
    assert!(matches!(
        x11_key_remapper::key_map::parse_key(b"+46"),
        Some(KeyConstant::NormalKey { code: 46 })
    ));
    assert!(matches!(
        x11_key_remapper::key_map::parse_key(b"0000000000048"),
        Some(KeyConstant::NormalKey { code: 48 })
    ));
}

#[test]
fn parse_key_rejects_codes_over_the_32_bit_range() {
    assert!(x11_key_remapper::key_map::parse_key(b"4294967296").is_none());
    assert!(x11_key_remapper::key_map::parse_key(b"99999999999999999999").is_none());
}

#[test]
fn parse_key_reads_the_modifier_names() {
    assert!(matches!(
        x11_key_remapper::key_map::parse_key(b"Shift"),
        Some(KeyConstant::ModifierKey { state: 0x1 })
    ));
    assert!(matches!(
        x11_key_remapper::key_map::parse_key(b"Ctrl"),
        Some(KeyConstant::ModifierKey { state: 0x4 })
    ));
    assert!(matches!(
        x11_key_remapper::key_map::parse_key(b"Alt"),
        Some(KeyConstant::ModifierKey { state: 0x8 })
    ));
}

#[test]
fn parse_key_rejects_anything_else() {
    assert!(x11_key_remapper::key_map::parse_key(b"").is_none());
    assert!(x11_key_remapper::key_map::parse_key(b"+").is_none());
    assert!(x11_key_remapper::key_map::parse_key(b"shift").is_none());
    assert!(x11_key_remapper::key_map::parse_key(b"12a").is_none());
    assert!(x11_key_remapper::key_map::parse_key(b"F1").is_none());
}

#[test]
fn parse_split_reads_a_bare_code() {
    assert_eq!(
        x11_key_remapper::key_map::parse_split(b"46", 1),
        Ok(Key { code: 46, state: 0 })
    );
}

#[test]
fn parse_split_accumulates_modifiers_before_the_code() {
    assert_eq!(
        x11_key_remapper::key_map::parse_split(b"Shift+46", 1),
        Ok(Key { code: 46, state: 0x1 })
    );
    assert_eq!(
        x11_key_remapper::key_map::parse_split(b"Ctrl+Alt+46", 1),
        Ok(Key { code: 46, state: 0xC })
    );
}

#[test]
fn parse_split_stops_at_the_first_code() {
    // tokens after the first key code are never reached
    assert_eq!(
        x11_key_remapper::key_map::parse_split(b"46+Shift", 1),
        Ok(Key { code: 46, state: 0 })
    );
}

#[test]
fn parse_split_reports_a_chord_with_no_code() {
    assert_eq!(
        x11_key_remapper::key_map::parse_split(b"Shift", 7),
        Err(KeyMapParseError::NoKeyPresent { line_number: 7 })
    );
    assert_eq!(
        x11_key_remapper::key_map::parse_split(b"Shift+Ctrl", 2),
        Err(KeyMapParseError::NoKeyPresent { line_number: 2 })
    );
}

#[test]
fn parse_split_reports_an_invalid_token() {
    assert_eq!(
        x11_key_remapper::key_map::parse_split(b"foo", 3),
        Err(KeyMapParseError::NotValidKey { line_number: 3 })
    );
    // a leading separator makes the first token empty, which is invalid
    assert_eq!(
        x11_key_remapper::key_map::parse_split(b"+46", 4),
        Err(KeyMapParseError::NotValidKey { line_number: 4 })
    );
}

#[test]
fn from_lines_builds_the_table() {
    let km = KeyMap::from_lines(&lines(&["46 48", "Shift+10 Ctrl+20"])).unwrap();
    assert_eq!(
        km.mapped_key(Key { code: 46, state: 0 }),
        Some(Key { code: 48, state: 0 })
    );
    assert_eq!(
        km.mapped_key(Key { code: 10, state: 0x1 }),
        Some(Key { code: 20, state: 0x4 })
    );
    assert_eq!(km.mapped_key(Key { code: 46, state: 0x1 }), None);
}

#[test]
fn from_lines_skips_blank_lines_and_comments() {
    let km = KeyMap::from_lines(&lines(&["", "# a comment", "   ", "46 48", "#46 50"])).unwrap();
    assert_eq!(
        km.mapped_key(Key { code: 46, state: 0 }),
        Some(Key { code: 48, state: 0 })
    );
    assert_eq!(km.keys().len(), 1);
}

#[test]
fn from_lines_trims_surrounding_whitespace() {
    let km = KeyMap::from_lines(&lines(&["  46 48\t"])).unwrap();
    assert_eq!(
        km.mapped_key(Key { code: 46, state: 0 }),
        Some(Key { code: 48, state: 0 })
    );
}

#[test]
fn from_lines_last_rule_wins_for_a_repeated_chord() {
    let km = KeyMap::from_lines(&lines(&["46 48", "46 50"])).unwrap();
    assert_eq!(
        km.mapped_key(Key { code: 46, state: 0 }),
        Some(Key { code: 50, state: 0 })
    );
    assert_eq!(km.keys().len(), 1);
}

#[test]
fn from_lines_reports_non_ascii_with_its_line_number() {
    let mut ls = lines(&["46 48"]);
    ls.push(vec![0xC3, 0xA9]);
    assert!(matches!(
        KeyMap::from_lines(&ls),
        Err(KeyMapParseError::NotAscii { line_number: 2 })
    ));
}

#[test]
fn from_lines_reports_wrong_arity_with_its_line_number() {
    assert!(matches!(
        KeyMap::from_lines(&lines(&["46 48", "46"])),
        Err(KeyMapParseError::TooFewArguments { line_number: 2 })
    ));
    assert!(matches!(
        KeyMap::from_lines(&lines(&["46 48 50"])),
        Err(KeyMapParseError::TooManyArguments { line_number: 1 })
    ));
    // a doubled space makes an empty middle piece, so the line has three
    assert!(matches!(
        KeyMap::from_lines(&lines(&["46  48"])),
        Err(KeyMapParseError::TooManyArguments { line_number: 1 })
    ));
}

#[test]
fn from_lines_reports_bad_chords_with_their_line_number() {
    assert!(matches!(
        KeyMap::from_lines(&lines(&["foo 48"])),
        Err(KeyMapParseError::NotValidKey { line_number: 1 })
    ));
    assert!(matches!(
        KeyMap::from_lines(&lines(&["46 Shift"])),
        Err(KeyMapParseError::NoKeyPresent { line_number: 1 })
    ));
}

#[test]
fn keys_returns_every_input_chord() {
    let km = KeyMap::from_lines(&lines(&["46 48", "Shift+10 20"])).unwrap();
    let keys = km.keys();
    assert_eq!(keys.len(), 2);
    assert!(keys.contains(&Key { code: 46, state: 0 }));
    assert!(keys.contains(&Key { code: 10, state: 0x1 }));
}

#[test]
fn a_cloned_table_maps_the_same_chords() {
    let km = KeyMap::from_lines(&lines(&["46 48"])).unwrap();
    let km2 = km.clone();
    assert_eq!(
        km2.mapped_key(Key { code: 46, state: 0 }),
        Some(Key { code: 48, state: 0 })
    );
    assert_eq!(km2.keys(), km.keys());
}

#[test]
fn an_empty_table_maps_nothing() {
    let km = KeyMap::new();
    assert_eq!(km.mapped_key(Key { code: 1, state: 0 }), None);
    assert_eq!(km.keys().len(), 0);
}

#[test]
fn insert_mapping_adds_and_replaces_rules() {
    let mut km = KeyMap::new();
    km.insert_mapping(Key { code: 1, state: 0 }, Key { code: 2, state: 0 });
    km.insert_mapping(Key { code: 3, state: 0 }, Key { code: 4, state: 0 });
    assert_eq!(
        km.mapped_key(Key { code: 1, state: 0 }),
        Some(Key { code: 2, state: 0 })
    );
    km.insert_mapping(Key { code: 1, state: 0 }, Key { code: 9, state: 0 });
    assert_eq!(
        km.mapped_key(Key { code: 1, state: 0 }),
        Some(Key { code: 9, state: 0 })
    );
    assert_eq!(km.keys().len(), 2);
}
