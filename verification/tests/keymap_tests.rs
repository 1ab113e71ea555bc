use harmonium::keymap::ConfigError;
use harmonium::keymap::KeyMap;
use harmonium::keymap::PressedKeys;

#[test]
fn from_json_builds_the_map() {
    let km = KeyMap::from_json(r#"{"z": "c2", "s": "c#2", ",": "c3"}"#).unwrap();
    assert_eq!(km.note_for_char('z'), Some("c2"));
    assert_eq!(km.note_for_char('s'), Some("c#2"));
    assert_eq!(km.note_for_char(','), Some("c3"));
    assert_eq!(km.note_for_char('q'), None);
}

#[test]
fn from_json_rejects_a_long_key() {
    let r = KeyMap::from_json(r#"{"z": "c2", "ab": "d2"}"#);
    assert!(matches!(r, Err(ConfigError::InvalidKey(k)) if k == "ab"));
}

#[test]
fn from_json_rejects_an_empty_key() {
    let r = KeyMap::from_json(r#"{"": "c2"}"#);
    assert!(matches!(r, Err(ConfigError::InvalidKey(k)) if k.is_empty()));
}

#[test]
fn from_json_rejects_broken_text() {
    let r = KeyMap::from_json("this is not json");
    assert!(matches!(r, Err(ConfigError::Parse(_))));
}

#[test]
fn from_json_rejects_non_string_values() {
    let r = KeyMap::from_json(r#"{"z": 3}"#);
    assert!(matches!(r, Err(ConfigError::Parse(_))));
}

#[test]
fn from_json_rejects_a_non_object() {
    let r = KeyMap::from_json(r#"["z", "c2"]"#);
    assert!(matches!(r, Err(ConfigError::Parse(_))));
}

#[test]
fn from_pairs_later_pair_wins() {
    let pairs = vec![
        ("z".to_string(), "c2".to_string()),
        ("z".to_string(), "d2".to_string()),
    ];
    let km = KeyMap::from_pairs(&pairs).unwrap();
    assert_eq!(km.note_for_char('z'), Some("d2"));
}

#[test]
fn from_pairs_empty_gives_an_empty_map() {
    let km = KeyMap::from_pairs(&Vec::new()).unwrap();
    assert_eq!(km.note_for_char('z'), None);
}

#[test]
fn from_pairs_names_the_offending_key() {
    let pairs = vec![
        ("z".to_string(), "c2".to_string()),
        ("xy".to_string(), "d2".to_string()),
    ];
    let r = KeyMap::from_pairs(&pairs);
    assert!(matches!(r, Err(ConfigError::InvalidKey(k)) if k == "xy"));
}

fn test_map() -> KeyMap {
    KeyMap::from_json(r#"{"z": "c2", "x": "d2", "c": "e2", "v": "c2"}"#).unwrap()
}

#[test]
fn key_down_starts_a_mapped_note() {
    let km = test_map();
    let mut pressed = PressedKeys::new();
    assert_eq!(pressed.key_down('z', &km), Some("c2".to_string()));
    assert!(pressed._is_down('z'));
    assert_eq!(pressed.active_notes(), vec!["c2".to_string()]);
}

#[test]
fn key_down_repeat_returns_nothing_and_changes_nothing() {
    let km = test_map();
    let mut pressed = PressedKeys::new();
    assert_eq!(pressed.key_down('z', &km), Some("c2".to_string()));
    assert_eq!(pressed.key_down('z', &km), None);
    assert_eq!(pressed.active_notes(), vec!["c2".to_string()]);
    assert!(pressed._is_down('z'));
}

#[test]
fn key_down_unmapped_is_tracked_but_silent() {
    let km = test_map();
    let mut pressed = PressedKeys::new();
    assert_eq!(pressed.key_down('q', &km), None);
    assert!(pressed._is_down('q'));
    assert!(pressed.active_notes().is_empty());
    // Still a held key: a repeat is ignored too.
    assert_eq!(pressed.key_down('q', &km), None);
}

#[test]
fn key_up_stops_the_note_once() {
    let km = test_map();
    let mut pressed = PressedKeys::new();
    pressed.key_down('z', &km);
    assert_eq!(pressed.key_up('z'), Some("c2".to_string()));
    assert!(!pressed._is_down('z'));
    assert!(pressed.active_notes().is_empty());
    // Already released: nothing more to stop.
    assert_eq!(pressed.key_up('z'), None);
}

#[test]
fn key_up_of_a_key_never_pressed_returns_nothing() {
    let km = test_map();
    let mut pressed = PressedKeys::new();
    assert_eq!(pressed.key_up('z'), None);
    // An unmapped held key also yields no note-off.
    pressed.key_down('q', &km);
    assert_eq!(pressed.key_up('q'), None);
}

#[test]
fn active_notes_are_sorted() {
    let km = test_map();
    let mut pressed = PressedKeys::new();
    pressed.key_down('c', &km);
    pressed.key_down('z', &km);
    pressed.key_down('x', &km);
    assert_eq!(
        pressed.active_notes(),
        vec!["c2".to_string(), "d2".to_string(), "e2".to_string()]
    );
}

#[test]
fn active_notes_keeps_one_entry_per_activation() {
    let km = test_map();
    let mut pressed = PressedKeys::new();
    // 'z' and 'v' both start "c2": two activations, two entries.
    pressed.key_down('z', &km);
    pressed.key_down('v', &km);
    assert_eq!(
        pressed.active_notes(),
        vec!["c2".to_string(), "c2".to_string()]
    );
    assert_eq!(pressed.key_up('z'), Some("c2".to_string()));
    assert_eq!(pressed.active_notes(), vec!["c2".to_string()]);
}

#[test]
fn reload_replaces_the_map_wholesale() {
    let km = test_map();
    let mut pressed = PressedKeys::new();
    pressed.key_down('z', &km);
    // A new map does not disturb keys already held under the old one.
    let km2 = KeyMap::from_json(r#"{"z": "g5"}"#).unwrap();
    assert_eq!(pressed.key_down('z', &km2), None);
    assert_eq!(pressed.key_up('z'), Some("c2".to_string()));
}
