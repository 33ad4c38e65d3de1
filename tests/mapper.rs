use whisper_daemon::mapper::{map_char, KeyAction, KeyEvent, Mapping, NamedKey};

fn events(c: char) -> Option<Vec<KeyEvent>> {
    match map_char(c) {
        Mapping::Events(v) => Some(v),
        Mapping::Unsupported => None,
    }
}

#[test]
fn printable_char_is_typed() {
    assert_eq!(events('a'), Some(vec![KeyEvent::Type('a')]));
    assert_eq!(events('H'), Some(vec![KeyEvent::Type('H')]));
    assert_eq!(events('é'), Some(vec![KeyEvent::Type('é')]));
}

#[test]
fn newline_and_tab_are_named_keys() {
    assert_eq!(
        events('\n'),
        Some(vec![
            KeyEvent::Key(NamedKey::Return, KeyAction::Press),
            KeyEvent::Key(NamedKey::Return, KeyAction::Release),
        ])
    );
    assert_eq!(
        events('\t'),
        Some(vec![
            KeyEvent::Key(NamedKey::Tab, KeyAction::Press),
            KeyEvent::Key(NamedKey::Tab, KeyAction::Release),
        ])
    );
}

#[test]
fn other_control_chars_yield_no_event() {
    assert_eq!(events('\u{7}'), Some(vec![]));
    assert_eq!(events('\r'), Some(vec![]));
    assert_eq!(events('\u{7f}'), Some(vec![]));
    assert_eq!(events('\u{9f}'), Some(vec![]));
}

#[test]
fn private_use_chars_are_unsupported() {
    assert_eq!(events('\u{E000}'), None);
    assert_eq!(events('\u{F8FF}'), None);
    assert_eq!(events('\u{F0000}'), None);
    assert_eq!(events('\u{10FFFD}'), None);
    assert_eq!(events('\u{F900}'), Some(vec![KeyEvent::Type('\u{F900}')]));
}
