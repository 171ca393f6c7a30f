use uemacs::terminal::{Key, MockTerminal, TerminalBackend};
use uemacs::types::{KeyCode, CONTROL, META};

#[test]
fn test_mock_open_close() {
    let mut term = MockTerminal::new();
    term.open().unwrap();
    term.close().unwrap();
    assert_eq!(term.output, vec!["open", "close"]);
}

#[test]
fn test_mock_dimensions() {
    let term = MockTerminal::new();
    assert_eq!(term.dimensions(), (24, 80));
}

#[test]
fn test_mock_move_to() {
    let mut term = MockTerminal::new();
    term.move_to(5, 10);
    assert_eq!(term.cursor, (5, 10));
}

#[test]
fn test_mock_put_char() {
    let mut term = MockTerminal::new();
    term.put_char('a');
    assert_eq!(term.output, vec!["put_char(a)"]);
}

#[test]
fn test_mock_get_key() {
    let mut term = MockTerminal::new();
    term.input_keys.push(Key::Char('x'));
    assert_eq!(term.get_key(), Some(Key::Char('x')));
    assert_eq!(term.get_key(), None);
}

#[test]
fn test_key_to_keycode() {
    let kc: KeyCode = Key::Char('a').into();
    assert_eq!(kc, KeyCode(u32::from(b'a')));
}

#[test]
fn test_key_backspace_to_keycode() {
    let kc: KeyCode = Key::Backspace.into();
    assert_eq!(kc, KeyCode(0x7f));
}

#[test]
fn test_key_tab_to_keycode() {
    let kc: KeyCode = Key::Tab.into();
    assert_eq!(kc, KeyCode(u32::from(b'\t')));
}

#[test]
fn test_key_enter_to_keycode() {
    let kc: KeyCode = Key::Enter.into();
    assert_eq!(kc, KeyCode(u32::from(b'\r')));
}

#[test]
fn test_key_escape_to_keycode() {
    let kc: KeyCode = Key::Escape.into();
    assert_eq!(kc, KeyCode(0x1b));
}

#[test]
fn test_key_function_to_keycode() {
    let kc: KeyCode = Key::Function(1).into();
    assert_eq!(kc, KeyCode(0x10b));
}

#[test]
fn test_key_unknown_to_keycode() {
    let kc: KeyCode = Key::Unknown(999).into();
    assert_eq!(kc, KeyCode(999));
}

#[test]
fn test_key_arrow_to_keycode() {
    assert_eq!(KeyCode::from(Key::Up), KeyCode(0x101));
    assert_eq!(KeyCode::from(Key::Down), KeyCode(0x102));
    assert_eq!(KeyCode::from(Key::Left), KeyCode(0x103));
    assert_eq!(KeyCode::from(Key::Right), KeyCode(0x104));
}

#[test]
fn test_key_navigation_to_keycode() {
    assert_eq!(KeyCode::from(Key::PageUp), KeyCode(0x105));
    assert_eq!(KeyCode::from(Key::PageDown), KeyCode(0x106));
    assert_eq!(KeyCode::from(Key::Home), KeyCode(0x107));
    assert_eq!(KeyCode::from(Key::End), KeyCode(0x108));
    assert_eq!(KeyCode::from(Key::Delete), KeyCode(0x109));
    assert_eq!(KeyCode::from(Key::Insert), KeyCode(0x10a));
}

#[test]
fn test_key_control_meta_to_keycode() {
    assert_eq!(KeyCode::from(Key::Control('A')), KeyCode(CONTROL | 0x01));
    assert_eq!(
        KeyCode::from(Key::Meta('x')),
        KeyCode(META | u32::from(b'x'))
    );
}

#[test]
fn test_mock_beep_count() {
    let mut term = MockTerminal::new();
    assert_eq!(term.beep_count, 0);
    term.beep();
    assert_eq!(term.beep_count, 1);
    term.beep();
    assert_eq!(term.beep_count, 2);
}

#[test]
fn test_mock_set_reverse() {
    let mut term = MockTerminal::new();
    assert!(!term.reverse);
    term.set_reverse(true);
    assert!(term.reverse);
    assert_eq!(term.output, vec!["set_reverse(true)"]);
    term.set_reverse(false);
    assert!(!term.reverse);
    assert_eq!(term.output, vec!["set_reverse(true)", "set_reverse(false)"]);
}

#[test]
fn test_mock_clear_eol() {
    let mut term = MockTerminal::new();
    term.clear_eol();
    assert_eq!(term.output, vec!["clear_eol"]);
}

#[test]
fn test_mock_flush() {
    let mut term = MockTerminal::new();
    term.flush().unwrap();
    assert_eq!(term.output, vec!["flush"]);
}

#[test]
fn test_mock_multiple_keys() {
    let mut term = MockTerminal::new();
    term.input_keys.push(Key::Char('a'));
    term.input_keys.push(Key::Char('b'));
    term.input_keys.push(Key::Char('c'));
    assert_eq!(term.get_key(), Some(Key::Char('a')));
    assert_eq!(term.get_key(), Some(Key::Char('b')));
    assert_eq!(term.get_key(), Some(Key::Char('c')));
    assert_eq!(term.get_key(), None);
}

#[test]
fn test_mock_input_index_reset() {
    let mut term = MockTerminal::new();
    term.input_keys.push(Key::Char('x'));
    assert_eq!(term.get_key(), Some(Key::Char('x')));
    term.input_index = 0;
    assert_eq!(term.get_key(), Some(Key::Char('x')));
}

