use uemacs::kbd::{key_code_display, key_name, key_to_bytes};
use uemacs::terminal::Key;
use uemacs::types::{KeyCode, CONTROL, META};

#[test]
fn test_key_name_char() {
    assert_eq!(key_name(&Key::Char('a')), "a");
    assert_eq!(key_name(&Key::Char('A')), "A");
    assert_eq!(key_name(&Key::Char(' ')), " ");
}

#[test]
fn test_key_name_control() {
    assert_eq!(key_name(&Key::Control('a')), "C-A");
    assert_eq!(key_name(&Key::Control('A')), "C-A");
    assert_eq!(key_name(&Key::Control('?')), "C-?");
}

#[test]
fn test_key_name_meta() {
    assert_eq!(key_name(&Key::Meta('x')), "M-x");
    assert_eq!(key_name(&Key::Meta('X')), "M-X");
}

#[test]
fn test_key_name_meta_control() {
    assert_eq!(key_name(&Key::MetaControl('f')), "M-C-F");
    assert_eq!(key_name(&Key::MetaControl('F')), "M-C-F");
}

#[test]
fn test_key_name_special() {
    assert_eq!(key_name(&Key::Up), "Up");
    assert_eq!(key_name(&Key::Down), "Down");
    assert_eq!(key_name(&Key::Left), "Left");
    assert_eq!(key_name(&Key::Right), "Right");
    assert_eq!(key_name(&Key::PageUp), "PageUp");
    assert_eq!(key_name(&Key::PageDown), "PageDown");
    assert_eq!(key_name(&Key::Home), "Home");
    assert_eq!(key_name(&Key::End), "End");
    assert_eq!(key_name(&Key::Delete), "Delete");
    assert_eq!(key_name(&Key::Insert), "Insert");
    assert_eq!(key_name(&Key::Backspace), "Backspace");
    assert_eq!(key_name(&Key::Tab), "Tab");
    assert_eq!(key_name(&Key::Enter), "Enter");
    assert_eq!(key_name(&Key::Escape), "Escape");
}

#[test]
fn test_key_name_function() {
    assert_eq!(key_name(&Key::Function(1)), "F1");
    assert_eq!(key_name(&Key::Function(12)), "F12");
}

#[test]
fn test_key_name_unknown() {
    assert_eq!(key_name(&Key::Unknown(0x1b)), "0x1B");
    assert_eq!(key_name(&Key::Unknown(0xff)), "0xFF");
}

#[test]
fn test_key_code_display_control() {
    assert_eq!(key_code_display(KeyCode(CONTROL | 1)), "C-A");
    assert_eq!(key_code_display(KeyCode(CONTROL | 2)), "C-B");
    assert_eq!(key_code_display(KeyCode(CONTROL | 0x1f)), "C-_");
}

#[test]
fn test_key_code_display_meta() {
    assert_eq!(key_code_display(KeyCode(META | u32::from(b'x'))), "M-x");
    assert_eq!(key_code_display(KeyCode(META | u32::from(b'X'))), "M-X");
}

#[test]
fn test_key_code_display_meta_control() {
    let kc = KeyCode(META | CONTROL | 1);
    assert_eq!(key_code_display(kc), "M-C-A");
}

#[test]
fn test_key_code_display_special() {
    assert_eq!(key_code_display(KeyCode(0x101)), "Up");
    assert_eq!(key_code_display(KeyCode(0x102)), "Down");
    assert_eq!(key_code_display(KeyCode(0x103)), "Left");
    assert_eq!(key_code_display(KeyCode(0x104)), "Right");
    assert_eq!(key_code_display(KeyCode(0x105)), "PageUp");
    assert_eq!(key_code_display(KeyCode(0x106)), "PageDown");
    assert_eq!(key_code_display(KeyCode(0x107)), "Home");
    assert_eq!(key_code_display(KeyCode(0x108)), "End");
    assert_eq!(key_code_display(KeyCode(0x109)), "Delete");
    assert_eq!(key_code_display(KeyCode(0x10a)), "Insert");
}

#[test]
fn test_key_code_display_function() {
    assert_eq!(key_code_display(KeyCode(0x10b)), "F1");
    assert_eq!(key_code_display(KeyCode(0x10d)), "F3");
}

#[test]
fn test_key_code_display_punctuation() {
    assert_eq!(key_code_display(KeyCode(u32::from(b'\t'))), "Tab");
    assert_eq!(key_code_display(KeyCode(u32::from(b'\r'))), "Enter");
    assert_eq!(key_code_display(KeyCode(0x7f)), "Backspace");
    assert_eq!(key_code_display(KeyCode(0x1b)), "Escape");
    assert_eq!(key_code_display(KeyCode(u32::from(b' '))), "SPC");
}

#[test]
fn test_key_code_display_ascii() {
    assert_eq!(key_code_display(KeyCode(u32::from(b'a'))), "a");
    assert_eq!(key_code_display(KeyCode(u32::from(b'Z'))), "Z");
}

#[test]
fn test_key_to_bytes_char() {
    assert_eq!(key_to_bytes(&Key::Char('a')), Some(vec![b'a']));
    assert_eq!(key_to_bytes(&Key::Char(' ')), Some(vec![b' ']));
    assert_eq!(key_to_bytes(&Key::Char('\n')), Some(vec![b'\n']));
}

#[test]
fn test_key_to_bytes_control() {
    assert_eq!(key_to_bytes(&Key::Control('a')), Some(vec![0x01]));
    assert_eq!(key_to_bytes(&Key::Control('A')), Some(vec![0x01]));
}

#[test]
fn test_key_to_bytes_tab() {
    assert_eq!(key_to_bytes(&Key::Tab), Some(vec![b'\t']));
}

#[test]
fn test_key_to_bytes_backspace() {
    assert_eq!(key_to_bytes(&Key::Backspace), Some(vec![0x7f]));
}

#[test]
fn test_key_to_bytes_escape() {
    assert_eq!(key_to_bytes(&Key::Escape), Some(vec![0x1b]));
}

#[test]
fn test_key_to_bytes_unsupported() {
    assert_eq!(key_to_bytes(&Key::Up), None);
    assert_eq!(key_to_bytes(&Key::Function(1)), None);
    assert_eq!(key_to_bytes(&Key::Enter), None);
    assert_eq!(key_to_bytes(&Key::Meta('x')), None);
    assert_eq!(key_to_bytes(&Key::MetaControl('f')), None);
}

#[test]
fn test_key_code_display_agrees_with_key_name() {
    let keys = vec![
        Key::Control('x'),
        Key::Control('G'),
        Key::MetaControl('f'),
        Key::Meta('%'),
        Key::Char('q'),
        Key::Char('~'),
        Key::Function(1),
        Key::Function(255),
        Key::Up,
        Key::PageDown,
        Key::Insert,
        Key::Tab,
        Key::Enter,
        Key::Backspace,
        Key::Escape,
    ];
    for k in keys {
        assert_eq!(key_code_display(KeyCode::from(k)), key_name(&k));
    }
}
