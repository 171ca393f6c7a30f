use uemacs::decode::{csi_param_to_key, decode_key, utf8_byte_count, Decoded};
use uemacs::terminal::Key;

/// The first key of `data` when no more input comes.
fn get_key(data: &[u8]) -> Option<Key> {
    match decode_key(data, 0, true) {
        Decoded::Got(k, _) => Some(k),
        _ => None,
    }
}

#[test]
fn test_csi_single_digit_home() {
    assert_eq!(get_key(b"\x1b[1~"), Some(Key::Home));
}

#[test]
fn test_csi_single_digit_insert() {
    assert_eq!(get_key(b"\x1b[2~"), Some(Key::Insert));
}

#[test]
fn test_csi_single_digit_delete() {
    assert_eq!(get_key(b"\x1b[3~"), Some(Key::Delete));
}

#[test]
fn test_csi_single_digit_end() {
    assert_eq!(get_key(b"\x1b[4~"), Some(Key::End));
}

#[test]
fn test_csi_single_digit_pageup() {
    assert_eq!(get_key(b"\x1b[5~"), Some(Key::PageUp));
}

#[test]
fn test_csi_single_digit_pagedown() {
    assert_eq!(get_key(b"\x1b[6~"), Some(Key::PageDown));
}

#[test]
fn test_csi_multi_digit_f1() {
    assert_eq!(get_key(b"\x1b[11~"), Some(Key::Function(1)));
}

#[test]
fn test_csi_multi_digit_f2() {
    assert_eq!(get_key(b"\x1b[12~"), Some(Key::Function(2)));
}

#[test]
fn test_csi_multi_digit_f5() {
    assert_eq!(get_key(b"\x1b[15~"), Some(Key::Function(5)));
}

#[test]
fn test_csi_multi_digit_f6() {
    assert_eq!(get_key(b"\x1b[17~"), Some(Key::Function(6)));
}

#[test]
fn test_csi_multi_digit_f9() {
    assert_eq!(get_key(b"\x1b[20~"), Some(Key::Function(9)));
}

#[test]
fn test_csi_multi_digit_f12() {
    assert_eq!(get_key(b"\x1b[24~"), Some(Key::Function(12)));
}

#[test]
fn test_csi_arrow_keys() {
    assert_eq!(get_key(b"\x1b[A"), Some(Key::Up));
    assert_eq!(get_key(b"\x1b[B"), Some(Key::Down));
    assert_eq!(get_key(b"\x1b[C"), Some(Key::Right));
    assert_eq!(get_key(b"\x1b[D"), Some(Key::Left));
}

#[test]
fn test_escape_standalone_returns_escape() {
    assert_eq!(get_key(b"\x1b"), Some(Key::Escape));
}

#[test]
fn test_decode_plain_and_control_keys() {
    assert_eq!(decode_key(b"ab", 0, true), Decoded::Got(Key::Char('a'), 1));
    assert_eq!(decode_key(b"ab", 1, true), Decoded::Got(Key::Char('b'), 2));
    assert_eq!(decode_key(b"ab", 2, true), Decoded::End);
    assert_eq!(decode_key(b"ab", 2, false), Decoded::More);
    assert_eq!(get_key(b"\x01"), Some(Key::Control('A')));
    assert_eq!(get_key(b"\r"), Some(Key::Enter));
    assert_eq!(get_key(b"\t"), Some(Key::Tab));
    assert_eq!(get_key(b"\x7f"), Some(Key::Backspace));
}

#[test]
fn test_decode_meta_keys() {
    assert_eq!(get_key(b"\x1bx"), Some(Key::Meta('x')));
    assert_eq!(get_key(b"\x1b\x06"), Some(Key::MetaControl('F')));
    assert_eq!(get_key(b"\x1b\x7f"), Some(Key::Meta('\x7f')));
    assert_eq!(decode_key(b"\x1b\x1b", 0, true), Decoded::Got(Key::Escape, 2));
    assert_eq!(decode_key(b"\x1b", 0, false), Decoded::More);
}

#[test]
fn test_decode_utf8() {
    assert_eq!(decode_key("é!".as_bytes(), 0, true), Decoded::Got(Key::Char('é'), 2));
    assert_eq!(get_key(&[0xe2, 0x82, 0xac]), Some(Key::Char('€')));
    assert_eq!(get_key(&[0xc3, 0x28]), Some(Key::Unknown(0xc3)));
    assert_eq!(decode_key(&[0xe2, 0x82], 0, true), Decoded::End);
    assert_eq!(decode_key(&[0xe2, 0x82], 0, false), Decoded::More);
}

#[test]
fn test_decode_csi_other() {
    assert_eq!(get_key(b"\x1bOH"), Some(Key::Home));
    assert_eq!(get_key(b"\x1b[Z"), Some(Key::Tab));
    assert_eq!(get_key(b"\x1b[q"), Some(Key::Unknown(0x100 + 'q' as u32)));
    assert_eq!(decode_key(b"\x1b[99~x", 0, true), Decoded::Got(Key::Unknown(0x100 + 99), 5));
    assert_eq!(decode_key(b"\x1b[", 0, true), Decoded::End);
}

#[test]
fn test_csi_param_to_key_and_width() {
    assert_eq!(csi_param_to_key(7), Key::Home);
    assert_eq!(csi_param_to_key(8), Key::End);
    assert_eq!(csi_param_to_key(23), Key::Function(11));
    assert_eq!(csi_param_to_key(16), Key::Unknown(0x110));
    assert_eq!(utf8_byte_count(0xc3), 2);
    assert_eq!(utf8_byte_count(0xe2), 3);
    assert_eq!(utf8_byte_count(0xf0), 4);
    assert_eq!(utf8_byte_count(0x41), 1);
}
