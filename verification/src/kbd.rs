use crate::terminal::Key;
use crate::text::{
    decimal_chars, decimal_string, hex_chars, hex_string, push_char, to_upper_char, upper_char,
};
use crate::types::{KeyCode, CONTROL, META};
use vstd::prelude::*;
use vstd::utf8::encode_scalar;

verus! {

/// The name shown for a key, such as `C-X`, `M-f`, `PageUp` or `F5`.
pub open spec fn key_name_chars(key: Key) -> Seq<char> {
    match key {
        Key::Char(c) => seq![c],
        Key::Control(c) => "C-"@.push(upper_char(c)),
        Key::Meta(c) => "M-"@.push(c),
        Key::MetaControl(c) => "M-C-"@.push(upper_char(c)),
        Key::Up => "Up"@,
        Key::Down => "Down"@,
        Key::Left => "Left"@,
        Key::Right => "Right"@,
        Key::PageUp => "PageUp"@,
        Key::PageDown => "PageDown"@,
        Key::Home => "Home"@,
        Key::End => "End"@,
        Key::Delete => "Delete"@,
        Key::Insert => "Insert"@,
        Key::Backspace => "Backspace"@,
        Key::Tab => "Tab"@,
        Key::Enter => "Enter"@,
        Key::Escape => "Escape"@,
        Key::Function(n) => "F"@ + decimal_chars(n as nat),
        Key::Unknown(code) => "0x"@ + hex_chars(code as nat),
    }
}

fn prefixed(prefix: &str, c: char) -> (s: String)
    ensures
        s@ == prefix@.push(c),
{
    let mut s = String::from_str(prefix);
    push_char(&mut s, c);
    s
}

/// The name of a key.
pub fn key_name(key: &Key) -> (s: String)
    ensures
        s@ == key_name_chars(*key),
{
    match *key {
        Key::Char(c) => {
            let mut s = String::new();
            push_char(&mut s, c);
            assert(s@ =~= seq![c]);
            s
        },
        Key::Control(c) => prefixed("C-", to_upper_char(c)),
        Key::Meta(c) => prefixed("M-", c),
        Key::MetaControl(c) => prefixed("M-C-", to_upper_char(c)),
        Key::Up => String::from_str("Up"),
        Key::Down => String::from_str("Down"),
        Key::Left => String::from_str("Left"),
        Key::Right => String::from_str("Right"),
        Key::PageUp => String::from_str("PageUp"),
        Key::PageDown => String::from_str("PageDown"),
        Key::Home => String::from_str("Home"),
        Key::End => String::from_str("End"),
        Key::Delete => String::from_str("Delete"),
        Key::Insert => String::from_str("Insert"),
        Key::Backspace => String::from_str("Backspace"),
        Key::Tab => String::from_str("Tab"),
        Key::Enter => String::from_str("Enter"),
        Key::Escape => String::from_str("Escape"),
        Key::Function(n) => {
            let s = String::from_str("F");
            s.concat(decimal_string(n as u64).as_str())
        },
        Key::Unknown(code) => {
            let s = String::from_str("0x");
            s.concat(hex_string(code as u64).as_str())
        },
    }
}

/// The character whose code is the byte `b`.
pub open spec fn byte_char(b: u8) -> char {
    b as char
}

/// The name shown for a key code: `M-C-`, `M-` and `C-` prefixes, the names of the
/// whitespace, cursor and function keys, else the character of the low byte.
pub open spec fn key_code_display_chars(k: u32) -> Seq<char> {
    if k & META != 0 && k & CONTROL != 0 {
        "M-C-"@.push(byte_char(((k & 0x1f) + 64) as u8))
    } else if k & META != 0 {
        "M-"@.push(byte_char((k & 0xff) as u8))
    } else if k & CONTROL != 0 {
        "C-"@.push(byte_char(((k & 0x1f) + 64) as u8))
    } else if k == 9 {
        "Tab"@
    } else if k == 13 {
        "Enter"@
    } else if k == 0x7f {
        "Backspace"@
    } else if k == 0x1b {
        "Escape"@
    } else if k == 32 {
        "SPC"@
    } else if k >= 0x10b {
        "F"@ + decimal_chars((k - 0x10a) as nat)
    } else if k == 0x101 {
        "Up"@
    } else if k == 0x102 {
        "Down"@
    } else if k == 0x103 {
        "Left"@
    } else if k == 0x104 {
        "Right"@
    } else if k == 0x105 {
        "PageUp"@
    } else if k == 0x106 {
        "PageDown"@
    } else if k == 0x107 {
        "Home"@
    } else if k == 0x108 {
        "End"@
    } else if k == 0x109 {
        "Delete"@
    } else if k == 0x10a {
        "Insert"@
    } else {
        seq![byte_char((k & 0xff) as u8)]
    }
}

/// A key whose code names it as its own name does: control keys of ASCII letters, meta
/// keys and characters that are visible ASCII, function keys from `F1`, and the named keys.
pub open spec fn displayable(key: Key) -> bool {
    match key {
        Key::Control(c) | Key::MetaControl(c) => ('a' <= c <= 'z') || ('A' <= c <= 'Z'),
        Key::Meta(d) | Key::Char(d) => '!' <= d <= '~',
        Key::Function(n) => 1 <= n,
        Key::Unknown(_) => false,
        _ => true,
    }
}

/// The name shown for the code of a displayable key is the key's own name.
pub proof fn lemma_display_matches_name(key: Key)
    requires
        displayable(key),
    ensures
        key_code_display_chars(crate::terminal::key_code_of(key)) == key_name_chars(key),
{
    match key {
        Key::Control(c) => {
            let x = c as u32;
            assert(65 <= x <= 90 || 97 <= x <= 122);
            let k = CONTROL | (x & 0x1f);
            assert(k & META == 0 && k & CONTROL != 0 && (k & 0x1f) == (x & 0x1f)) by (bit_vector)
                requires
                    k == 0x1000_0000u32 | (x & 0x1f),
                    META == 0x2000_0000u32,
                    CONTROL == 0x1000_0000u32,
            ;
            assert((x & 0x1f) + 64 == (if x >= 97 { (x - 32) as int } else { x as int })) by (bit_vector)
                requires
                    65 <= x <= 90 || 97 <= x <= 122,
            ;
        },
        Key::MetaControl(c) => {
            let x = c as u32;
            assert(65 <= x <= 90 || 97 <= x <= 122);
            let k = META | CONTROL | (x & 0x1f);
            assert(k & META != 0 && k & CONTROL != 0 && (k & 0x1f) == (x & 0x1f)) by (bit_vector)
                requires
                    k == 0x2000_0000u32 | 0x1000_0000u32 | (x & 0x1f),
                    META == 0x2000_0000u32,
                    CONTROL == 0x1000_0000u32,
            ;
            assert((x & 0x1f) + 64 == (if x >= 97 { (x - 32) as int } else { x as int })) by (bit_vector)
                requires
                    65 <= x <= 90 || 97 <= x <= 122,
            ;
        },
        Key::Meta(d) => {
            let x = d as u32;
            let k = META | x;
            assert(k & META != 0 && k & CONTROL == 0 && (k & 0xff) == x) by (bit_vector)
                requires
                    k == 0x2000_0000u32 | x,
                    33 <= x <= 126,
                    META == 0x2000_0000u32,
                    CONTROL == 0x1000_0000u32,
            ;
        },
        Key::Char(d) => {
            let x = d as u32;
            assert(x & META == 0 && x & CONTROL == 0 && (x & 0xff) == x) by (bit_vector)
                requires
                    33 <= x <= 126,
                    META == 0x2000_0000u32,
                    CONTROL == 0x1000_0000u32,
            ;
        },
        _ => {
            let k = crate::terminal::key_code_of(key);
            assert(k <= 0x209);
            assert(k & META == 0 && k & CONTROL == 0) by (bit_vector)
                requires
                    k <= 0x209,
                    META == 0x2000_0000u32,
                    CONTROL == 0x1000_0000u32,
            ;
        },
    }
}

/// The name of a key code.
pub fn key_code_display(kc: KeyCode) -> (s: String)
    ensures
        s@ == key_code_display_chars(kc.0),
{
    let k = kc.0;
    if k & META != 0 && k & CONTROL != 0 {
        assert((k & 0x1f) <= 0x1f) by (bit_vector);
        prefixed("M-C-", (((k & 0x1f) + 64) as u8) as char)
    } else if k & META != 0 {
        prefixed("M-", ((k & 0xff) as u8) as char)
    } else if k & CONTROL != 0 {
        assert((k & 0x1f) <= 0x1f) by (bit_vector);
        prefixed("C-", (((k & 0x1f) + 64) as u8) as char)
    } else if k == 9 {
        String::from_str("Tab")
    } else if k == 13 {
        String::from_str("Enter")
    } else if k == 0x7f {
        String::from_str("Backspace")
    } else if k == 0x1b {
        String::from_str("Escape")
    } else if k == 32 {
        String::from_str("SPC")
    } else if k >= 0x10b {
        let s = String::from_str("F");
        s.concat(decimal_string((k - 0x10a) as u64).as_str())
    } else if k == 0x101 {
        String::from_str("Up")
    } else if k == 0x102 {
        String::from_str("Down")
    } else if k == 0x103 {
        String::from_str("Left")
    } else if k == 0x104 {
        String::from_str("Right")
    } else if k == 0x105 {
        String::from_str("PageUp")
    } else if k == 0x106 {
        String::from_str("PageDown")
    } else if k == 0x107 {
        String::from_str("Home")
    } else if k == 0x108 {
        String::from_str("End")
    } else if k == 0x109 {
        String::from_str("Delete")
    } else if k == 0x10a {
        String::from_str("Insert")
    } else {
        let mut s = String::new();
        push_char(&mut s, ((k & 0xff) as u8) as char);
        assert(s@ =~= seq![byte_char((k & 0xff) as u8)]);
        s
    }
}

/// The bytes a key inserts: the UTF-8 encoding of a character, the control code of a
/// control key, and the codes of Tab, Backspace and Escape; other keys insert nothing.
pub open spec fn key_bytes(key: Key) -> Option<Seq<u8>> {
    match key {
        Key::Char(c) => Some(encode_scalar(c as u32)),
        Key::Control(c) => Some(seq![(c as u32 as u8) & 0x1f]),
        Key::Tab => Some(seq![9u8]),
        Key::Backspace => Some(seq![0x7fu8]),
        Key::Escape => Some(seq![0x1bu8]),
        _ => None,
    }
}

/// The UTF-8 encoding of a character.
pub fn encode_char(c: char) -> (v: Vec<u8>)
    ensures
        v@ == encode_scalar(c as u32),
{
    let s = c as u32;
    let mut v: Vec<u8> = Vec::new();
    if s <= 0x7f {
        v.push((s & 0x7f) as u8);
    } else if s <= 0x7ff {
        v.push(0xC0 | ((s >> 6) & 0x1F) as u8);
        v.push(0x80 | (s & 0x3F) as u8);
    } else if s <= 0xffff {
        v.push(0xE0 | ((s >> 12) & 0x0F) as u8);
        v.push(0x80 | ((s >> 6) & 0x3F) as u8);
        v.push(0x80 | (s & 0x3F) as u8);
    } else {
        v.push(0xF0 | ((s >> 18) & 0x7) as u8);
        v.push(0x80 | ((s >> 12) & 0x3F) as u8);
        v.push(0x80 | ((s >> 6) & 0x3F) as u8);
        v.push(0x80 | (s & 0x3F) as u8);
    }
    proof {
        assert(s <= 0x10FFFF);
        assert(!(0xD800 <= s <= 0xDFFF));
    }
    assert(v@ =~= encode_scalar(s));
    v
}

/// The bytes a key inserts, if any.
pub fn key_to_bytes(key: &Key) -> (r: Option<Vec<u8>>)
    ensures
        match r {
            Some(v) => key_bytes(*key) == Some(v@),
            None => key_bytes(*key) is None,
        },
{
    match *key {
        Key::Char(c) => Some(encode_char(c)),
        Key::Control(c) => {
            let mut v: Vec<u8> = Vec::new();
            v.push((c as u32 as u8) & 0x1f);
            assert(v@ =~= seq![(c as u32 as u8) & 0x1f]);
            Some(v)
        },
        Key::Tab => {
            let mut v: Vec<u8> = Vec::new();
            v.push(9);
            assert(v@ =~= seq![9u8]);
            Some(v)
        },
        Key::Backspace => {
            let mut v: Vec<u8> = Vec::new();
            v.push(0x7f);
            assert(v@ =~= seq![0x7fu8]);
            Some(v)
        },
        Key::Escape => {
            let mut v: Vec<u8> = Vec::new();
            v.push(0x1b);
            assert(v@ =~= seq![0x1bu8]);
            Some(v)
        },
        _ => None,
    }
}

} // verus!
