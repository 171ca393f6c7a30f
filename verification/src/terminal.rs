use crate::text::{decimal_chars, decimal_string, push_char};
use crate::types::{Error, KeyCode, Result, CONTROL, META};
use vstd::prelude::*;
use vstd::std_specs::convert::FromSpecImpl;

verus! {

/// A key as the terminal reports it.
#[derive(Debug, Clone, Copy, PartialEq, Eq, Structural)]
pub enum Key {
    Char(char),
    Control(char),
    Meta(char),
    MetaControl(char),
    Up,
    Down,
    Left,
    Right,
    PageUp,
    PageDown,
    Home,
    End,
    Delete,
    Insert,
    Backspace,
    Tab,
    Enter,
    Escape,
    Function(u8),
    Unknown(u32),
}

/// The code of a key: function and cursor keys from `0x101` up, control keys as their
/// low five bits plus `CONTROL`, meta keys with `META` added.
pub open spec fn key_code_of(key: Key) -> u32 {
    match key {
        Key::Up => 0x101,
        Key::Down => 0x102,
        Key::Left => 0x103,
        Key::Right => 0x104,
        Key::PageUp => 0x105,
        Key::PageDown => 0x106,
        Key::Home => 0x107,
        Key::End => 0x108,
        Key::Delete => 0x109,
        Key::Insert => 0x10a,
        Key::Function(n) => (0x10a + n) as u32,
        Key::Backspace => 0x7f,
        Key::Tab => 9,
        Key::Enter => 13,
        Key::Escape => 0x1b,
        Key::Char(c) => c as u32,
        Key::Control(c) => CONTROL | (c as u32 & 0x1f),
        Key::Meta(c) => META | (c as u32),
        Key::MetaControl(c) => META | CONTROL | (c as u32 & 0x1f),
        Key::Unknown(code) => code,
    }
}

/// The key code of `key`.
pub fn key_code(key: Key) -> (kc: KeyCode)
    ensures
        kc.0 == key_code_of(key),
{
    match key {
        Key::Up => KeyCode(0x101),
        Key::Down => KeyCode(0x102),
        Key::Left => KeyCode(0x103),
        Key::Right => KeyCode(0x104),
        Key::PageUp => KeyCode(0x105),
        Key::PageDown => KeyCode(0x106),
        Key::Home => KeyCode(0x107),
        Key::End => KeyCode(0x108),
        Key::Delete => KeyCode(0x109),
        Key::Insert => KeyCode(0x10a),
        Key::Function(n) => KeyCode(0x10a + n as u32),
        Key::Backspace => KeyCode(0x7f),
        Key::Tab => KeyCode(9),
        Key::Enter => KeyCode(13),
        Key::Escape => KeyCode(0x1b),
        Key::Char(c) => KeyCode(c as u32),
        Key::Control(c) => KeyCode(CONTROL | (c as u32 & 0x1f)),
        Key::Meta(c) => KeyCode(META | (c as u32)),
        Key::MetaControl(c) => KeyCode(META | CONTROL | (c as u32 & 0x1f)),
        Key::Unknown(code) => KeyCode(code),
    }
}

impl From<Key> for KeyCode {
    fn from(key: Key) -> (kc: KeyCode) {
        key_code(key)
    }
}

impl FromSpecImpl<Key> for KeyCode {
    open spec fn obeys_from_spec() -> bool {
        true
    }

    open spec fn from_spec(v: Key) -> KeyCode {
        KeyCode(key_code_of(v))
    }
}

/// What the editor needs from a screen and keyboard.
pub trait TerminalBackend {
    fn open(&mut self) -> Result<()>;

    fn close(&mut self) -> Result<()>;

    fn dimensions(&self) -> (usize, usize);

    fn move_to(&mut self, row: usize, col: usize);

    fn clear_eol(&mut self);

    fn beep(&mut self);

    fn set_reverse(&mut self, on: bool);

    fn put_char(&mut self, c: char);

    fn get_key(&mut self) -> Option<Key>;

    fn flush(&mut self) -> Result<()>;
}

/// A terminal that records every call and plays back a list of keys.
pub struct MockTerminal {
    pub output: Vec<String>,
    pub input_keys: Vec<Key>,
    pub dimensions: (usize, usize),
    pub reverse: bool,
    pub cursor: (usize, usize),
    pub input_index: usize,
    pub beep_count: usize,
}

impl MockTerminal {
    /// A 24 by 80 terminal with no keys to play back.
    pub fn new() -> (t: Self)
        ensures
            t.output@.len() == 0,
            t.input_keys@.len() == 0,
            t.dimensions == (24usize, 80usize),
            !t.reverse,
            t.cursor == (0usize, 0usize),
            t.input_index == 0,
            t.beep_count == 0,
    {
        MockTerminal {
            output: Vec::new(),
            input_keys: Vec::new(),
            dimensions: (24, 80),
            reverse: false,
            cursor: (0, 0),
            input_index: 0,
            beep_count: 0,
        }
    }

    /// Records one line of output.
    fn record(&mut self, line: String)
        ensures
            final(self).output@ == old(self).output@.push(line),
            final(self).input_keys@ == old(self).input_keys@,
            final(self).input_index == old(self).input_index,
            final(self).dimensions == old(self).dimensions,
            final(self).reverse == old(self).reverse,
            final(self).cursor == old(self).cursor,
            final(self).beep_count == old(self).beep_count,
    {
        self.output.push(line);
    }
}

/// The record `move_to(row,col)`.
pub open spec fn move_to_record(row: nat, col: nat) -> Seq<char> {
    "move_to("@ + decimal_chars(row) + ","@ + decimal_chars(col) + ")"@
}

impl TerminalBackend for MockTerminal {
    fn open(&mut self) -> (r: Result<()>)
        ensures
            r == Ok::<(), Error>(()),
            final(self).output@.len() == old(self).output@.len() + 1,
            final(self).output@.last()@ == "open"@,
            final(self).input_index == old(self).input_index,
    {
        self.record(String::from_str("open"));
        Ok(())
    }

    fn close(&mut self) -> (r: Result<()>)
        ensures
            r == Ok::<(), Error>(()),
            final(self).output@.len() == old(self).output@.len() + 1,
            final(self).output@.last()@ == "close"@,
            final(self).input_index == old(self).input_index,
    {
        self.record(String::from_str("close"));
        Ok(())
    }

    fn dimensions(&self) -> (r: (usize, usize))
        ensures
            r == self.dimensions,
    {
        self.dimensions
    }

    fn move_to(&mut self, row: usize, col: usize)
        ensures
            final(self).cursor == (row, col),
            final(self).output@.len() == old(self).output@.len() + 1,
            final(self).output@.last()@ == move_to_record(row as nat, col as nat),
            final(self).input_index == old(self).input_index,
    {
        self.cursor = (row, col);
        let mut s = String::from_str("move_to(");
        s.append(decimal_string(row as u64).as_str());
        s.append(",");
        s.append(decimal_string(col as u64).as_str());
        s.append(")");
        self.record(s);
    }

    fn clear_eol(&mut self)
        ensures
            final(self).output@.len() == old(self).output@.len() + 1,
            final(self).output@.last()@ == "clear_eol"@,
            final(self).input_index == old(self).input_index,
    {
        self.record(String::from_str("clear_eol"));
    }

    fn beep(&mut self)
        ensures
            final(self).beep_count == old(self).beep_count + 1 || old(self).beep_count
                == usize::MAX,
            final(self).output@.len() == old(self).output@.len() + 1,
            final(self).output@.last()@ == "beep"@,
            final(self).input_index == old(self).input_index,
    {
        if self.beep_count < usize::MAX {
            self.beep_count = self.beep_count + 1;
        }
        self.record(String::from_str("beep"));
    }

    fn set_reverse(&mut self, on: bool)
        ensures
            final(self).reverse == on,
            final(self).output@.len() == old(self).output@.len() + 1,
            final(self).output@.last()@ == (if on {
                "set_reverse(true)"@
            } else {
                "set_reverse(false)"@
            }),
            final(self).input_index == old(self).input_index,
    {
        self.reverse = on;
        if on {
            self.record(String::from_str("set_reverse(true)"));
        } else {
            self.record(String::from_str("set_reverse(false)"));
        }
    }

    fn put_char(&mut self, c: char)
        ensures
            final(self).output@.len() == old(self).output@.len() + 1,
            final(self).output@.last()@ == "put_char("@.push(c) + ")"@,
            final(self).input_index == old(self).input_index,
    {
        let mut s = String::from_str("put_char(");
        push_char(&mut s, c);
        s.append(")");
        self.record(s);
    }

    fn get_key(&mut self) -> (r: Option<Key>)
        ensures
            old(self).input_index < old(self).input_keys@.len() ==> r == Some(
                old(self).input_keys@[old(self).input_index as int],
            ) && final(self).input_index == old(self).input_index + 1,
            old(self).input_index >= old(self).input_keys@.len() ==> r == None::<Key>
                && final(self).input_index == old(self).input_index,
            final(self).input_keys@ == old(self).input_keys@,
            final(self).output@ == old(self).output@,
    {
        if self.input_index < self.input_keys.len() {
            let key = self.input_keys[self.input_index];
            self.input_index = self.input_index + 1;
            Some(key)
        } else {
            None
        }
    }

    fn flush(&mut self) -> (r: Result<()>)
        ensures
            r == Ok::<(), Error>(()),
            final(self).output@.len() == old(self).output@.len() + 1,
            final(self).output@.last()@ == "flush"@,
            final(self).input_index == old(self).input_index,
    {
        self.record(String::from_str("flush"));
        Ok(())
    }
}

} // verus!
