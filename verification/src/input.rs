use crate::terminal::{key_code, key_code_of, Key};
use crate::types::{CONTROL, META};
use vstd::prelude::*;

verus! {

/// A key together with its numeric argument: `f` tells whether an argument was typed,
/// `n` is its value (1 when none was).
#[derive(Debug, Clone, Copy, PartialEq, Eq, Structural)]
pub struct KeyEvent {
    pub f: bool,
    pub n: usize,
    pub key: Key,
}

/// An argument being typed: after a meta digit or meta minus (`Meta`, which remembers
/// the key that started it) or after `C-U` (`Universal`).  `mflag` is 1 once a digit was
/// typed, -1 after a minus sign, 0 while only `C-U` was typed.
#[derive(Debug, Clone, Copy, PartialEq, Eq, Structural)]
pub enum ArgState {
    Meta { mflag: i8, n: usize, raw: Key },
    Universal { mflag: i8, n: usize },
}

/// What reading one more key led to: a finished event or an argument still being typed.
#[derive(Debug, Clone, Copy, PartialEq, Eq, Structural)]
pub enum KeyStep {
    Done(KeyEvent),
    More(ArgState),
}

/// `C-U`.
pub open spec fn universal_code() -> u32 {
    CONTROL | 0x15
}

/// The low byte of a key's code.
pub open spec fn low_byte(key: Key) -> u8 {
    (key_code_of(key) & 0xff) as u8
}

pub open spec fn is_digit_byte(b: u8) -> bool {
    48 <= b <= 57
}

/// `10 * n + d`, held at `usize::MAX` when it does not fit.
pub open spec fn append_digit(n: usize, d: u8) -> usize {
    if n * 10 + d <= usize::MAX {
        (n * 10 + d) as usize
    } else {
        usize::MAX
    }
}

/// A key with no argument.
pub open spec fn plain(key: Key) -> KeyEvent {
    KeyEvent { f: false, n: 1, key }
}

/// A key with an argument; after a minus sign the value is at least 1.
pub open spec fn with_arg(mflag: i8, n: usize, key: Key) -> KeyEvent {
    KeyEvent {
        f: true,
        n: if mflag < 0 && n < 1 {
            1
        } else {
            n
        },
        key,
    }
}

/// What the first key read gives.
pub open spec fn first_step(raw: Option<Key>) -> KeyStep {
    match raw {
        None => KeyStep::Done(plain(Key::Unknown(0))),
        Some(k) => {
            let kc = key_code_of(k);
            if kc == 0x1b {
                KeyStep::Done(plain(Key::Control('[')))
            } else if kc & META != 0 {
                let b = low_byte(k);
                if is_digit_byte(b) {
                    KeyStep::More(ArgState::Meta { mflag: 1, n: (b - 48) as usize, raw: k })
                } else if b == 45 {
                    KeyStep::More(ArgState::Meta { mflag: -1i8, n: 0, raw: k })
                } else {
                    KeyStep::Done(plain(k))
                }
            } else if kc == universal_code() {
                KeyStep::More(ArgState::Universal { mflag: 0, n: 4 })
            } else {
                KeyStep::Done(plain(k))
            }
        },
    }
}

/// What one more key gives while an argument is being typed.
pub open spec fn next_step(state: ArgState, next: Option<Key>) -> KeyStep {
    match state {
        ArgState::Meta { mflag, n, raw } => match next {
            None => KeyStep::Done(with_arg(mflag, n, raw)),
            Some(k) => {
                let b = low_byte(k);
                if is_digit_byte(b) {
                    KeyStep::More(ArgState::Meta { mflag, n: append_digit(n, (b - 48) as u8), raw })
                } else if b == 45 && n == 0 {
                    KeyStep::More(ArgState::Meta { mflag: -1i8, n, raw })
                } else {
                    KeyStep::Done(with_arg(mflag, n, k))
                }
            },
        },
        ArgState::Universal { mflag, n } => match next {
            None => KeyStep::Done(KeyEvent { f: true, n, key: Key::Unknown(0) }),
            Some(k) => {
                let kc = key_code_of(k);
                let b = low_byte(k);
                if kc == universal_code() {
                    KeyStep::More(
                        ArgState::Universal {
                            mflag,
                            n: if n * 4 <= usize::MAX {
                                (n * 4) as usize
                            } else {
                                usize::MAX
                            },
                        },
                    )
                } else if kc & META != 0 {
                    KeyStep::Done(with_arg(mflag, n, k))
                } else if is_digit_byte(b) {
                    let start = if mflag == 0 {
                        0usize
                    } else {
                        n
                    };
                    let m: i8 = if mflag == 0 {
                        1
                    } else {
                        mflag
                    };
                    KeyStep::More(
                        ArgState::Universal { mflag: m, n: append_digit(start, (b - 48) as u8) },
                    )
                } else if b == 45 && mflag == 0 {
                    KeyStep::More(ArgState::Universal { mflag: -1i8, n: 0 })
                } else {
                    KeyStep::Done(with_arg(mflag, n, k))
                }
            },
        },
    }
}

fn low_byte_of(key: Key) -> (b: u8)
    ensures
        b == low_byte(key),
{
    (key_code(key).0 & 0xff) as u8
}

fn grow(n: usize, d: u8) -> (r: usize)
    requires
        d <= 9,
    ensures
        r == append_digit(n, d),
{
    if n <= (usize::MAX - 9) / 10 {
        n * 10 + d as usize
    } else {
        let m = n.checked_mul(10);
        match m {
            Some(m) => match m.checked_add(d as usize) {
                Some(v) => v,
                None => usize::MAX,
            },
            None => usize::MAX,
        }
    }
}

fn event_with_arg(mflag: i8, n: usize, key: Key) -> (ev: KeyEvent)
    ensures
        ev == with_arg(mflag, n, key),
{
    KeyEvent {
        f: true,
        n: if mflag < 0 && n < 1 {
            1
        } else {
            n
        },
        key,
    }
}

/// Classifies the first key read for an event.
pub fn first_key_step(raw: Option<Key>) -> (s: KeyStep)
    ensures
        s == first_step(raw),
{
    match raw {
        None => KeyStep::Done(KeyEvent { f: false, n: 1, key: Key::Unknown(0) }),
        Some(k) => {
            let kc = key_code(k).0;
            if kc == 0x1b {
                KeyStep::Done(KeyEvent { f: false, n: 1, key: Key::Control('[') })
            } else if kc & META != 0 {
                let b = low_byte_of(k);
                if 48 <= b && b <= 57 {
                    KeyStep::More(ArgState::Meta { mflag: 1, n: (b - 48) as usize, raw: k })
                } else if b == 45 {
                    KeyStep::More(ArgState::Meta { mflag: -1, n: 0, raw: k })
                } else {
                    KeyStep::Done(KeyEvent { f: false, n: 1, key: k })
                }
            } else if kc == CONTROL | 0x15 {
                KeyStep::More(ArgState::Universal { mflag: 0, n: 4 })
            } else {
                KeyStep::Done(KeyEvent { f: false, n: 1, key: k })
            }
        },
    }
}

/// Folds one more key into an argument being typed.
pub fn next_key_step(state: ArgState, next: Option<Key>) -> (s: KeyStep)
    ensures
        s == next_step(state, next),
{
    match state {
        ArgState::Meta { mflag, n, raw } => match next {
            None => KeyStep::Done(event_with_arg(mflag, n, raw)),
            Some(k) => {
                let b = low_byte_of(k);
                if 48 <= b && b <= 57 {
                    KeyStep::More(ArgState::Meta { mflag, n: grow(n, b - 48), raw })
                } else if b == 45 && n == 0 {
                    KeyStep::More(ArgState::Meta { mflag: -1, n, raw })
                } else {
                    KeyStep::Done(event_with_arg(mflag, n, k))
                }
            },
        },
        ArgState::Universal { mflag, n } => match next {
            None => KeyStep::Done(KeyEvent { f: true, n, key: Key::Unknown(0) }),
            Some(k) => {
                let kc = key_code(k).0;
                let b = low_byte_of(k);
                if kc == CONTROL | 0x15 {
                    KeyStep::More(ArgState::Universal { mflag, n: if n <= usize::MAX / 4 { n * 4 } else { usize::MAX } })
                } else if kc & META != 0 {
                    KeyStep::Done(event_with_arg(mflag, n, k))
                } else if 48 <= b && b <= 57 {
                    let start = if mflag == 0 {
                        0
                    } else {
                        n
                    };
                    let m: i8 = if mflag == 0 {
                        1
                    } else {
                        mflag
                    };
                    KeyStep::More(ArgState::Universal { mflag: m, n: grow(start, b - 48) })
                } else if b == 45 && mflag == 0 {
                    KeyStep::More(ArgState::Universal { mflag: -1, n: 0 })
                } else {
                    KeyStep::Done(event_with_arg(mflag, n, k))
                }
            },
        },
    }
}

} // verus!
