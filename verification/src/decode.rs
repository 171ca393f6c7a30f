use crate::terminal::Key;
use vstd::prelude::*;
use vstd::utf8::{decode_utf8, valid_utf8};
use vstd::utf8::{encode_utf8, encode_utf8_decode_utf8, encode_utf8_valid_utf8};

verus! {

/// What reading a key from input bytes gives: a key and the position after it, a need for
/// more input, or the end of the input.
#[derive(PartialEq, Eq, Debug)]
pub enum Decoded {
    Got(Key, usize),
    More,
    End,
}

/// The number of bytes of a UTF-8 sequence that starts with `first` (one for a byte that
/// starts none).
pub open spec fn utf8_width(first: u8) -> nat {
    if first & 0xe0 == 0xc0 {
        2
    } else if first & 0xf0 == 0xe0 {
        3
    } else if first & 0xf8 == 0xf0 {
        4
    } else {
        1
    }
}

/// The number of bytes of a UTF-8 sequence that starts with `first`.
pub fn utf8_byte_count(first: u8) -> (n: usize)
    ensures
        n == utf8_width(first),
{
    if first & 0xe0 == 0xc0 {
        2
    } else if first & 0xf0 == 0xe0 {
        3
    } else if first & 0xf8 == 0xf0 {
        4
    } else {
        1
    }
}

/// The key of a numbered escape sequence (`ESC [ n ~`): Home, Insert, Delete, End, the
/// page keys and the function keys; any other number is an unknown key (numbers too large
/// for a key code give the largest).
pub open spec fn csi_key(n: nat) -> Key {
    if n == 1 || n == 7 {
        Key::Home
    } else if n == 2 {
        Key::Insert
    } else if n == 3 {
        Key::Delete
    } else if n == 4 || n == 8 {
        Key::End
    } else if n == 5 {
        Key::PageUp
    } else if n == 6 {
        Key::PageDown
    } else if 11 <= n <= 15 {
        Key::Function((n - 10) as u8)
    } else if 17 <= n <= 21 {
        Key::Function((n - 11) as u8)
    } else if 23 <= n <= 24 {
        Key::Function((n - 12) as u8)
    } else if n <= 0xFFFF_FEFF {
        Key::Unknown((0x100 + n) as u32)
    } else {
        Key::Unknown(0xFFFF_FFFF)
    }
}

/// The key of a numbered escape sequence; see `csi_key`.
pub fn csi_param_to_key(n: usize) -> (k: Key)
    ensures
        k == csi_key(n as nat),
{
    if n == 1 || n == 7 {
        Key::Home
    } else if n == 2 {
        Key::Insert
    } else if n == 3 {
        Key::Delete
    } else if n == 4 || n == 8 {
        Key::End
    } else if n == 5 {
        Key::PageUp
    } else if n == 6 {
        Key::PageDown
    } else if 11 <= n && n <= 15 {
        Key::Function((n - 10) as u8)
    } else if 17 <= n && n <= 21 {
        Key::Function((n - 11) as u8)
    } else if 23 <= n && n <= 24 {
        Key::Function((n - 12) as u8)
    } else if n <= 0xFFFF_FEFF {
        Key::Unknown((0x100 + n) as u32)
    } else {
        Key::Unknown(0xFFFF_FFFF)
    }
}

/// `n * 10 + d`, held at `usize::MAX`.
pub open spec fn decimal_step(n: nat, d: nat) -> nat {
    if n * 10 + d > usize::MAX {
        usize::MAX as nat
    } else {
        n * 10 + d
    }
}

/// The number of an escape sequence, `n` so far, going on with the digits at `pos` (as far
/// as the input goes), then past a `~` if one follows: the number and where it ends.
pub open spec fn csi_digits(input: Seq<u8>, pos: int, n: nat) -> (nat, int)
    decreases input.len() - pos,
{
    if 0 <= pos < input.len() && 48 <= input[pos] <= 57 {
        csi_digits(input, pos + 1, decimal_step(n, (input[pos] - 48) as nat))
    } else if 0 <= pos < input.len() && input[pos] == 126 {
        (n, pos + 1)
    } else {
        (n, pos)
    }
}

/// A byte that is read and is not there: the end of the input, or a need for more.
pub open spec fn short(eof: bool) -> Decoded {
    if eof {
        Decoded::End
    } else {
        Decoded::More
    }
}

/// The key of the escape sequence whose command byte is at `pos` (after `ESC [` or
/// `ESC O`): arrows, Home, End, back-tab, a numbered key, or an unknown key.
pub open spec fn csi_decoded(input: Seq<u8>, pos: int, eof: bool) -> Decoded {
    if pos >= input.len() {
        short(eof)
    } else {
        let c = input[pos];
        let p = (pos + 1) as usize;
        if c == 65 {
            Decoded::Got(Key::Up, p)
        } else if c == 66 {
            Decoded::Got(Key::Down, p)
        } else if c == 67 {
            Decoded::Got(Key::Right, p)
        } else if c == 68 {
            Decoded::Got(Key::Left, p)
        } else if c == 72 {
            Decoded::Got(Key::Home, p)
        } else if c == 70 {
            Decoded::Got(Key::End, p)
        } else if c == 90 {
            Decoded::Got(Key::Tab, p)
        } else if 48 <= c <= 57 {
            let (n, q) = csi_digits(input, pos + 1, (c - 48) as nat);
            Decoded::Got(csi_key(n), q as usize)
        } else {
            Decoded::Got(Key::Unknown((0x100 + c) as u32), p)
        }
    }
}

/// The key of an escape at `pos - 1`, the byte after it being at `pos`: a lone escape (at
/// the end of the input, or doubled), an escape sequence, or a meta key.
pub open spec fn escape_decoded(input: Seq<u8>, pos: int, eof: bool) -> Decoded {
    if pos >= input.len() {
        if eof {
            Decoded::Got(Key::Escape, pos as usize)
        } else {
            Decoded::More
        }
    } else {
        let nx = input[pos];
        let p = (pos + 1) as usize;
        if nx == 91 || nx == 79 {
            csi_decoded(input, pos + 1, eof)
        } else if nx == 0x1b {
            Decoded::Got(Key::Escape, p)
        } else if nx == 0x7f {
            Decoded::Got(Key::Meta(0x7f as char), p)
        } else if nx < 0x20 {
            Decoded::Got(Key::MetaControl((nx + 0x40) as char), p)
        } else {
            Decoded::Got(Key::Meta(nx as char), p)
        }
    }
}

/// The key whose bytes start at `pos` of `input` (`eof` tells whether more input can
/// come): control keys, escapes and escape sequences, UTF-8 characters (an invalid
/// sequence giving an unknown key), and plain bytes.
pub open spec fn decoded_at(input: Seq<u8>, pos: int, eof: bool) -> Decoded {
    if pos < 0 || pos >= input.len() {
        short(eof)
    } else {
        let b = input[pos];
        let p = (pos + 1) as usize;
        if b == 0x1b {
            escape_decoded(input, pos + 1, eof)
        } else if b == 0x7f {
            Decoded::Got(Key::Backspace, p)
        } else if b == 13 {
            Decoded::Got(Key::Enter, p)
        } else if b == 9 {
            Decoded::Got(Key::Tab, p)
        } else if b < 0x20 {
            Decoded::Got(Key::Control((b + 0x40) as char), p)
        } else if b & 0x80 != 0 {
            let w = utf8_width(b);
            if pos + w > input.len() {
                short(eof)
            } else {
                let s = input.subrange(pos, pos + w);
                if valid_utf8(s) && decode_utf8(s).len() > 0 {
                    Decoded::Got(Key::Char(decode_utf8(s)[0]), (pos + w) as usize)
                } else {
                    Decoded::Got(Key::Unknown(b as u32), (pos + w) as usize)
                }
            }
        } else {
            Decoded::Got(Key::Char(b as char), p)
        }
    }
}

/// `std::str::from_utf8`: the bytes as text when they are valid UTF-8.
#[verifier::external_body]
fn text_of_utf8(bytes: &[u8]) -> (r: Option<&str>)
    ensures
        valid_utf8(bytes@) <==> r is Some,
        r matches Some(s) ==> s@ == decode_utf8(bytes@),
{
    std::str::from_utf8(bytes).ok()
}

proof fn lemma_decimal_bound(n: nat, d: nat)
    requires
        d <= 9,
    ensures
        n > (usize::MAX - d) / 10 <==> n * 10 + d > usize::MAX,
{
    let m = (usize::MAX - d) as nat;
    assert(n > m / 10 <==> n * 10 + d > usize::MAX) by (nonlinear_arith)
        requires
            m == usize::MAX - d,
            d <= 9,
    ;
}

/// Reads the digits of an escape sequence; see `csi_digits`.
fn parse_csi_digits(input: &[u8], pos: usize, first: u8) -> (r: (usize, usize))
    requires
        48 <= first <= 57,
        pos <= input@.len(),
    ensures
        (r.0 as nat, r.1 as int) == csi_digits(input@, pos as int, (first - 48) as nat),
{
    let mut n: usize = (first - 48) as usize;
    let mut p: usize = pos;
    while p < input.len() && 48 <= input[p] && input[p] <= 57
        invariant
            pos <= p <= input@.len(),
            csi_digits(input@, pos as int, (first - 48) as nat) == csi_digits(input@, p as int, n as nat),
        decreases input@.len() - p,
    {
        let d = (input[p] - 48) as usize;
        let n0 = n;
        proof {
            lemma_decimal_bound(n0 as nat, d as nat);
        }
        n = if n0 > (usize::MAX - d) / 10 {
            usize::MAX
        } else {
            n0 * 10 + d
        };
        p += 1;
    }
    if p < input.len() && input[p] == 126 {
        p += 1;
    }
    (n, p)
}

/// Reads the key whose bytes start at `pos` of `input`; see `decoded_at`.
pub fn decode_key(input: &[u8], pos: usize, eof: bool) -> (r: Decoded)
    ensures
        r == decoded_at(input@, pos as int, eof),
{
    if pos >= input.len() {
        return if eof {
            Decoded::End
        } else {
            Decoded::More
        };
    }
    let b = input[pos];
    let p = pos + 1;
    if b == 0x1b {
        if p >= input.len() {
            return if eof {
                Decoded::Got(Key::Escape, p)
            } else {
                Decoded::More
            };
        }
        let nx = input[p];
        let p2 = p + 1;
        if nx == 91 || nx == 79 {
            if p2 >= input.len() {
                return if eof {
                    Decoded::End
                } else {
                    Decoded::More
                };
            }
            let c = input[p2];
            let p3 = p2 + 1;
            if c == 65 {
                Decoded::Got(Key::Up, p3)
            } else if c == 66 {
                Decoded::Got(Key::Down, p3)
            } else if c == 67 {
                Decoded::Got(Key::Right, p3)
            } else if c == 68 {
                Decoded::Got(Key::Left, p3)
            } else if c == 72 {
                Decoded::Got(Key::Home, p3)
            } else if c == 70 {
                Decoded::Got(Key::End, p3)
            } else if c == 90 {
                Decoded::Got(Key::Tab, p3)
            } else if 48 <= c && c <= 57 {
                let (n, q) = parse_csi_digits(input, p3, c);
                Decoded::Got(csi_param_to_key(n), q)
            } else {
                Decoded::Got(Key::Unknown(0x100 + c as u32), p3)
            }
        } else if nx == 0x1b {
            Decoded::Got(Key::Escape, p2)
        } else if nx == 0x7f {
            Decoded::Got(Key::Meta(0x7f as char), p2)
        } else if nx < 0x20 {
            Decoded::Got(Key::MetaControl((nx + 0x40) as char), p2)
        } else {
            Decoded::Got(Key::Meta(nx as char), p2)
        }
    } else if b == 0x7f {
        Decoded::Got(Key::Backspace, p)
    } else if b == 13 {
        Decoded::Got(Key::Enter, p)
    } else if b == 9 {
        Decoded::Got(Key::Tab, p)
    } else if b < 0x20 {
        Decoded::Got(Key::Control((b + 0x40) as char), p)
    } else if b & 0x80 != 0 {
        let w = utf8_byte_count(b);
        if w > input.len() - pos {
            return if eof {
                Decoded::End
            } else {
                Decoded::More
            };
        }
        let s = slice_range(input, pos, pos + w);
        match text_of_utf8(s) {
            Some(t) => {
                if t.unicode_len() > 0 {
                    Decoded::Got(Key::Char(t.get_char(0)), pos + w)
                } else {
                    Decoded::Got(Key::Unknown(b as u32), pos + w)
                }
            },
            None => Decoded::Got(Key::Unknown(b as u32), pos + w),
        }
    } else {
        Decoded::Got(Key::Char(b as char), p)
    }
}

/// The bytes of `s` from `i` to `j`.
fn slice_range(s: &[u8], i: usize, j: usize) -> (r: &[u8])
    requires
        i <= j <= s@.len(),
    ensures
        r@ == s@.subrange(i as int, j as int),
{
    vstd::slice::slice_subrange(s, i, j)
}

/// The keys of the escape sequences that end in a letter: `ESC [` or `ESC O` followed by
/// `A`, `B`, `C` or `D` are the arrows up, down, right and left, `H` is Home, `F` is End and
/// `Z` is back-tab; each takes its three bytes.
pub proof fn lemma_escape_letter_keys(input: Seq<u8>, pos: int, eof: bool)
    requires
        0 <= pos,
        pos + 3 <= input.len(),
        pos + 3 <= usize::MAX,
        input[pos] == 0x1b,
        input[pos + 1] == 91 || input[pos + 1] == 79,
    ensures
        input[pos + 2] == 65 ==> decoded_at(input, pos, eof) == Decoded::Got(Key::Up, (pos + 3) as usize),
        input[pos + 2] == 66 ==> decoded_at(input, pos, eof) == Decoded::Got(Key::Down, (pos + 3) as usize),
        input[pos + 2] == 67 ==> decoded_at(input, pos, eof) == Decoded::Got(Key::Right, (pos + 3) as usize),
        input[pos + 2] == 68 ==> decoded_at(input, pos, eof) == Decoded::Got(Key::Left, (pos + 3) as usize),
        input[pos + 2] == 72 ==> decoded_at(input, pos, eof) == Decoded::Got(Key::Home, (pos + 3) as usize),
        input[pos + 2] == 70 ==> decoded_at(input, pos, eof) == Decoded::Got(Key::End, (pos + 3) as usize),
        input[pos + 2] == 90 ==> decoded_at(input, pos, eof) == Decoded::Got(Key::Tab, (pos + 3) as usize),
{
}

/// The keys of the numbered escape sequences `ESC [ d ~` with one digit `d` from 1 to 8:
/// 1 and 7 are Home, 2 Insert, 3 Delete, 4 and 8 End, 5 Page Up and 6 Page Down; each
/// takes its four bytes.
pub proof fn lemma_escape_number_keys(input: Seq<u8>, pos: int, eof: bool)
    requires
        0 <= pos,
        pos + 4 <= input.len(),
        pos + 4 <= usize::MAX,
        input[pos] == 0x1b,
        input[pos + 1] == 91,
        input[pos + 3] == 126,
    ensures
        input[pos + 2] == 49 || input[pos + 2] == 55 ==> decoded_at(input, pos, eof) == Decoded::Got(
            Key::Home,
            (pos + 4) as usize,
        ),
        input[pos + 2] == 50 ==> decoded_at(input, pos, eof) == Decoded::Got(Key::Insert, (pos + 4) as usize),
        input[pos + 2] == 51 ==> decoded_at(input, pos, eof) == Decoded::Got(Key::Delete, (pos + 4) as usize),
        input[pos + 2] == 52 || input[pos + 2] == 56 ==> decoded_at(input, pos, eof) == Decoded::Got(
            Key::End,
            (pos + 4) as usize,
        ),
        input[pos + 2] == 53 ==> decoded_at(input, pos, eof) == Decoded::Got(Key::PageUp, (pos + 4) as usize),
        input[pos + 2] == 54 ==> decoded_at(input, pos, eof) == Decoded::Got(Key::PageDown, (pos + 4) as usize),
{
    let c = input[pos + 2];
    if 48 <= c <= 57 {
        assert(csi_digits(input, pos + 3, (c - 48) as nat) == ((c - 48) as nat, pos + 4));
    }
}

/// The End key is read the same from the three ways terminals send it: `ESC [ F`,
/// `ESC O F` and `ESC [ 4 ~`; so is Home from `ESC [ H`, `ESC O H` and `ESC [ 1 ~`.
pub proof fn lemma_home_end_agree(a: Seq<u8>, b: Seq<u8>, eof: bool)
    requires
        a.len() == 3,
        b.len() == 4,
        a[0] == 0x1b,
        a[1] == 91 || a[1] == 79,
        b[0] == 0x1b,
        b[1] == 91,
        b[3] == 126,
        (a[2] == 70 && b[2] == 52) || (a[2] == 72 && b[2] == 49),
    ensures
        decoded_at(a, 0, eof) matches Decoded::Got(ka, 3) && decoded_at(b, 0, eof) matches Decoded::Got(
            kb,
            4,
        ) && ka == kb && (ka == Key::End || ka == Key::Home),
{
    lemma_escape_letter_keys(a, 0, eof);
    lemma_escape_number_keys(b, 0, eof);
}

/// The keys of single bytes: a printable ASCII byte is that character, DEL is Backspace,
/// carriage return is Enter, tab is Tab, and any other control byte but escape is that
/// control key (the letter it is typed with); each takes one byte.  With no byte left, the
/// end of the input or a need for more.
pub proof fn lemma_single_byte_keys(input: Seq<u8>, pos: int, eof: bool)
    requires
        0 <= pos,
        pos + 1 <= usize::MAX,
    ensures
        pos >= input.len() ==> decoded_at(input, pos, eof) == (if eof {
            Decoded::End
        } else {
            Decoded::More
        }),
        pos < input.len() && 0x20 <= input[pos] < 0x7f ==> decoded_at(input, pos, eof) == Decoded::Got(
            Key::Char(input[pos] as char),
            (pos + 1) as usize,
        ),
        pos < input.len() && input[pos] == 0x7f ==> decoded_at(input, pos, eof) == Decoded::Got(
            Key::Backspace,
            (pos + 1) as usize,
        ),
        pos < input.len() && input[pos] == 13 ==> decoded_at(input, pos, eof) == Decoded::Got(Key::Enter, (pos + 1) as usize),
        pos < input.len() && input[pos] == 9 ==> decoded_at(input, pos, eof) == Decoded::Got(Key::Tab, (pos + 1) as usize),
        pos < input.len() && input[pos] < 0x20 && input[pos] != 9 && input[pos] != 13 && input[pos] != 0x1b
            ==> decoded_at(input, pos, eof) == Decoded::Got(Key::Control((input[pos] + 0x40) as char), (pos + 1) as usize),
{
    if pos < input.len() {
        let b = input[pos];
        assert(b < 0x80 ==> b & 0x80 == 0) by (bit_vector);
    }
}

/// The keys that start with escape: escape alone at the end of the input (or a need for
/// more), escape twice is Escape, and escape before any other byte but `[` and `O` is that
/// key with meta: a printable byte or DEL as a meta character, a control byte as a meta
/// control key; each takes its two bytes.
pub proof fn lemma_escape_keys(input: Seq<u8>, pos: int, eof: bool)
    requires
        0 <= pos < input.len(),
        pos + 2 <= usize::MAX,
        input[pos] == 0x1b,
    ensures
        pos + 1 == input.len() ==> decoded_at(input, pos, eof) == (if eof {
            Decoded::Got(Key::Escape, (pos + 1) as usize)
        } else {
            Decoded::More
        }),
        pos + 1 < input.len() && input[pos + 1] == 0x1b ==> decoded_at(input, pos, eof) == Decoded::Got(
            Key::Escape,
            (pos + 2) as usize,
        ),
        pos + 1 < input.len() && 0x20 <= input[pos + 1] <= 0x7f && input[pos + 1] != 91 && input[pos + 1] != 79
            ==> decoded_at(input, pos, eof) == Decoded::Got(Key::Meta(input[pos + 1] as char), (pos + 2) as usize),
        pos + 1 < input.len() && input[pos + 1] < 0x20 && input[pos + 1] != 0x1b ==> decoded_at(input, pos, eof)
            == Decoded::Got(Key::MetaControl((input[pos + 1] + 0x40) as char), (pos + 2) as usize),
{
}

/// The function keys as numbered escape sequences `ESC [ d d ~`: 11 to 15 are F1 to F5,
/// 17 to 21 are F6 to F10, 23 and 24 are F11 and F12; each takes its five bytes.
pub proof fn lemma_function_keys(input: Seq<u8>, pos: int, eof: bool)
    requires
        0 <= pos,
        pos + 5 <= input.len(),
        pos + 5 <= usize::MAX,
        input[pos] == 0x1b,
        input[pos + 1] == 91,
        48 <= input[pos + 2] <= 57,
        48 <= input[pos + 3] <= 57,
        input[pos + 4] == 126,
    ensures
        input[pos + 2] == 49 && input[pos + 3] == 49 ==> decoded_at(input, pos, eof) == Decoded::Got(
            Key::Function(1),
            (pos + 5) as usize,
        ),
        input[pos + 2] == 49 && input[pos + 3] == 50 ==> decoded_at(input, pos, eof) == Decoded::Got(
            Key::Function(2),
            (pos + 5) as usize,
        ),
        input[pos + 2] == 49 && input[pos + 3] == 51 ==> decoded_at(input, pos, eof) == Decoded::Got(
            Key::Function(3),
            (pos + 5) as usize,
        ),
        input[pos + 2] == 49 && input[pos + 3] == 52 ==> decoded_at(input, pos, eof) == Decoded::Got(
            Key::Function(4),
            (pos + 5) as usize,
        ),
        input[pos + 2] == 49 && input[pos + 3] == 53 ==> decoded_at(input, pos, eof) == Decoded::Got(
            Key::Function(5),
            (pos + 5) as usize,
        ),
        input[pos + 2] == 49 && input[pos + 3] == 55 ==> decoded_at(input, pos, eof) == Decoded::Got(
            Key::Function(6),
            (pos + 5) as usize,
        ),
        input[pos + 2] == 49 && input[pos + 3] == 56 ==> decoded_at(input, pos, eof) == Decoded::Got(
            Key::Function(7),
            (pos + 5) as usize,
        ),
        input[pos + 2] == 49 && input[pos + 3] == 57 ==> decoded_at(input, pos, eof) == Decoded::Got(
            Key::Function(8),
            (pos + 5) as usize,
        ),
        input[pos + 2] == 50 && input[pos + 3] == 48 ==> decoded_at(input, pos, eof) == Decoded::Got(
            Key::Function(9),
            (pos + 5) as usize,
        ),
        input[pos + 2] == 50 && input[pos + 3] == 49 ==> decoded_at(input, pos, eof) == Decoded::Got(
            Key::Function(10),
            (pos + 5) as usize,
        ),
        input[pos + 2] == 50 && input[pos + 3] == 51 ==> decoded_at(input, pos, eof) == Decoded::Got(
            Key::Function(11),
            (pos + 5) as usize,
        ),
        input[pos + 2] == 50 && input[pos + 3] == 52 ==> decoded_at(input, pos, eof) == Decoded::Got(
            Key::Function(12),
            (pos + 5) as usize,
        ),
{
    let d1 = (input[pos + 2] - 48) as nat;
    let d2 = (input[pos + 3] - 48) as nat;
    assert(decimal_step(d1, d2) == d1 * 10 + d2);
    assert(csi_digits(input, pos + 4, d1 * 10 + d2) == (d1 * 10 + d2, pos + 5));
    assert(csi_digits(input, pos + 3, d1) == (d1 * 10 + d2, pos + 5));
}

/// A character outside ASCII, sent as its UTF-8 encoding, is read as that character,
/// taking the bytes of its encoding.
pub proof fn lemma_utf8_char_key(input: Seq<u8>, pos: int, eof: bool, c: char)
    requires
        0 <= pos,
        c as u32 >= 0x80,
        pos + encode_utf8(seq![c]).len() <= input.len(),
        pos + encode_utf8(seq![c]).len() <= usize::MAX,
        input.subrange(pos, pos + encode_utf8(seq![c]).len()) == encode_utf8(seq![c]),
    ensures
        decoded_at(input, pos, eof) == Decoded::Got(Key::Char(c), (pos + encode_utf8(seq![c]).len()) as usize),
{
    let e = encode_utf8(seq![c]);
    let v = c as u32;
    assert(encode_utf8(seq![c].drop_first()) =~= Seq::<u8>::empty());
    assert(e =~= vstd::utf8::encode_scalar(v));
    vstd::utf8::char_is_scalar(c);
    encode_utf8_valid_utf8(seq![c]);
    encode_utf8_decode_utf8(seq![c]);
    assert(input[pos] == e[0]);
    let b = e[0];
    if v <= 0x7FF {
        let y = (v >> 6) & 0x1F;
        assert(y <= 0x1F) by (bit_vector)
            requires
                y == (v >> 6) & 0x1F,
        ;
        let y8 = y as u8;
        assert(b == 0xC0u8 | y8);
        assert(b & 0xe0 == 0xc0 && b & 0x80 != 0 && b >= 0x80) by (bit_vector)
            requires
                b == 0xC0u8 | y8,
                y8 <= 0x1F,
        ;
    } else if v <= 0xFFFF {
        let y = (v >> 12) & 0x0F;
        assert(y <= 0x0F) by (bit_vector)
            requires
                y == (v >> 12) & 0x0F,
        ;
        let y8 = y as u8;
        assert(b == 0xE0u8 | y8);
        assert(b & 0xe0 != 0xc0 && b & 0xf0 == 0xe0 && b & 0x80 != 0 && b >= 0x80) by (bit_vector)
            requires
                b == 0xE0u8 | y8,
                y8 <= 0x0F,
        ;
    } else {
        let y = (v >> 18) & 0x7;
        assert(y <= 0x7) by (bit_vector)
            requires
                y == (v >> 18) & 0x7,
        ;
        let y8 = y as u8;
        assert(b == 0xF0u8 | y8);
        assert(b & 0xe0 != 0xc0 && b & 0xf0 != 0xe0 && b & 0xf8 == 0xf0 && b & 0x80 != 0 && b >= 0x80) by (bit_vector)
            requires
                b == 0xF0u8 | y8,
                y8 <= 0x7,
        ;
    }
    assert(utf8_width(b) == e.len());
    assert(input.subrange(pos, pos + utf8_width(b)) == e);
    assert(valid_utf8(e));
    assert(decode_utf8(e) == seq![c]);
    assert(decode_utf8(e).len() > 0 && decode_utf8(e)[0] == c);
}

} // verus!
