use crate::buffer::Buffer;
use crate::edit::{with_dot, Command, Editor};
use crate::types::{Error, LineId, LineOffset, Result, WindowFlags};
use crate::window::Window;
use vstd::prelude::*;

verus! {

/// Whether `b` starts a UTF-8 character (is not a continuation byte).
pub open spec fn starts_char(b: u8) -> bool {
    !(0x80 <= b < 0xC0)
}

/// Whether `b` starts a UTF-8 character (is not a continuation byte).
pub fn is_utf8_start_byte(b: u8) -> (r: bool)
    ensures
        r == starts_char(b),
{
    !(0x80 <= b && b < 0xC0)
}

/// The number of bytes of the UTF-8 character that starts with `first_byte`.
pub fn utf8_char_width(first_byte: u8) -> (r: usize)
    ensures
        r == (if first_byte < 0x80 {
            1usize
        } else if first_byte < 0xE0 {
            2
        } else if first_byte < 0xF0 {
            3
        } else {
            4
        }),
{
    if first_byte < 0x80 {
        1
    } else if first_byte < 0xE0 {
        2
    } else if first_byte < 0xF0 {
        3
    } else {
        4
    }
}

/// The first offset from `i` on (up to the end of `t`) that starts a character.
pub open spec fn next_start(t: Seq<u8>, i: int) -> int
    decreases t.len() - i,
{
    if i >= t.len() || starts_char(t[i]) {
        i
    } else {
        next_start(t, i + 1)
    }
}

/// The last offset from `i` down (to zero) that starts a character.
pub open spec fn prev_start(t: Seq<u8>, i: int) -> int
    decreases i,
{
    if i <= 0 || starts_char(t[i]) {
        i
    } else {
        prev_start(t, i - 1)
    }
}

/// One step of `forward-char` for window `w` on `b`: at the end of a line to the start of
/// the next one (nowhere after the last), else past one character.
pub open spec fn char_step_forward(b: Buffer, w: Window) -> Option<Window> {
    let l = w.dot_line.0;
    let o = w.dot_offset.0;
    if l >= b.lines@.len() {
        None
    } else if o >= b.text_of(l).len() {
        match b.next_of(l) {
            Some(nl) => Some(with_dot(w, LineId(nl), 0, WindowFlags::moved())),
            None => None,
        }
    } else {
        Some(Window { dot_offset: LineOffset(next_start(b.text_of(l), o + 1) as usize), ..w })
    }
}

/// One step of `backward-char`: at the start of a line to the end of the previous one
/// (nowhere before the first), else back over one character.
pub open spec fn char_step_backward(b: Buffer, w: Window) -> Option<Window> {
    let l = w.dot_line.0;
    let o = w.dot_offset.0;
    if l >= b.lines@.len() {
        None
    } else if o == 0 {
        match b.prev_of(l) {
            Some(pl) => Some(
                with_dot(w, LineId(pl), b.text_of(pl).len() as usize, WindowFlags::moved()),
            ),
            None => None,
        }
    } else if o - 1 < b.text_of(l).len() {
        Some(Window { dot_offset: LineOffset(prev_start(b.text_of(l), o - 1) as usize), ..w })
    } else {
        None
    }
}

/// `n` steps forward (or backward); the flag says whether all of them could be taken.
pub open spec fn char_steps(b: Buffer, w: Window, n: nat, forward: bool) -> (Window, bool)
    decreases n,
{
    if n == 0 {
        (w, true)
    } else {
        let s = if forward {
            char_step_forward(b, w)
        } else {
            char_step_backward(b, w)
        };
        match s {
            Some(w2) => char_steps(b, w2, (n - 1) as nat, forward),
            None => (w, false),
        }
    }
}

/// What moving `n` characters does to an editor: with no current window (or no buffer for
/// it) nothing, and an error unless `n` is zero; else the dot moves step by step, and the
/// result is an error when a step could not be taken.
pub open spec fn moved_by_chars(e0: &Editor, e1: &Editor, n: usize, forward: bool, r: Result<()>) -> bool {
    if n == 0 {
        r is Ok && *e1 == *e0
    } else if !e0.has_cur() {
        r is Err && *e1 == *e0
    } else {
        let (w, ok) = char_steps(e0.cur_buf(), e0.cur_win(), n as nat, forward);
        &&& e1.only_cur_window_now(e0, w)
        &&& (r is Ok <==> ok)
    }
}

/// One character step in the current window.
fn step_char(editor: &mut Editor, forward: bool) -> (r: Result<()>)
    requires
        old(editor).wf(),
        old(editor).has_cur(),
    ensures
        final(editor).wf(),
        match (if forward {
            char_step_forward(old(editor).cur_buf(), old(editor).cur_win())
        } else {
            char_step_backward(old(editor).cur_buf(), old(editor).cur_win())
        }) {
            Some(w2) => r is Ok && final(editor).only_cur_window_now(&*old(editor), w2)
                && final(editor).cur() == Some(w2),
            None => r is Err && *final(editor) == *old(editor),
        },
{
    let w = editor.cur_checked()?;
    let b = match editor.buffers.get(w.buffer_id) {
        Some(b) => b,
        None => return Err(Error::Abort),
    };
    let line = match b.line(w.dot_line) {
        Some(l) => l,
        None => return Err(Error::Abort),
    };
    let len = line.text.len();
    let o = w.dot_offset.0;
    if forward {
        if o >= len {
            let next = match b.next_line(w.dot_line) {
                Some(nl) => nl,
                None => return Err(Error::Abort),
            };
            editor.set_cur_dot(next, 0, WindowFlags::moved());
        } else {
            let mut new_offset = o + 1;
            while new_offset < len
                invariant
                    o < new_offset <= len,
                    len == line.text@.len(),
                    next_start(line.text@, o + 1) == next_start(line.text@, new_offset as int),
                ensures
                    o < new_offset <= len,
                    next_start(line.text@, o + 1) == new_offset,
                decreases len - new_offset,
            {
                if is_utf8_start_byte(line.text[new_offset]) {
                    break;
                }
                new_offset += 1;
            }
            editor.set_cur_window(Window { dot_offset: LineOffset(new_offset), ..w });
        }
    } else {
        if o == 0 {
            let prev = match b.prev_line(w.dot_line) {
                Some(pl) => pl,
                None => return Err(Error::Abort),
            };
            let plen = match b.line_len(prev) {
                Some(pl) => pl,
                None => return Err(Error::Abort),
            };
            proof {
                let ids = b.ids();
                if w.dot_line.0 == 0 {
                    assert(ids[ids.len() - 1] < b.lines@.len());
                } else {
                    assert(ids[b.pos_of(w.dot_line.0) - 1] < b.lines@.len());
                }
            }
            editor.set_cur_dot(prev, plen, WindowFlags::moved());
        } else {
            if o - 1 >= len {
                return Err(Error::Abort);
            }
            let mut new_offset = o - 1;
            while new_offset > 0
                invariant
                    new_offset < len,
                    len == line.text@.len(),
                    prev_start(line.text@, o - 1) == prev_start(line.text@, new_offset as int),
                ensures
                    prev_start(line.text@, o - 1) == new_offset,
                decreases new_offset,
            {
                if is_utf8_start_byte(line.text[new_offset]) {
                    break;
                }
                new_offset -= 1;
            }
            editor.set_cur_window(Window { dot_offset: LineOffset(new_offset), ..w });
        }
    }
    Ok(())
}

/// Moves `n` characters in the given direction.
fn move_chars(editor: &mut Editor, n: usize, forward: bool) -> (r: Result<()>)
    requires
        old(editor).wf(),
    ensures
        final(editor).wf(),
        moved_by_chars(&*old(editor), &*final(editor), n, forward, r),
{
    if n == 0 {
        return Ok(());
    }
    editor.cur_checked()?;
    let ghost e0 = *editor;
    let ghost b = e0.cur_buf();
    proof {
        Editor::lemma_cur_refl(&e0);
    }
    let mut k = n;
    while k > 0
        invariant
            editor.wf(),
            e0.wf(),
            e0 == *old(editor),
            n > 0,
            e0.has_cur(),
            b == e0.cur_buf(),
            editor.has_cur(),
            editor.cur_buf() == b,
            editor.only_cur_window_now(&e0, editor.cur_win()),
            char_steps(b, e0.cur_win(), n as nat, forward) == char_steps(
                b,
                editor.cur_win(),
                k as nat,
                forward,
            ),
        decreases k,
    {
        let ghost e1 = *editor;
        let r = step_char(editor, forward);
        if r.is_err() {
            proof {
                let s = if forward {
                    char_step_forward(b, e1.cur_win())
                } else {
                    char_step_backward(b, e1.cur_win())
                };
                assert(s is None);
                assert(char_steps(b, e1.cur_win(), k as nat, forward) == (e1.cur_win(), false));
            }
            return r;
        }
        proof {
            Editor::lemma_cur_chain(&e0, &e1, &*editor, e1.cur_win(), editor.cur_win());
            Editor::lemma_cur_after(&e1, &*editor, editor.cur_win());
        }
        k -= 1;
    }
    Ok(())
}

/// Moves the dot forward `n` characters, across line ends; fails at the end of the buffer.
pub struct ForwardChar;

impl Command for ForwardChar {
    fn execute(&self, editor: &mut Editor, f: bool, n: usize) -> (r: Result<()>)
        ensures
            moved_by_chars(&*old(editor), &*final(editor), n, true, r),
    {
        move_chars(editor, n, true)
    }
}

/// Moves the dot back `n` characters, across line starts; fails at the start of the buffer.
pub struct BackwardChar;

impl Command for BackwardChar {
    fn execute(&self, editor: &mut Editor, f: bool, n: usize) -> (r: Result<()>)
        ensures
            moved_by_chars(&*old(editor), &*final(editor), n, false, r),
    {
        move_chars(editor, n, false)
    }
}

} // verus!

verus! {

/// The first character start at or after `i` lies between `i` and the end of `t`, with no
/// start before it.
proof fn lemma_next_start(t: Seq<u8>, i: int)
    requires
        0 <= i <= t.len(),
    ensures
        i <= next_start(t, i) <= t.len(),
        forall|j: int| i <= j < next_start(t, i) ==> !starts_char(#[trigger] t[j]),
    decreases t.len() - i,
{
    if i < t.len() && !starts_char(t[i]) {
        lemma_next_start(t, i + 1);
    }
}

/// Going back from before the next character start comes to the start `o` it followed.
proof fn lemma_prev_to_start(t: Seq<u8>, o: int, i: int)
    requires
        0 <= o <= i < t.len(),
        starts_char(t[o]),
        forall|j: int| o < j <= i ==> !starts_char(#[trigger] t[j]),
    ensures
        prev_start(t, i) == o,
    decreases i - o,
{
    if i > o {
        lemma_prev_to_start(t, o, i - 1);
    }
}

/// One character forward and then one back comes back to the same place: from the start
/// of a character of a text line, or from the end of a text line that has a next one.
pub proof fn lemma_forward_then_backward(b: Buffer, w: Window)
    requires
        b.wf(),
        b.has_line(w.dot_line.0),
        w.dot_offset.0 <= b.text_of(w.dot_line.0).len(),
        w.dot_offset.0 < b.text_of(w.dot_line.0).len() ==> starts_char(
            b.text_of(w.dot_line.0)[w.dot_offset.0 as int],
        ),
        char_step_forward(b, w) is Some,
    ensures
        char_step_backward(b, char_step_forward(b, w).unwrap()) matches Some(w3) && w3.dot_line
            == w.dot_line && w3.dot_offset == w.dot_offset,
{
    let l = w.dot_line.0;
    let o = w.dot_offset.0 as int;
    let t = b.text_of(l);
    let k = b.pos_of(l);
    assert(b.ids()[k] == l);
    b.lemma_pos_of(k);
    if o < t.len() {
        lemma_next_start(t, o + 1);
        let n = next_start(t, o + 1);
        lemma_prev_to_start(t, o, n - 1);
        assert(b.lines@[l as int].text.len() == t.len());
    } else {
        let nl = b.next_of(l).unwrap();
        assert(k + 1 < b.ids().len());
        assert(nl == b.ids()[k + 1]);
        b.lemma_pos_of(k + 1);
    }
}

} // verus!
