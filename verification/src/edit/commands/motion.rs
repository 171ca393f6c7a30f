use crate::buffer::Buffer;
use crate::edit::{with_dot, Command, Editor};
use crate::types::{Error, LineId, LineOffset, Result, WindowFlags};
use crate::window::Window;
use vstd::prelude::*;

verus! {

/// Moves the dot to the start of its line.
pub struct GotoBol;

impl Command for GotoBol {
    fn execute(&self, editor: &mut Editor, f: bool, n: usize) -> (r: Result<()>)
        ensures
            old(editor).cur() is Some ==> r is Ok && final(editor).only_cur_window_now(
                &*old(editor),
                Window { dot_offset: LineOffset(0), ..old(editor).cur_win() },
            ),
            old(editor).cur() is None ==> r is Err && *final(editor) == *old(editor),
    {
        let w = editor.cur_window()?;
        editor.set_cur_window(Window { dot_offset: LineOffset(0), ..w });
        Ok(())
    }
}

/// Moves the dot to the end of its line.
pub struct GotoEol;

impl Command for GotoEol {
    fn execute(&self, editor: &mut Editor, f: bool, n: usize) -> (r: Result<()>)
        ensures
            old(editor).has_cur() && old(editor).cur_win().dot_line.0 < old(
                editor,
            ).cur_buf().lines@.len() ==> r is Ok && final(editor).only_cur_window_now(
                &*old(editor),
                Window {
                    dot_offset: LineOffset(
                        old(editor).cur_buf().text_of(old(editor).cur_win().dot_line.0).len() as usize,
                    ),
                    ..old(editor).cur_win()
                },
            ),
            !(old(editor).has_cur() && old(editor).cur_win().dot_line.0 < old(
                editor,
            ).cur_buf().lines@.len()) ==> r is Err && *final(editor) == *old(editor),
    {
        let w = editor.cur_checked()?;
        let len = match editor.buffers.get(w.buffer_id) {
            Some(b) => match b.line_len(w.dot_line) {
                Some(l) => l,
                None => return Err(Error::Abort),
            },
            None => return Err(Error::Abort),
        };
        editor.set_cur_window(Window { dot_offset: LineOffset(len), ..w });
        Ok(())
    }
}

/// Sets the mark at the dot.
pub struct SetMark;

impl Command for SetMark {
    fn execute(&self, editor: &mut Editor, f: bool, n: usize) -> (r: Result<()>)
        ensures
            old(editor).cur() is Some ==> r is Ok && final(editor).only_cur_window_now(
                &*old(editor),
                Window {
                    mark_line: Some(old(editor).cur_win().dot_line),
                    mark_offset: old(editor).cur_win().dot_offset,
                    ..old(editor).cur_win()
                },
            ),
            old(editor).cur() is None ==> r is Err && *final(editor) == *old(editor),
    {
        let mut w = editor.cur_window()?;
        w.set_mark(w.dot_line, w.dot_offset);
        editor.set_cur_window(w);
        Ok(())
    }
}

/// Exchanges the dot and the mark; fails when no mark is set.
pub struct SwapMark;

impl Command for SwapMark {
    fn execute(&self, editor: &mut Editor, f: bool, n: usize) -> (r: Result<()>)
        ensures
            old(editor).cur() is Some && old(editor).cur_win().mark_line is Some ==> r is Ok
                && final(editor).only_cur_window_now(
                &*old(editor),
                Window {
                    dot_line: old(editor).cur_win().mark_line.unwrap(),
                    dot_offset: old(editor).cur_win().mark_offset,
                    mark_line: Some(old(editor).cur_win().dot_line),
                    mark_offset: old(editor).cur_win().dot_offset,
                    flags: WindowFlags(old(editor).cur_win().flags.0 | WindowFlags::moved().0),
                    ..old(editor).cur_win()
                },
            ),
            !(old(editor).cur() is Some && old(editor).cur_win().mark_line is Some) ==> r is Err
                && *final(editor) == *old(editor),
    {
        let w = editor.cur_window()?;
        let (mark_line, mark_offset) = match w.mark() {
            Some(m) => m,
            None => return Err(Error::Abort),
        };
        let mut nw = w;
        nw.set_dot(mark_line, mark_offset);
        nw.set_mark(w.dot_line, w.dot_offset);
        nw.set_flag(WindowFlags::moved());
        editor.set_cur_window(nw);
        Ok(())
    }
}

/// Moves the dot to the start of the first line; fails on an empty buffer.
pub struct GotoBob;

impl Command for GotoBob {
    fn execute(&self, editor: &mut Editor, f: bool, n: usize) -> (r: Result<()>)
        ensures
            old(editor).has_cur() && old(editor).cur_buf().ids().len() > 0 ==> r is Ok
                && final(editor).only_cur_window_now(
                &*old(editor),
                with_dot(
                    old(editor).cur_win(),
                    LineId(old(editor).cur_buf().ids()[0]),
                    0,
                    WindowFlags::moved(),
                ),
            ),
            !(old(editor).has_cur() && old(editor).cur_buf().ids().len() > 0) ==> r is Err
                && *final(editor) == *old(editor),
    {
        let w = editor.cur_checked()?;
        let first = match editor.buffers.get(w.buffer_id) {
            Some(b) => match b.nth_line(0) {
                Some(l) => l,
                None => return Err(Error::Abort),
            },
            None => return Err(Error::Abort),
        };
        editor.set_cur_dot(first, 0, WindowFlags::moved());
        Ok(())
    }
}

/// The last text line, or the header when there is none.
pub open spec fn last_line(b: Buffer) -> usize {
    if b.ids().len() == 0 {
        0
    } else {
        b.ids().last()
    }
}

/// Moves the dot to the end of the last line.
pub struct GotoEob;

impl Command for GotoEob {
    fn execute(&self, editor: &mut Editor, f: bool, n: usize) -> (r: Result<()>)
        ensures
            old(editor).has_cur() ==> r is Ok && final(editor).only_cur_window_now(
                &*old(editor),
                with_dot(
                    old(editor).cur_win(),
                    LineId(last_line(old(editor).cur_buf())),
                    old(editor).cur_buf().text_of(last_line(old(editor).cur_buf())).len() as usize,
                    WindowFlags::moved(),
                ),
            ),
            !old(editor).has_cur() ==> r is Err && *final(editor) == *old(editor),
    {
        let w = editor.cur_checked()?;
        let (last, len) = match editor.buffers.get(w.buffer_id) {
            Some(b) => {
                proof {
                    assert(b.wf());
                }
                let count = b.line_count();
                let last = if count == 0 {
                    LineId(0)
                } else {
                    match b.nth_line(count - 1) {
                        Some(l) => l,
                        None => return Err(Error::Abort),
                    }
                };
                proof {
                    if count > 0 {
                        assert(b.ids()[count - 1] < b.lines@.len());
                    }
                }
                let len = match b.line_len(last) {
                    Some(l) => l,
                    None => return Err(Error::Abort),
                };
                (last, len)
            },
            None => return Err(Error::Abort),
        };
        editor.set_cur_dot(last, len, WindowFlags::moved());
        Ok(())
    }
}

/// Moves the dot to the start of line `n` (counting from one); without an argument, or
/// with zero, to the end of the buffer.  Fails past the last line.
pub struct GotoLine;

impl Command for GotoLine {
    fn execute(&self, editor: &mut Editor, f: bool, n: usize) -> (r: Result<()>)
        ensures
            f && n > 0 ==> {
                &&& old(editor).has_cur() && n <= old(editor).cur_buf().ids().len() ==> r is Ok
                    && final(editor).only_cur_window_now(
                    &*old(editor),
                    with_dot(
                        old(editor).cur_win(),
                        LineId(old(editor).cur_buf().ids()[n - 1]),
                        0,
                        WindowFlags::moved(),
                    ),
                )
                &&& !(old(editor).has_cur() && n <= old(editor).cur_buf().ids().len()) ==> r is Err
                    && *final(editor) == *old(editor)
            },
            !(f && n > 0) ==> {
                &&& old(editor).has_cur() ==> r is Ok && final(editor).only_cur_window_now(
                    &*old(editor),
                    with_dot(
                        old(editor).cur_win(),
                        LineId(last_line(old(editor).cur_buf())),
                        old(editor).cur_buf().text_of(last_line(old(editor).cur_buf())).len() as usize,
                        WindowFlags::moved(),
                    ),
                )
                &&& !old(editor).has_cur() ==> r is Err && *final(editor) == *old(editor)
            },
    {
        if !f || n == 0 {
            return GotoEob.execute(editor, f, n);
        }
        let w = editor.cur_checked()?;
        let target = match editor.buffers.get(w.buffer_id) {
            Some(b) => match b.nth_line(n - 1) {
                Some(l) => l,
                None => return Err(Error::Abort),
            },
            None => return Err(Error::Abort),
        };
        editor.set_cur_dot(target, 0, WindowFlags::moved());
        Ok(())
    }
}

} // verus!
