use crate::buffer::Buffer;
use crate::edit::{Command, Editor};
use crate::types::{Error, Mode, Result, WindowFlags};
use crate::window::Window;
use vstd::prelude::*;

verus! {

/// Cancels whatever was going on; changes nothing.
pub struct KeyboardQuit;

impl Command for KeyboardQuit {
    fn execute(&self, editor: &mut Editor, f: bool, n: usize) -> (r: Result<()>)
        ensures
            r is Ok,
            *final(editor) == *old(editor),
    {
        Ok(())
    }
}

/// Asks for the whole screen to be redrawn.
pub struct RefreshScreen;

impl Command for RefreshScreen {
    fn execute(&self, editor: &mut Editor, f: bool, n: usize) -> (r: Result<()>)
        ensures
            r is Ok,
            *final(editor) == (Editor { sgarbf_requested: true, ..*old(editor) }),
    {
        editor.sgarbf_requested = true;
        Ok(())
    }
}

/// Asks for the editor to be suspended.
pub struct SuspendEmacs;

impl Command for SuspendEmacs {
    fn execute(&self, editor: &mut Editor, f: bool, n: usize) -> (r: Result<()>)
        ensures
            r is Ok,
            *final(editor) == (Editor { suspend_requested: true, ..*old(editor) }),
    {
        editor.suspend_requested = true;
        Ok(())
    }
}

/// Does nothing.
pub struct Nop;

impl Command for Nop {
    fn execute(&self, editor: &mut Editor, f: bool, n: usize) -> (r: Result<()>)
        ensures
            r is Ok,
            *final(editor) == *old(editor),
    {
        Ok(())
    }
}

/// Sets the fill column to the argument.
pub struct SetFillColumn;

impl Command for SetFillColumn {
    fn execute(&self, editor: &mut Editor, f: bool, n: usize) -> (r: Result<()>)
        ensures
            r is Ok,
            *final(editor) == (Editor { fillcol: n, ..*old(editor) }),
    {
        editor.fillcol = n;
        Ok(())
    }
}

/// Turns regular-expression search on or off for the current buffer.
pub struct ToggleMagic;

impl Command for ToggleMagic {
    fn execute(&self, editor: &mut Editor, f: bool, n: usize) -> (r: Result<()>)
        ensures
            old(editor).has_cur() ==> r is Ok && final(editor).edited_now(
                &*old(editor),
                Window {
                    flags: WindowFlags(old(editor).cur_win().flags.0 | WindowFlags::hard().0),
                    ..old(editor).cur_win()
                },
                Buffer {
                    mode: Mode(old(editor).cur_buf().mode.0 ^ Mode::magic().0),
                    ..old(editor).cur_buf()
                },
            ),
            !old(editor).has_cur() ==> r is Err && *final(editor) == *old(editor),
    {
        editor.cur_checked()?;
        let ghost before = *editor;
        let (mut w, mut b) = editor.take_cur();
        b.mode = b.mode.toggle(Mode::magic());
        w.set_flag(WindowFlags::hard());
        editor.commit(w, b, Ghost(before));
        Ok(())
    }
}

} // verus!
