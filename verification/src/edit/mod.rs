use crate::buffer::Buffer;
use crate::buffers::Buffers;
use crate::lock::LockManager;
use crate::types::{
    BufferId, CmdFlags, Error, LineId, LineOffset, Mode, Result, UndoAction, UndoEntry,
    WindowFlags, WindowId,
};
use crate::window::{Window, Windows};
use vstd::prelude::*;

pub mod commands;
pub mod helpers;
pub mod minibuffer;

verus! {

/// The whole editing state: buffers, windows, the kill buffer, search state and settings.
pub struct Editor {
    pub buffers: Buffers,
    pub windows: Windows,
    pub this_flag: CmdFlags,
    pub last_flag: CmdFlags,
    pub cur_goal: usize,
    pub kill_buffer: Vec<u8>,
    pub search_pattern: Vec<u8>,
    pub replace_pattern: Vec<u8>,
    pub last_match: Vec<u8>,
    pub sgarbf_requested: bool,
    pub suspend_requested: bool,
    pub quit_requested: bool,
    pub undo_stack: Vec<UndoEntry>,
    pub recording_macro: bool,
    pub tab_width: usize,
    pub tabsize: usize,
    pub scroll_amount: usize,
    pub fillcol: usize,
    pub gmode: Mode,
    pub saved_window: Option<WindowId>,
    pub gacount: usize,
    pub gasave: usize,
    pub lock_manager: LockManager,
    pub macro_store_buffer: Option<BufferId>,
    pub screen_rows: usize,
    pub screen_cols: usize,
    pub autosave_due: bool,
}

/// A command bound to a key: it acts on the editor with the key's numeric argument.
pub trait Command {
    fn execute(&self, editor: &mut Editor, f: bool, n: usize) -> (r: Result<()>)
        requires
            old(editor).wf(),
        ensures
            final(editor).wf(),
    ;
}

/// `w` with its dot moved to (`line`, `off`) and the bits of `flag` added.
pub open spec fn with_dot(w: Window, line: LineId, off: usize, flag: WindowFlags) -> Window {
    Window {
        dot_line: line,
        dot_offset: LineOffset(off),
        flags: WindowFlags(w.flags.0 | flag.0),
        ..w
    }
}

impl Editor {
    /// There is a current window and the buffer it shows exists.
    pub open spec fn has_cur(&self) -> bool {
        &&& self.cur() is Some
        &&& self.cur().unwrap().buffer_id.0 < self.buffers.seq().len()
    }

    /// The current window (meaningful when `has_cur`).
    pub open spec fn cur_win(&self) -> Window {
        self.cur().unwrap()
    }

    /// The buffer of the current window (meaningful when `has_cur`).
    pub open spec fn cur_buf(&self) -> Buffer {
        self.buffers.seq()[self.cur_win().buffer_id.0 as int]
    }

    /// Apart from the undo history, only the current window and its buffer changed, to `w`
    /// and `b`.
    pub open spec fn changed_cur(&self, other: &Editor, w: Window, b: Buffer) -> bool {
        &&& self.same_settings(other)
        &&& self.windows_with_cur(other, w)
        &&& self.buffers.seq() == other.buffers.seq().update(other.cur_win().buffer_id.0 as int, b)
        &&& self.kill_buffer@ == other.kill_buffer@
    }

    /// Only the current window and its buffer changed, to `w` and `b`.
    pub open spec fn edited_now(&self, other: &Editor, w: Window, b: Buffer) -> bool {
        &&& self.changed_cur(other, w, b)
        &&& self.undo_stack@ == other.undo_stack@
    }

    /// The undo history is that of `other` with `k` entries added.
    pub open spec fn undo_grown(&self, other: &Editor, k: nat) -> bool {
        &&& self.undo_stack@.len() == other.undo_stack@.len() + k
        &&& self.undo_stack@.take(other.undo_stack@.len() as int) == other.undo_stack@
    }

    /// Buffers and windows are well formed.
    pub open spec fn wf(&self) -> bool {
        &&& self.buffers.wf()
        &&& self.windows.wf()
    }

    /// The current window, if any.
    pub open spec fn cur(&self) -> Option<Window> {
        match self.windows.cur_index() {
            Some(i) => Some(self.windows.seq()[i]),
            None => None,
        }
    }

    /// The buffer shown in window `w`, if it exists.
    pub open spec fn buffer_of(&self, w: Window) -> Option<Buffer> {
        if w.buffer_id.0 < self.buffers.seq().len() {
            Some(self.buffers.seq()[w.buffer_id.0 as int])
        } else {
            None
        }
    }

    /// Everything but the buffers, windows, undo history and kill buffer is as in `other`.
    pub open spec fn same_settings(&self, other: &Editor) -> bool {
        &&& self.this_flag == other.this_flag
        &&& self.last_flag == other.last_flag
        &&& self.cur_goal == other.cur_goal
        &&& self.search_pattern@ == other.search_pattern@
        &&& self.replace_pattern@ == other.replace_pattern@
        &&& self.last_match@ == other.last_match@
        &&& self.sgarbf_requested == other.sgarbf_requested
        &&& self.suspend_requested == other.suspend_requested
        &&& self.quit_requested == other.quit_requested
        &&& self.recording_macro == other.recording_macro
        &&& self.tab_width == other.tab_width
        &&& self.tabsize == other.tabsize
        &&& self.scroll_amount == other.scroll_amount
        &&& self.fillcol == other.fillcol
        &&& self.gmode == other.gmode
        &&& self.saved_window == other.saved_window
        &&& self.gacount == other.gacount
        &&& self.gasave == other.gasave
        &&& self.macro_store_buffer == other.macro_store_buffer
        &&& self.screen_rows == other.screen_rows
        &&& self.screen_cols == other.screen_cols
        &&& self.autosave_due == other.autosave_due
    }

    /// The windows are those of `other` with the current one replaced by `w`.
    pub open spec fn windows_with_cur(&self, other: &Editor, w: Window) -> bool {
        &&& other.windows.cur_index() matches Some(i) && self.windows.seq()
            == other.windows.seq().update(i, w) && w.id == other.windows.seq()[i].id
        &&& self.windows.current_id() == other.windows.current_id()
        &&& self.windows.next_id_spec() == other.windows.next_id_spec()
    }

    /// Only the current window changed, to `w`.
    pub open spec fn only_cur_window_now(&self, other: &Editor, w: Window) -> bool {
        &&& self.same_settings(other)
        &&& self.windows_with_cur(other, w)
        &&& self.buffers == other.buffers
        &&& self.undo_stack@ == other.undo_stack@
        &&& self.kill_buffer@ == other.kill_buffer@
    }

    /// Two changes of the current window in a row are one change.
    pub proof fn lemma_cur_chain(e0: &Editor, e1: &Editor, e2: &Editor, w1: Window, w2: Window)
        requires
            e0.wf(),
            e1.wf(),
            e1.only_cur_window_now(e0, w1),
            e2.only_cur_window_now(e1, w2),
        ensures
            e2.only_cur_window_now(e0, w2),
            e1.cur() == Some(w1),
    {
        let i = e0.windows.cur_index().unwrap();
        e1.windows.lemma_index_of(i);
        assert(e1.windows.seq()[i] == w1);
        assert(e1.windows.cur_index() == Some(i));
        assert(e2.windows.seq() =~= e0.windows.seq().update(i, w2));
    }

    /// After a change of the current window to `w`, `w` is current.
    pub proof fn lemma_cur_after(e0: &Editor, e1: &Editor, w: Window)
        requires
            e1.wf(),
            e1.only_cur_window_now(e0, w),
        ensures
            e1.cur() == Some(w),
            e1.has_cur() == (w.buffer_id.0 < e0.buffers.seq().len()),
            e1.buffers == e0.buffers,
    {
        let i = e0.windows.cur_index().unwrap();
        e1.windows.lemma_index_of(i);
    }

    /// Changing nothing is a change of the current window to itself.
    pub proof fn lemma_cur_refl(e: &Editor)
        requires
            e.wf(),
            e.cur() is Some,
        ensures
            e.only_cur_window_now(e, e.cur_win()),
    {
        let i = e.windows.cur_index().unwrap();
        assert(e.windows.seq() =~= e.windows.seq().update(i, e.cur_win()));
    }

    /// A fresh editor with no buffers and no windows.
    pub fn new() -> (e: Self)
        ensures
            e.wf(),
            e.buffers.seq().len() == 0,
            e.windows.seq().len() == 0,
            e.cur() is None,
            e.kill_buffer@.len() == 0,
            e.undo_stack@.len() == 0,
            e.tab_width == 8,
            e.tabsize == 0,
            e.fillcol == 72,
    {
        Editor {
            buffers: Buffers::new(),
            windows: Windows::new(),
            this_flag: CmdFlags(0),
            last_flag: CmdFlags(0),
            cur_goal: 0,
            kill_buffer: Vec::new(),
            search_pattern: Vec::new(),
            replace_pattern: Vec::new(),
            last_match: Vec::new(),
            sgarbf_requested: false,
            suspend_requested: false,
            quit_requested: false,
            undo_stack: Vec::new(),
            recording_macro: false,
            tab_width: 8,
            tabsize: 0,
            scroll_amount: 0,
            fillcol: 72,
            gmode: Mode(0),
            saved_window: None,
            gacount: 256,
            gasave: 256,
            lock_manager: LockManager::new(),
            macro_store_buffer: None,
            screen_rows: 24,
            screen_cols: 80,
            autosave_due: false,
        }
    }

    /// Adds an empty buffer and returns its identifier.
    pub fn create_buffer(&mut self, name: &str) -> (id: BufferId)
        requires
            old(self).wf(),
        ensures
            final(self).wf(),
            id.0 == old(self).buffers.seq().len(),
            final(self).buffers.seq().len() == old(self).buffers.seq().len() + 1,
            final(self).buffers.seq().drop_last() == old(self).buffers.seq(),
            final(self).buffers.seq().last().name@ == name@,
            final(self).buffers.seq().last().ids() == Seq::<usize>::empty(),
            final(self).windows == old(self).windows,
    {
        self.buffers.create(name)
    }

    /// Adds a window on `buffer_id` showing `top_line`; it becomes current when there was none.
    pub fn create_window(&mut self, buffer_id: BufferId, top_line: LineId) -> (id: WindowId)
        requires
            old(self).wf(),
            old(self).windows.next_id_spec() < usize::MAX,
        ensures
            final(self).wf(),
            id.0 == old(self).windows.next_id_spec(),
            final(self).windows.seq() == old(self).windows.seq().push(
                crate::window::fresh_window(id, buffer_id, top_line),
            ),
            final(self).buffers == old(self).buffers,
            *final(self) == (Editor { windows: final(self).windows, ..*old(self) }),
            final(self).windows.next_id_spec() == old(self).windows.next_id_spec() + 1,
            old(self).windows.current_id() is None ==> final(self).windows.current_id() == Some(id),
            old(self).windows.current_id() is Some
                ==> final(self).windows.current_id() == old(self).windows.current_id(),
    {
        self.windows.create(buffer_id, top_line).id
    }

    pub fn current_window(&self) -> (r: Option<&Window>)
        requires
            self.wf(),
        ensures
            match self.cur() {
                Some(w) => r == Some(&w),
                None => r is None,
            },
    {
        self.windows.current()
    }

    pub fn current_window_mut(&mut self) -> (r: Option<&mut Window>)
        requires
            old(self).wf(),
        ensures
            match old(self).windows.cur_index() {
                Some(i) => {
                    &&& r is Some
                    &&& *r->0 == old(self).windows.seq()[i]
                    &&& final(self).windows.seq() == old(self).windows.seq().update(i, *final(r->0))
                    &&& final(self).windows.current_id() == old(self).windows.current_id()
                    &&& final(self).windows.next_id_spec() == old(self).windows.next_id_spec()
                },
                None => r is None && final(self).windows.seq() == old(self).windows.seq(),
            },
            final(self).buffers == old(self).buffers,
    {
        self.windows.current_mut()
    }

    /// The current window; fails when there is none.
    pub fn cur_window(&self) -> (r: Result<Window>)
        requires
            self.wf(),
        ensures
            match self.cur() {
                Some(w) => r == Ok::<Window, Error>(w),
                None => r == Err::<Window, Error>(Error::Abort),
            },
    {
        match self.windows.current() {
            Some(w) => Ok(*w),
            None => Err(Error::Abort),
        }
    }

    /// Replaces the current window by `w` (which keeps its identifier).
    pub fn set_cur_window(&mut self, w: Window)
        requires
            old(self).wf(),
            old(self).cur() matches Some(c) && c.id == w.id,
        ensures
            final(self).wf(),
            final(self).only_cur_window_now(&*old(self), w),
            final(self).cur() == Some(w),
            *final(self) == (Editor { windows: final(self).windows, ..*old(self) }),
    {
        let ghost i = self.windows.cur_index().unwrap();
        let idx = match self.windows.current() {
            Some(c) => c.id,
            None => return,
        };
        let pos = self.windows.position_of(idx);
        self.windows.set_at(pos, w);
        proof {
            self.windows.lemma_index_of(pos as int);
        }
    }

    /// The current window, provided the buffer it shows exists.
    pub fn cur_checked(&self) -> (r: Result<Window>)
        requires
            self.wf(),
        ensures
            self.has_cur() ==> r == Ok::<Window, Error>(self.cur_win()),
            !self.has_cur() ==> r == Err::<Window, Error>(Error::Abort),
    {
        let w = self.cur_window()?;
        if w.buffer_id.0 < self.buffers.len() {
            Ok(w)
        } else {
            Err(Error::Abort)
        }
    }

    /// Moves the dot of the current window and adds `flag` to its flags.
    pub fn set_cur_dot(&mut self, line: LineId, off: usize, flag: WindowFlags)
        requires
            old(self).wf(),
            old(self).cur() is Some,
        ensures
            final(self).wf(),
            final(self).only_cur_window_now(&*old(self), with_dot(old(self).cur_win(), line, off, flag)),
            final(self).cur() == Some(with_dot(old(self).cur_win(), line, off, flag)),
    {
        let w = match self.windows.current() {
            Some(w) => *w,
            None => return,
        };
        let nw = Window {
            dot_line: line,
            dot_offset: LineOffset(off),
            flags: w.flags.union(flag),
            ..w
        };
        self.set_cur_window(nw);
    }

    /// Takes the buffer of the current window out of the editor, with the window.
    pub fn take_cur(&mut self) -> (r: (Window, Buffer))
        requires
            old(self).wf(),
            old(self).has_cur(),
        ensures
            final(self).wf(),
            r.0 == old(self).cur_win(),
            r.1 == old(self).cur_buf(),
            r.1.wf(),
            r.1.id == r.0.buffer_id,
            *final(self) == (Editor { buffers: final(self).buffers, ..*old(self) }),
            final(self).buffers.seq() == old(self).buffers.seq().update(
                r.0.buffer_id.0 as int,
                final(self).buffers.seq()[r.0.buffer_id.0 as int],
            ),
    {
        let w = match self.windows.current() {
            Some(w) => *w,
            None => return (Window::new(crate::types::WindowId(0), BufferId(0), LineId(0)), Buffer::new(BufferId(0), "")),
        };
        let b = self.buffers.take(w.buffer_id);
        assert(self.buffers.seq() =~= old(self).buffers.seq().update(
            w.buffer_id.0 as int,
            self.buffers.seq()[w.buffer_id.0 as int],
        ));
        (w, b)
    }

    /// Puts back the buffer taken by `take_cur` as `b`, and the window as `w`: compared with
    /// `before`, the editor state before the taking, only those two changed.
    pub fn commit(&mut self, w: Window, b: Buffer, Ghost(before): Ghost<Editor>)
        requires
            before.wf(),
            before.has_cur(),
            old(self).wf(),
            *old(self) == (Editor {
                buffers: old(self).buffers,
                undo_stack: old(self).undo_stack,
                ..before
            }),
            old(self).buffers.seq() == before.buffers.seq().update(
                before.cur_win().buffer_id.0 as int,
                old(self).buffers.seq()[before.cur_win().buffer_id.0 as int],
            ),
            w.id == before.cur_win().id,
            b.wf(),
            b.id == before.cur_win().buffer_id,
        ensures
            final(self).wf(),
            final(self).changed_cur(&before, w, b),
            final(self).undo_stack@ == old(self).undo_stack@,
            final(self).cur() == Some(w),
    {
        let obid = match self.windows.current() {
            Some(c) => c.buffer_id,
            None => return,
        };
        self.buffers.put(obid, b);
        self.set_cur_window(w);
        assert(self.buffers.seq() =~= before.buffers.seq().update(obid.0 as int, b));
    }

    /// Empties the kill buffer.
    pub fn kdelete(&mut self)
        ensures
            final(self).kill_buffer@.len() == 0,
            *final(self) == (Editor { kill_buffer: final(self).kill_buffer, ..*old(self) }),
    {
        self.kill_buffer = Vec::new();
    }

    /// Starts a new command: what the last one did becomes `last_flag`.
    pub fn swap_flags(&mut self)
        ensures
            final(self).last_flag == old(self).this_flag,
            final(self).this_flag == CmdFlags(0),
            final(self).buffers == old(self).buffers,
            final(self).windows == old(self).windows,
    {
        self.last_flag = self.this_flag;
        self.this_flag = CmdFlags(0);
    }

    /// Sets a numeric editor variable by name; unknown names change nothing.
    pub fn set_var(&mut self, name: &str, value: usize)
        ensures
            name@ == "fillcol"@ ==> final(self).fillcol == value,
            name@ == "tab_width"@ && value > 0 ==> final(self).tab_width == value,
            name@ != "fillcol"@ ==> final(self).fillcol == old(self).fillcol,
            name@ != "tab_width"@ || value == 0 ==> final(self).tab_width == old(self).tab_width,
            final(self).buffers == old(self).buffers,
            final(self).windows == old(self).windows,
    {
        proof {
            reveal_strlit("fillcol");
            reveal_strlit("tab_width");
            assert("fillcol"@.len() == 7);
            assert("tab_width"@.len() == 9);
            assert("fillcol"@ != "tab_width"@);
        }
        let n = String::from_str(name);
        if n == String::from_str("fillcol") {
            self.fillcol = value;
        } else if n == String::from_str("tab_width") {
            if value > 0 {
                self.tab_width = value;
            }
        }
    }

    /// Records the changes of one command, with the current cursor to come back to.
    pub fn push_undo(&mut self, actions: Vec<UndoAction>)
        requires
            old(self).wf(),
        ensures
            final(self).wf(),
            final(self).undo_stack@.len() == old(self).undo_stack@.len() + 1,
            final(self).undo_stack@.drop_last() == old(self).undo_stack@,
            final(self).undo_stack@.last() == (match old(self).cur() {
                Some(w) => UndoEntry {
                    buffer_id: w.buffer_id,
                    dot_line: w.dot_line,
                    dot_offset: w.dot_offset,
                    actions,
                },
                None => UndoEntry {
                    buffer_id: BufferId(0),
                    dot_line: LineId(0),
                    dot_offset: LineOffset(0),
                    actions,
                },
            }),
            *final(self) == (Editor { undo_stack: final(self).undo_stack, ..*old(self) }),
    {
        let (buffer_id, dot_line, dot_offset) = match self.windows.current() {
            Some(w) => (w.buffer_id, w.dot_line, w.dot_offset),
            None => (BufferId(0), LineId(0), LineOffset(0)),
        };
        self.undo_stack.push(UndoEntry { buffer_id, dot_line, dot_offset, actions });
        assert(self.undo_stack@.drop_last() =~= old(self).undo_stack@);
    }
}

} // verus!
