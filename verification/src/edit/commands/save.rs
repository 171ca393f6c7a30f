use crate::edit::Editor;
use crate::search::{buffer_bytes, buffer_text};
use crate::types::{BufferFlags, BufferId, Error, Result, WindowFlags};
use crate::window::Window;
use vstd::prelude::*;

verus! {

/// What saving the current buffer needs done outside: nothing, or `text` written to the
/// file `filename`, after which `SaveFile::saved` is told of `buffer`.
pub enum SavePlan {
    Unchanged,
    Write { buffer: BufferId, filename: String, text: Vec<u8> },
}

/// Writes the current buffer to its file, when it changed.
pub struct SaveFile;

/// What `SaveFile::plan` answers: an error without a current window or its buffer; nothing
/// to do when the buffer has not changed; an error when it has no file name; else its
/// text (each line ended by a newline) to be written to its file.
pub open spec fn save_planned(e: &Editor, r: Result<SavePlan>) -> bool {
    match e.cur() {
        None => r is Err,
        Some(w) => if w.buffer_id.0 >= e.buffers.seq().len() {
            r is Err
        } else {
            let b = e.buffers.seq()[w.buffer_id.0 as int];
            if b.flags.0 & BufferFlags::changed().0 == 0 {
                r matches Ok(SavePlan::Unchanged)
            } else if b.filename@.len() == 0 {
                r is Err
            } else {
                r matches Ok(SavePlan::Write { buffer, filename, text }) && buffer == w.buffer_id
                    && filename@ == b.filename@ && text@ == buffer_bytes(&b)
            }
        },
    }
}

impl SaveFile {
    /// Decides what saving the current buffer needs: see `save_planned`.
    pub fn plan(&self, editor: &Editor) -> (r: Result<SavePlan>)
        requires
            editor.wf(),
        ensures
            save_planned(editor, r),
    {
        let w = editor.cur_window()?;
        let b = match editor.buffers.get(w.buffer_id) {
            Some(b) => b,
            None => return Err(Error::Abort),
        };
        if !b.flags.intersects(BufferFlags::changed()) {
            return Ok(SavePlan::Unchanged);
        }
        if b.filename.as_str().unicode_len() == 0 {
            return Err(Error::Abort);
        }
        let text = buffer_text(b);
        Ok(SavePlan::Write { buffer: w.buffer_id, filename: b.filename.clone(), text })
    }

    /// After the text of `buffer` was written to its file: the buffer is marked unchanged and
    /// every window that shows it is marked for a redraw of its mode line.
    pub fn saved(&self, editor: &mut Editor, buffer: BufferId)
        requires
            old(editor).wf(),
        ensures
            final(editor).wf(),
            buffer.0 < old(editor).buffers.seq().len() ==> final(editor).buffers.seq()
                == old(editor).buffers.seq().update(
                buffer.0 as int,
                crate::buffer::Buffer {
                    flags: BufferFlags(
                        old(editor).buffers.seq()[buffer.0 as int].flags.0 & !BufferFlags::changed().0,
                    ),
                    ..old(editor).buffers.seq()[buffer.0 as int]
                },
            ),
            buffer.0 >= old(editor).buffers.seq().len() ==> final(editor).buffers == old(
                editor,
            ).buffers,
            final(editor).windows.seq().len() == old(editor).windows.seq().len(),
            forall|k: int|
                0 <= k < old(editor).windows.seq().len() ==> #[trigger] final(editor).windows.seq()[k]
                    == (if old(editor).windows.seq()[k].buffer_id == buffer {
                    Window {
                        flags: WindowFlags(old(editor).windows.seq()[k].flags.0 | WindowFlags::mode_line().0),
                        ..old(editor).windows.seq()[k]
                    }
                } else {
                    old(editor).windows.seq()[k]
                }),
            final(editor).windows.current_id() == old(editor).windows.current_id(),
            final(editor).windows.next_id_spec() == old(editor).windows.next_id_spec(),
            *final(editor) == (Editor {
                buffers: final(editor).buffers,
                windows: final(editor).windows,
                ..*old(editor)
            }),
    {
        if buffer.0 < editor.buffers.len() {
            let mut b = editor.buffers.take(buffer);
            b.flags = b.flags.without(BufferFlags::changed());
            editor.buffers.put(buffer, b);
        }
        editor.windows.flag_showing(buffer, WindowFlags::mode_line());
    }
}

} // verus!
