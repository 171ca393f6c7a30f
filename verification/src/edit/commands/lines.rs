use crate::buffer::Buffer;
use crate::edit::{with_dot, Command, Editor};
use crate::types::{CmdFlags, Error, LineId, Result, WindowFlags};
use vstd::prelude::*;

verus! {

/// The line reached from `l` by up to `n` steps to the next (or previous) line, stopping at
/// the last (or first) one.
pub open spec fn lines_from(b: Buffer, l: usize, n: nat, forward: bool) -> usize
    decreases n,
{
    if n == 0 {
        l
    } else {
        match (if forward {
            b.next_of(l)
        } else {
            b.prev_of(l)
        }) {
            Some(x) => lines_from(b, x, (n - 1) as nat, forward),
            None => l,
        }
    }
}

/// What moving `n` lines does: nothing but an error with no current window, or when there
/// is no line to move to; else the goal column is kept from the last line move (or taken
/// from the dot), and the dot goes to that column of the line reached, or its end.
pub open spec fn moved_by_lines(e0: &Editor, e1: &Editor, n: usize, forward: bool, r: Result<()>) -> bool {
    let b = e0.cur_buf();
    let w = e0.cur_win();
    let l = w.dot_line.0;
    let step = if forward {
        b.next_of(l)
    } else {
        b.prev_of(l)
    };
    if !e0.has_cur() || step is None {
        r is Err && *e1 == *e0
    } else {
        let goal = if e0.last_flag.0 & CmdFlags::line_move().0 != 0 {
            e0.cur_goal
        } else {
            w.dot_offset.0
        };
        let mid = Editor {
            cur_goal: goal,
            this_flag: CmdFlags(e0.this_flag.0 | CmdFlags::line_move().0),
            ..*e0
        };
        let target = lines_from(b, l, n as nat, forward);
        let len = b.text_of(target).len();
        &&& r is Ok
        &&& e1.only_cur_window_now(
            &mid,
            with_dot(w, LineId(target), if goal > len { len as usize } else { goal }, WindowFlags::moved()),
        )
    }
}

/// The line `n` steps away, as far as the buffer goes.
fn walk_lines(b: &Buffer, l: LineId, n: usize, forward: bool) -> (r: LineId)
    requires
        b.wf(),
    ensures
        r.0 == lines_from(*b, l.0, n as nat, forward),
{
    let mut cur = l;
    let mut k = n;
    while k > 0
        invariant
            b.wf(),
            lines_from(*b, l.0, n as nat, forward) == lines_from(*b, cur.0, k as nat, forward),
        decreases k,
    {
        let next = if forward {
            b.next_line(cur)
        } else {
            b.prev_line(cur)
        };
        match next {
            Some(x) => cur = x,
            None => return cur,
        }
        k -= 1;
    }
    cur
}

/// The shared body of the line motions.
fn move_lines(editor: &mut Editor, n: usize, forward: bool) -> (r: Result<()>)
    requires
        old(editor).wf(),
    ensures
        final(editor).wf(),
        moved_by_lines(&*old(editor), &*final(editor), n, forward, r),
{
    let w = editor.cur_checked()?;
    let b = match editor.buffers.get(w.buffer_id) {
        Some(b) => b,
        None => return Err(Error::Abort),
    };
    let step = if forward {
        b.next_line(w.dot_line)
    } else {
        b.prev_line(w.dot_line)
    };
    if step.is_none() {
        return Err(Error::Abort);
    }
    let target = walk_lines(b, w.dot_line, n, forward);
    proof {
        assert(w.dot_line.0 == 0 || b.has_line(w.dot_line.0));
        lemma_lines_from_in(*b, w.dot_line.0, n as nat, forward);
    }
    let len = match b.line_len(target) {
        Some(len) => len,
        None => return Err(Error::Abort),
    };
    if !editor.last_flag.intersects(CmdFlags::line_move()) {
        editor.cur_goal = w.dot_offset.0;
    }
    editor.this_flag = editor.this_flag.union(CmdFlags::line_move());
    let goal = editor.cur_goal;
    let off = if goal > len {
        len
    } else {
        goal
    };
    editor.set_cur_dot(target, off, WindowFlags::moved());
    Ok(())
}

/// Lines reached from the header or a text line are the header or text lines.
proof fn lemma_lines_from_in(b: Buffer, l: usize, n: nat, forward: bool)
    requires
        b.wf(),
        l == 0 || b.has_line(l),
    ensures
        lines_from(b, l, n, forward) < b.lines@.len(),
    decreases n,
{
    if n > 0 {
        let s = if forward {
            b.next_of(l)
        } else {
            b.prev_of(l)
        };
        if let Some(x) = s {
            let ids = b.ids();
            if l == 0 {
                if forward {
                    assert(ids.contains(ids[0]));
                } else {
                    assert(ids.contains(ids[ids.len() - 1]));
                }
            } else if forward {
                assert(ids.contains(ids[b.pos_of(l) + 1]));
            } else {
                assert(ids.contains(ids[b.pos_of(l) - 1]));
            }
            lemma_lines_from_in(b, x, (n - 1) as nat, forward);
        }
    }
}

/// Moves the dot down `n` lines, keeping the goal column; fails on the last line.
pub struct ForwardLine;

impl Command for ForwardLine {
    fn execute(&self, editor: &mut Editor, f: bool, n: usize) -> (r: Result<()>)
        ensures
            moved_by_lines(&*old(editor), &*final(editor), n, true, r),
    {
        move_lines(editor, n, true)
    }
}

/// Moves the dot up `n` lines, keeping the goal column; fails on the first line.
pub struct BackwardLine;

impl Command for BackwardLine {
    fn execute(&self, editor: &mut Editor, f: bool, n: usize) -> (r: Result<()>)
        ensures
            moved_by_lines(&*old(editor), &*final(editor), n, false, r),
    {
        move_lines(editor, n, false)
    }
}

} // verus!
