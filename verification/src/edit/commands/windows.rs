use crate::buffer::Buffer;
use crate::edit::commands::lines::lines_from;
use crate::edit::{Command, Editor};
use crate::types::{Error, LineId, LineOffset, Result, WindowFlags, WindowId};
use crate::window::Window;
use vstd::prelude::*;

verus! {

/// What switching to the next (or previous) window does: with one window nothing; else
/// the window after (or before) the current one, cyclically, becomes current and is marked
/// as moved.
pub open spec fn window_switched(e0: &Editor, e1: &Editor, forward: bool, r: Result<()>) -> bool {
    let s = e0.windows.seq();
    if e0.cur() is None {
        r is Err && *e1 == *e0
    } else if s.len() <= 1 {
        r is Ok && *e1 == *e0
    } else {
        let i = e0.windows.cur_index().unwrap();
        let j = if forward {
            (i + 1) % (s.len() as int)
        } else {
            (i + s.len() - 1) % (s.len() as int)
        };
        &&& r is Ok
        &&& *e1 == (Editor { windows: e1.windows, ..*e0 })
        &&& e1.windows.current_id() == Some(s[j].id)
        &&& e1.windows.seq() == s.update(
            j,
            Window { flags: WindowFlags(s[j].flags.0 | WindowFlags::moved().0), ..s[j] },
        )
        &&& e1.windows.next_id_spec() == e0.windows.next_id_spec()
    }
}

/// Makes the window after (or before) the current one current.
fn switch_window(editor: &mut Editor, forward: bool) -> (r: Result<()>)
    requires
        old(editor).wf(),
    ensures
        final(editor).wf(),
        window_switched(&*old(editor), &*final(editor), forward, r),
{
    let w = editor.cur_window()?;
    let len = editor.windows.len();
    if len <= 1 {
        return Ok(());
    }
    let pos = editor.windows.position_of(w.id);
    proof {
        crate::edit::commands::rewrite::lemma_mod_small(pos + 1, len as int);
        crate::edit::commands::rewrite::lemma_mod_small(pos + len - 1, len as int);
    }
    let j = if forward {
        if pos + 1 == len {
            0
        } else {
            pos + 1
        }
    } else {
        if pos == 0 {
            len - 1
        } else {
            pos - 1
        }
    };
    let target = editor.windows.as_slice()[j].id;
    let ghost e0 = *editor;
    editor.windows.set_current(target);
    proof {
        editor.windows.lemma_index_of(j as int);
        assert(editor.cur() == Some(e0.windows.seq()[j as int]));
    }
    let mut w2 = editor.cur_window()?;
    w2.set_flag(WindowFlags::moved());
    editor.set_cur_window(w2);
    proof {
        editor.windows.lemma_index_of(j as int);
    }
    Ok(())
}

/// Makes the next window current.
pub struct OtherWindow;

impl Command for OtherWindow {
    fn execute(&self, editor: &mut Editor, f: bool, n: usize) -> (r: Result<()>)
        ensures
            window_switched(&*old(editor), &*final(editor), true, r),
    {
        switch_window(editor, true)
    }
}

/// Makes the next window current.
pub struct NextWindow;

impl Command for NextWindow {
    fn execute(&self, editor: &mut Editor, f: bool, n: usize) -> (r: Result<()>)
        ensures
            window_switched(&*old(editor), &*final(editor), true, r),
    {
        switch_window(editor, true)
    }
}

/// Makes the previous window current.
pub struct PreviousWindow;

impl Command for PreviousWindow {
    fn execute(&self, editor: &mut Editor, f: bool, n: usize) -> (r: Result<()>)
        ensures
            window_switched(&*old(editor), &*final(editor), false, r),
    {
        switch_window(editor, false)
    }
}

} // verus!

verus! {

/// Whether line `dot` is among the `rows` lines shown from `top` (the header ends the
/// scan).
pub open spec fn shows(b: Buffer, top: usize, dot: usize, rows: nat) -> bool
    decreases rows,
{
    if rows == 0 {
        false
    } else if top == dot {
        true
    } else if top == 0 {
        false
    } else {
        shows(
            b,
            match b.next_of(top) {
                Some(x) => x,
                None => 0,
            },
            dot,
            (rows - 1) as nat,
        )
    }
}

/// What scrolling the current window by `n` lines (one when zero) does: its top line moves
/// up or down as far as the buffer goes, it is marked for a full redraw, and when the dot
/// is no longer shown it goes to the start of the middle line.
pub open spec fn window_scrolled(e0: &Editor, e1: &Editor, n: usize, up: bool, r: Result<()>) -> bool {
    let w = e0.cur_win();
    let b = e0.cur_buf();
    if !e0.has_cur() {
        r is Err && *e1 == *e0
    } else {
        let steps: nat = if n == 0 {
            1
        } else {
            n as nat
        };
        let top = lines_from(b, w.top_line.0, steps, !up);
        let visible = shows(b, top, w.dot_line.0, w.n_rows as nat);
        let w1 = Window {
            top_line: LineId(top),
            flags: WindowFlags(w.flags.0 | WindowFlags::hard().0),
            ..w
        };
        let w2 = if !visible && w.n_rows > 0 {
            Window {
                dot_line: LineId(lines_from(b, top, (w.n_rows / 2) as nat, true)),
                dot_offset: LineOffset(0),
                ..w1
            }
        } else {
            w1
        };
        r is Ok && e1.only_cur_window_now(e0, w2)
    }
}

/// Scrolls the current window `n` lines up or down.
pub fn move_window_impl(editor: &mut Editor, n: usize, up: bool) -> (r: Result<()>)
    requires
        old(editor).wf(),
    ensures
        final(editor).wf(),
        window_scrolled(&*old(editor), &*final(editor), n, up, r),
{
    let steps = if n == 0 {
        1
    } else {
        n
    };
    let w = editor.cur_checked()?;
    let b = match editor.buffers.get(w.buffer_id) {
        Some(b) => b,
        None => return Err(Error::Abort),
    };
    let mut lp = w.top_line;
    let mut k = steps;
    while k > 0
        invariant
            b.wf(),
            lines_from(*b, w.top_line.0, steps as nat, !up) == lines_from(*b, lp.0, k as nat, !up),
        ensures
            lines_from(*b, w.top_line.0, steps as nat, !up) == lp.0,
        decreases k,
    {
        let nx = if up {
            b.prev_line(lp)
        } else {
            b.next_line(lp)
        };
        match nx {
            Some(x) => lp = x,
            None => break,
        }
        k -= 1;
    }
    let top = lp;
    let mut scan = top;
    let mut visible = false;
    let mut i: usize = 0;
    while i < w.n_rows
        invariant_except_break
            !visible,
        invariant
            b.wf(),
            i <= w.n_rows,
            shows(*b, top.0, w.dot_line.0, w.n_rows as nat) == shows(*b, scan.0, w.dot_line.0, (w.n_rows - i) as nat),
        ensures
            visible == shows(*b, top.0, w.dot_line.0, w.n_rows as nat),
        decreases w.n_rows - i,
    {
        if scan.0 == w.dot_line.0 {
            visible = true;
            break;
        }
        if scan.0 == 0 {
            break;
        }
        scan = match b.next_line(scan) {
            Some(x) => x,
            None => LineId(0),
        };
        i += 1;
    }
    let mut w2 = Window { top_line: top, ..w };
    w2.set_flag(WindowFlags::hard());
    if !visible && w.n_rows > 0 {
        let mut center = top;
        let mut h = w.n_rows / 2;
        while h > 0
            invariant
                b.wf(),
                lines_from(*b, top.0, (w.n_rows / 2) as nat, true) == lines_from(*b, center.0, h as nat, true),
            ensures
                lines_from(*b, top.0, (w.n_rows / 2) as nat, true) == center.0,
            decreases h,
        {
            match b.next_line(center) {
                Some(x) => center = x,
                None => break,
            }
            h -= 1;
        }
        w2 = Window { dot_line: center, dot_offset: LineOffset(0), ..w2 };
    }
    editor.set_cur_window(w2);
    Ok(())
}

/// Scrolls the current window down `n` lines.
pub struct MoveWindowDown;

impl Command for MoveWindowDown {
    fn execute(&self, editor: &mut Editor, f: bool, n: usize) -> (r: Result<()>)
        ensures
            window_scrolled(&*old(editor), &*final(editor), n, false, r),
    {
        move_window_impl(editor, n, false)
    }
}

/// Scrolls the current window up `n` lines.
pub struct MoveWindowUp;

impl Command for MoveWindowUp {
    fn execute(&self, editor: &mut Editor, f: bool, n: usize) -> (r: Result<()>)
        ensures
            window_scrolled(&*old(editor), &*final(editor), n, true, r),
    {
        move_window_impl(editor, n, true)
    }
}

} // verus!

verus! {

/// How many lines a page move goes: the argument, or two thirds of the window (at least
/// one) without one.
pub open spec fn page_steps(w: Window, f: bool, n: usize) -> nat {
    if !f {
        if w.n_rows / 3 * 2 >= 1 {
            (w.n_rows / 3 * 2) as nat
        } else {
            1
        }
    } else {
        n as nat
    }
}

/// What paging does: the top line moves by the page size, as far as the buffer goes, and
/// the dot goes to its start.
pub open spec fn paged(e0: &Editor, e1: &Editor, f: bool, n: usize, forward: bool, r: Result<()>) -> bool {
    let w = e0.cur_win();
    let steps = page_steps(w, f, n);
    if e0.cur() is None || (steps > 0 && !e0.has_cur()) {
        r is Err && *e1 == *e0
    } else {
        let top = if steps > 0 {
            lines_from(e0.cur_buf(), w.top_line.0, steps, forward)
        } else {
            w.top_line.0
        };
        r is Ok && e1.only_cur_window_now(
            e0,
            Window {
                top_line: LineId(top),
                dot_line: LineId(top),
                dot_offset: LineOffset(0),
                flags: WindowFlags(w.flags.0 | WindowFlags::hard().0),
                ..w
            },
        ) && *e1 == (Editor { windows: e1.windows, ..*e0 })
    }
}

fn page(editor: &mut Editor, f: bool, n: usize, forward: bool) -> (r: Result<()>)
    requires
        old(editor).wf(),
    ensures
        final(editor).wf(),
        paged(&*old(editor), &*final(editor), f, n, forward, r),
{
    let w = editor.cur_window()?;
    let steps: usize = if !f {
        let p = w.n_rows / 3 * 2;
        if p >= 1 {
            p
        } else {
            1
        }
    } else {
        n
    };
    let mut top = w.top_line;
    if steps > 0 {
        let b = match editor.buffers.get(w.buffer_id) {
            Some(b) => b,
            None => return Err(Error::Abort),
        };
        let mut k = steps;
        while k > 0
            invariant
                b.wf(),
                lines_from(*b, w.top_line.0, steps as nat, forward) == lines_from(*b, top.0, k as nat, forward),
            ensures
                lines_from(*b, w.top_line.0, steps as nat, forward) == top.0,
            decreases k,
        {
            let nx = if forward {
                b.next_line(top)
            } else {
                b.prev_line(top)
            };
            match nx {
                Some(x) => top = x,
                None => break,
            }
            k -= 1;
        }
    }
    let mut w2 = Window { top_line: top, dot_line: top, dot_offset: LineOffset(0), ..w };
    w2.set_flag(WindowFlags::hard());
    editor.set_cur_window(w2);
    Ok(())
}

/// Moves the window and the dot a page down.
pub struct ForwardPage;

impl Command for ForwardPage {
    fn execute(&self, editor: &mut Editor, f: bool, n: usize) -> (r: Result<()>)
        ensures
            paged(&*old(editor), &*final(editor), f, n, true, r),
    {
        page(editor, f, n, true)
    }
}

/// Moves the window and the dot a page up.
pub struct BackwardPage;

impl Command for BackwardPage {
    fn execute(&self, editor: &mut Editor, f: bool, n: usize) -> (r: Result<()>)
        ensures
            paged(&*old(editor), &*final(editor), f, n, false, r),
    {
        page(editor, f, n, false)
    }
}

/// What growing (or shrinking) the current window by `n` rows (one when zero) does: the
/// rows come from (or go to) the window below it, or above it when it is the last; it
/// fails with one window or when a window would be left with no row.
pub open spec fn window_resized(e0: &Editor, e1: &Editor, n: usize, grow: bool, r: Result<()>) -> bool {
    let s = e0.windows.seq();
    if e0.cur() is None || s.len() <= 1 {
        r is Err && *e1 == *e0
    } else {
        let i = e0.windows.cur_index().unwrap();
        let a = if i + 1 < s.len() {
            i + 1
        } else {
            i - 1
        };
        let k: nat = if n == 0 {
            1
        } else {
            n as nat
        };
        let cw = s[i];
        let aw = s[a];
        let too_big = if grow {
            cw.n_rows + k > usize::MAX || (a > i && aw.top_row + k > usize::MAX)
        } else {
            aw.n_rows + k > usize::MAX || (a < i && cw.top_row + k > usize::MAX)
        };
        if (grow && aw.n_rows <= k) || (!grow && cw.n_rows <= k) || too_big {
            r is Err && *e1 == *e0
        } else {
            let aw2 = if grow {
                Window {
                    n_rows: (aw.n_rows - k) as usize,
                    top_row: if a > i {
                        (aw.top_row + k) as usize
                    } else {
                        aw.top_row
                    },
                    ..aw
                }
            } else {
                Window {
                    n_rows: (aw.n_rows + k) as usize,
                    top_row: if a > i {
                        (if aw.top_row >= k {
                            aw.top_row - k
                        } else {
                            0
                        }) as usize
                    } else {
                        aw.top_row
                    },
                    ..aw
                }
            };
            let cw2 = if grow {
                Window {
                    n_rows: (cw.n_rows + k) as usize,
                    top_row: if a < i {
                        (if cw.top_row >= k {
                            cw.top_row - k
                        } else {
                            0
                        }) as usize
                    } else {
                        cw.top_row
                    },
                    flags: WindowFlags(cw.flags.0 | WindowFlags::hard().0),
                    ..cw
                }
            } else {
                Window {
                    n_rows: (cw.n_rows - k) as usize,
                    top_row: if a < i {
                        (cw.top_row + k) as usize
                    } else {
                        cw.top_row
                    },
                    flags: WindowFlags(cw.flags.0 | WindowFlags::hard().0),
                    ..cw
                }
            };
            &&& r is Ok
            &&& *e1 == (Editor { windows: e1.windows, ..*e0 })
            &&& e1.windows.seq() == s.update(a, aw2).update(i, cw2)
            &&& e1.windows.current_id() == e0.windows.current_id()
            &&& e1.windows.next_id_spec() == e0.windows.next_id_spec()
        }
    }
}

fn resize(editor: &mut Editor, n: usize, grow: bool) -> (r: Result<()>)
    requires
        old(editor).wf(),
    ensures
        final(editor).wf(),
        window_resized(&*old(editor), &*final(editor), n, grow, r),
{
    let cw = editor.cur_window()?;
    let len = editor.windows.len();
    if len <= 1 {
        return Err(Error::Abort);
    }
    let i = editor.windows.position_of(cw.id);
    let a = if i + 1 < len {
        i + 1
    } else {
        i - 1
    };
    let k = if n == 0 {
        1
    } else {
        n
    };
    let aw = editor.windows.as_slice()[a];
    if grow && aw.n_rows <= k {
        return Err(Error::Abort);
    }
    if !grow && cw.n_rows <= k {
        return Err(Error::Abort);
    }
    if grow && (cw.n_rows > usize::MAX - k || (a > i && aw.top_row > usize::MAX - k)) {
        return Err(Error::Abort);
    }
    if !grow && (aw.n_rows > usize::MAX - k || (a < i && cw.top_row > usize::MAX - k)) {
        return Err(Error::Abort);
    }
    let aw2 = if grow {
        Window {
            n_rows: aw.n_rows - k,
            top_row: if a > i {
                aw.top_row + k
            } else {
                aw.top_row
            },
            ..aw
        }
    } else {
        Window {
            n_rows: aw.n_rows + k,
            top_row: if a > i {
                aw.top_row.saturating_sub(k)
            } else {
                aw.top_row
            },
            ..aw
        }
    };
    let mut cw2 = if grow {
        Window {
            n_rows: cw.n_rows + k,
            top_row: if a < i {
                cw.top_row.saturating_sub(k)
            } else {
                cw.top_row
            },
            ..cw
        }
    } else {
        Window {
            n_rows: cw.n_rows - k,
            top_row: if a < i {
                cw.top_row + k
            } else {
                cw.top_row
            },
            ..cw
        }
    };
    cw2.set_flag(WindowFlags::hard());
    proof {
        editor.windows.lemma_index_of(i as int);
    }
    editor.windows.set_at(a, aw2);
    editor.windows.set_at(i, cw2);
    Ok(())
}

/// Makes the current window `n` rows taller, taking them from its neighbour.
pub struct GrowWindow;

impl Command for GrowWindow {
    fn execute(&self, editor: &mut Editor, f: bool, n: usize) -> (r: Result<()>)
        ensures
            window_resized(&*old(editor), &*final(editor), n, true, r),
    {
        resize(editor, n, true)
    }
}

/// Makes the current window `n` rows shorter, giving them to its neighbour.
pub struct ShrinkWindow;

impl Command for ShrinkWindow {
    fn execute(&self, editor: &mut Editor, f: bool, n: usize) -> (r: Result<()>)
        ensures
            window_resized(&*old(editor), &*final(editor), n, false, r),
    {
        resize(editor, n, false)
    }
}

/// With an argument, makes the current window `n` rows tall by growing or shrinking it;
/// without one, does nothing.
pub struct ResizeWindow;

impl Command for ResizeWindow {
    fn execute(&self, editor: &mut Editor, f: bool, n: usize) -> (r: Result<()>)
        ensures
            !f ==> r is Ok && *final(editor) == *old(editor),
            f && old(editor).cur() is None ==> r is Err && *final(editor) == *old(editor),
            f && old(editor).cur() is Some && old(editor).cur_win().n_rows == n ==> r is Ok
                && *final(editor) == *old(editor),
            f && old(editor).cur() is Some && old(editor).cur_win().n_rows < n ==> window_resized(
                &*old(editor),
                &*final(editor),
                (n - old(editor).cur_win().n_rows) as usize,
                true,
                r,
            ),
            f && old(editor).cur() is Some && old(editor).cur_win().n_rows > n ==> window_resized(
                &*old(editor),
                &*final(editor),
                (old(editor).cur_win().n_rows - n) as usize,
                false,
                r,
            ),
    {
        if !f {
            return Ok(());
        }
        let cur = editor.cur_window()?.n_rows;
        if cur == n {
            return Ok(());
        }
        if n > cur {
            resize(editor, n - cur, true)
        } else {
            resize(editor, cur - n, false)
        }
    }
}

} // verus!

verus! {

/// `mid` is `e0` with window `j` made current.
pub open spec fn switched_to(mid: Editor, e0: Editor, j: int) -> bool {
    &&& mid == (Editor { windows: mid.windows, ..e0 })
    &&& mid.windows.seq() == e0.windows.seq()
    &&& mid.windows.current_id() == Some(e0.windows.seq()[j].id)
    &&& mid.windows.next_id_spec() == e0.windows.next_id_spec()
}

/// From `e0` with window `j` made current, a page move led to `e2`; when it worked the
/// old current window was made current again, giving `e1`.
pub open spec fn paged_other(e0: Editor, j: int, e1: Editor, f: bool, n: usize, forward: bool, r: Result<()>) -> bool {
    exists|mid: Editor, e2: Editor|
        #[trigger] switched_to(mid, e0, j) && mid.wf() && #[trigger] paged(&mid, &e2, f, n, forward, r)
            && (r is Ok ==> {
            &&& e1 == (Editor { windows: e1.windows, ..e2 })
            &&& e1.windows.seq() == e2.windows.seq()
            &&& e1.windows.current_id() == e0.windows.current_id()
            &&& e1.windows.next_id_spec() == e0.windows.next_id_spec()
        }) && (r is Err ==> e1 == e2)
}

/// What scrolling the next window does: with one window nothing; else the window after
/// the current one moves a page, and the current window stays current.
pub open spec fn next_paged(e0: &Editor, e1: &Editor, f: bool, n: usize, forward: bool, r: Result<()>) -> bool {
    let s = e0.windows.seq();
    if s.len() <= 1 {
        r is Ok && *e1 == *e0
    } else if e0.cur() is None {
        r is Err && *e1 == *e0
    } else {
        let i = e0.windows.cur_index().unwrap();
        paged_other(*e0, (i + 1) % (s.len() as int), *e1, f, n, forward, r)
    }
}

fn page_next(editor: &mut Editor, f: bool, n: usize, forward: bool) -> (r: Result<()>)
    requires
        old(editor).wf(),
    ensures
        final(editor).wf(),
        next_paged(&*old(editor), &*final(editor), f, n, forward, r),
{
    let len = editor.windows.len();
    if len <= 1 {
        return Ok(());
    }
    let cw = editor.cur_window()?;
    let pos = editor.windows.position_of(cw.id);
    proof {
        crate::edit::commands::rewrite::lemma_mod_small(pos + 1, len as int);
    }
    let j = if pos + 1 == len {
        0
    } else {
        pos + 1
    };
    let target = editor.windows.as_slice()[j].id;
    let ghost e0 = *editor;
    editor.windows.set_current(target);
    proof {
        editor.windows.lemma_index_of(j as int);
    }
    let ghost mid = *editor;
    let r = page(editor, f, n, forward);
    let ghost e2 = *editor;
    if r.is_err() {
        proof {
            assert(switched_to(mid, e0, j as int));
            assert(paged_other(e0, j as int, *editor, f, n, forward, r));
        }
        return r;
    }
    editor.windows.set_current(cw.id);
    proof {
        assert(switched_to(mid, e0, j as int));
        e0.windows.lemma_index_of(pos as int);
        assert(e2.windows.seq()[pos as int].id == cw.id);
        e2.windows.lemma_index_of(pos as int);
        assert(paged_other(e0, j as int, *editor, f, n, forward, r));
    }
    r
}

/// Scrolls the next window a page up.
pub struct ScrollNextUp;

impl Command for ScrollNextUp {
    fn execute(&self, editor: &mut Editor, f: bool, n: usize) -> (r: Result<()>)
        ensures
            next_paged(&*old(editor), &*final(editor), f, n, false, r),
    {
        page_next(editor, f, n, false)
    }
}

/// Scrolls the next window a page down.
pub struct ScrollNextDown;

impl Command for ScrollNextDown {
    fn execute(&self, editor: &mut Editor, f: bool, n: usize) -> (r: Result<()>)
        ensures
            next_paged(&*old(editor), &*final(editor), f, n, true, r),
    {
        page_next(editor, f, n, true)
    }
}

} // verus!

verus! {

/// The rows of the first `k` windows, each with its mode line (held at `usize::MAX`).
pub open spec fn rows_total(s: Seq<Window>, k: int) -> nat
    decreases k,
{
    if k <= 0 {
        0
    } else {
        crate::edit::commands::region::sat(rows_total(s, k - 1) + s[k - 1].n_rows + 1)
    }
}

/// What keeping only the current window does: it takes all the rows of the screen.
pub open spec fn one_windowed(e0: &Editor, e1: &Editor, r: Result<()>) -> bool {
    let s = e0.windows.seq();
    if e0.cur() is None {
        r is Err && *e1 == *e0
    } else {
        let cw = e0.cur_win();
        let total = rows_total(s, s.len() as int);
        let cw2 = if total > 0 {
            Window {
                n_rows: (total - 1) as usize,
                top_row: 0,
                flags: WindowFlags(cw.flags.0 | WindowFlags::hard().0),
                ..cw
            }
        } else {
            cw
        };
        &&& r is Ok
        &&& *e1 == (Editor { windows: e1.windows, ..*e0 })
        &&& e1.windows.seq() == seq![cw2]
        &&& e1.windows.current_id() == Some(cw.id)
        &&& e1.windows.next_id_spec() == e0.windows.next_id_spec()
    }
}

/// Closes every window but the current one, which takes the whole screen.
pub struct OneWindow;

impl Command for OneWindow {
    fn execute(&self, editor: &mut Editor, f: bool, n: usize) -> (r: Result<()>)
        ensures
            one_windowed(&*old(editor), &*final(editor), r),
    {
        let cw = editor.cur_window()?;
        let ws = editor.windows.as_slice();
        let mut total: usize = 0;
        let mut k: usize = 0;
        while k < ws.len()
            invariant
                k <= ws@.len(),
                total == rows_total(ws@, k as int),
            decreases ws@.len() - k,
        {
            total = total.saturating_add(ws[k].n_rows).saturating_add(1);
            k += 1;
        }
        let pos = editor.windows.position_of(cw.id);
        editor.windows.keep_only(pos);
        let ghost mid = *editor;
        if total > 0 {
            let cw2 = Window { n_rows: total - 1, top_row: 0, ..cw };
            let mut cw3 = cw2;
            cw3.set_flag(WindowFlags::hard());
            proof {
                mid.windows.lemma_index_of(0);
            }
            editor.set_cur_window(cw3);
            proof {
                assert(editor.windows.seq() =~= seq![cw3]);
            }
        }
        Ok(())
    }
}

/// The first window from position `k` on, other than `i`, that touches the current one:
/// starting right below it when it is at the top, else ending right above it.
pub open spec fn touching(s: Seq<Window>, i: int, k: int) -> Option<int>
    decreases s.len() - k,
{
    if k >= s.len() || k < 0 {
        None
    } else if k != i && (if s[i].top_row == 0 {
        s[k].top_row == s[i].n_rows + 1
    } else {
        s[k].top_row + s[k].n_rows == s[i].top_row - 1
    }) {
        Some(k)
    } else {
        touching(s, i, k + 1)
    }
}

/// A touching window is another window.
pub proof fn lemma_touching(s: Seq<Window>, i: int, k: int)
    ensures
        touching(s, i, k) matches Some(x) ==> x != i && 0 <= x < s.len(),
    decreases s.len() - k,
{
    if k < s.len() && k >= 0 {
        lemma_touching(s, i, k + 1);
    }
}

/// What closing the current window does: its rows (and mode line) go to the window that
/// touches it, or the window before it (after it, for the first) takes over without them;
/// that window becomes current and every mode line is redrawn.  Fails with one window.
pub open spec fn window_deleted(e0: &Editor, e1: &Editor, r: Result<()>) -> bool {
    let s = e0.windows.seq();
    if s.len() <= 1 || e0.cur() is None {
        r is Err && *e1 == *e0
    } else {
        let i = e0.windows.cur_index().unwrap();
        let cw = s[i];
        let nb = touching(s, i, 0);
        let recv = match nb {
            Some(k) => k,
            None => if i > 0 {
                i - 1
            } else {
                i + 1
            },
        };
        let rw = s[recv];
        if cw.n_rows + 1 + rw.n_rows > usize::MAX {
            r is Err && *e1 == *e0
        } else {
            let rw2 = Window {
                top_row: if nb is Some && cw.top_row == 0 {
                    0
                } else {
                    rw.top_row
                },
                n_rows: if nb is Some {
                    (rw.n_rows + cw.n_rows + 1) as usize
                } else {
                    rw.n_rows
                },
                flags: WindowFlags(rw.flags.0 | WindowFlags::hard().0),
                ..rw
            };
            let s2 = s.update(recv, rw2).remove(i);
            &&& r is Ok
            &&& *e1 == (Editor { windows: e1.windows, ..*e0 })
            &&& e1.windows.seq().len() == s2.len()
            &&& forall|k: int|
                0 <= k < s2.len() ==> #[trigger] e1.windows.seq()[k] == (Window {
                    flags: WindowFlags(s2[k].flags.0 | WindowFlags::mode_line().0),
                    ..s2[k]
                })
            &&& e1.windows.current_id() == Some(rw.id)
            &&& e1.windows.next_id_spec() == e0.windows.next_id_spec()
        }
    }
}

/// Closes the current window, giving its rows to a neighbour.
pub struct DeleteWindow;

impl Command for DeleteWindow {
    fn execute(&self, editor: &mut Editor, f: bool, n: usize) -> (r: Result<()>)
        ensures
            window_deleted(&*old(editor), &*final(editor), r),
    {
        let len = editor.windows.len();
        if len <= 1 {
            return Err(Error::Abort);
        }
        let cw = editor.cur_window()?;
        let i = editor.windows.position_of(cw.id);
        let ws = editor.windows.as_slice();
        let mut k: usize = 0;
        let mut nb: Option<usize> = None;
        while k < ws.len()
            invariant_except_break
                nb is None,
            invariant
                k <= ws@.len(),
                i < ws@.len(),
                ws@[i as int] == cw,
                touching(ws@, i as int, 0) == touching(ws@, i as int, k as int),
            ensures
                nb is None ==> touching(ws@, i as int, 0) == None::<int>,
                nb matches Some(x) ==> touching(ws@, i as int, 0) == Some(x as int),
            decreases ws@.len() - k,
        {
            let w = ws[k];
            let hit = k != i && (if cw.top_row == 0 {
                cw.n_rows < usize::MAX && w.top_row == cw.n_rows + 1
            } else {
                (w.top_row as u128) + (w.n_rows as u128) == (cw.top_row - 1) as u128
            });
            if hit {
                nb = Some(k);
                break;
            }
            k += 1;
        }
        proof {
            lemma_touching(ws@, i as int, 0);
        }
        let recv = match nb {
            Some(x) => x,
            None => if i > 0 {
                i - 1
            } else {
                i + 1
            },
        };
        let rw = ws[recv];
        if cw.n_rows >= usize::MAX - rw.n_rows {
            return Err(Error::Abort);
        }
        let rw2 = Window {
            top_row: if nb.is_some() && cw.top_row == 0 {
                0
            } else {
                rw.top_row
            },
            n_rows: if nb.is_some() {
                rw.n_rows + cw.n_rows + 1
            } else {
                rw.n_rows
            },
            ..rw
        };
        let mut rw3 = rw2;
        rw3.set_flag(WindowFlags::hard());
        let ghost s = editor.windows.seq();
        editor.windows.set_at(recv, rw3);
        proof {
            editor.windows.lemma_index_of(i as int);
        }
        editor.windows.remove(cw.id);
        proof {
            let s1 = s.update(recv as int, rw3);
            let s2 = s1.remove(i as int);
            let nr = if recv < i {
                recv as int
            } else {
                recv - 1
            };
            assert(s2[nr] == rw3);
            editor.windows.lemma_index_of(nr);
        }
        editor.windows.set_current(rw.id);
        editor.windows.flag_all(WindowFlags::mode_line());
        Ok(())
    }
}

} // verus!

verus! {

/// What splitting the current window does: it keeps the upper half of its rows and a new
/// window on the same buffer, place and dot takes the lower half, below the first.  Fails
/// on a window of fewer than three rows.
pub open spec fn window_split(e0: &Editor, e1: &Editor, r: Result<()>) -> bool {
    let s = e0.windows.seq();
    let cw = e0.cur_win();
    let id = e0.windows.next_id_spec();
    if e0.cur() is None || cw.n_rows < 3 || cw.top_row + (cw.n_rows - 1) / 2 + 1 > usize::MAX
        || id == usize::MAX {
        r is Err && *e1 == *e0
    } else {
        let upper = (cw.n_rows - 1) / 2;
        let lower = (cw.n_rows - 1) - upper;
        let cw2 = Window {
            n_rows: upper as usize,
            flags: WindowFlags(cw.flags.0 | WindowFlags::hard().0 | WindowFlags::mode_line().0),
            ..cw
        };
        let nw = Window {
            top_row: (cw.top_row + upper + 1) as usize,
            n_rows: lower as usize,
            dot_line: cw.dot_line,
            dot_offset: cw.dot_offset,
            flags: WindowFlags(0u32 | WindowFlags::hard().0 | WindowFlags::mode_line().0),
            ..crate::window::fresh_window(WindowId(id), cw.buffer_id, cw.top_line)
        };
        let i = e0.windows.cur_index().unwrap();
        &&& r is Ok
        &&& *e1 == (Editor { windows: e1.windows, ..*e0 })
        &&& e1.windows.seq() == s.update(i, cw2).push(nw)
        &&& e1.windows.current_id() == Some(cw.id)
        &&& e1.windows.next_id_spec() == id + 1
    }
}

/// Splitting leaves the split window in place with its buffer, top line and dot, on the
/// upper rows, and adds one new window, the last, on the rows below it: the new window
/// shows the same buffer from the same top line with the same dot (line and offset), and
/// the two windows with the mode line between them take exactly the rows of the first.
/// The upper window gets half of the rows left after the mode line, the lower one the
/// rest.  The split window stays current and the new one has an identifier of its own.
pub proof fn lemma_split_same_dot(e0: &Editor, e1: &Editor, r: Result<()>)
    requires
        e0.wf(),
        window_split(e0, e1, r),
        r is Ok,
    ensures
        e1.windows.seq().len() == e0.windows.seq().len() + 1,
        ({
            let cw = e0.cur_win();
            let i = e0.windows.cur_index().unwrap();
            let up = e1.windows.seq()[i];
            let nw = e1.windows.seq().last();
            &&& 0 <= i < e0.windows.seq().len()
            &&& up.id == cw.id
            &&& up.buffer_id == cw.buffer_id
            &&& up.top_line == cw.top_line
            &&& up.dot_line == cw.dot_line
            &&& up.dot_offset == cw.dot_offset
            &&& up.top_row == cw.top_row
            &&& nw.buffer_id == cw.buffer_id
            &&& nw.top_line == cw.top_line
            &&& nw.dot_line == cw.dot_line
            &&& nw.dot_offset == cw.dot_offset
            &&& nw.top_row == up.top_row + up.n_rows + 1
            &&& up.n_rows + 1 + nw.n_rows == cw.n_rows
            &&& up.n_rows > 0 && nw.n_rows > 0
            &&& up.n_rows <= nw.n_rows <= up.n_rows + 1
            &&& forall|j: int| 0 <= j < e0.windows.seq().len() ==> e0.windows.seq()[j].id != nw.id
            &&& e1.windows.current_id() == Some(cw.id)
        }),
{
    e0.windows.lemma_current_exists();
    crate::window::Windows::lemma_next_id_fresh(&e0.windows);
}

/// A window of at least three rows can be split, when the rows and identifiers do not run
/// out.
pub proof fn lemma_split_succeeds(e0: &Editor, e1: &Editor, r: Result<()>)
    requires
        window_split(e0, e1, r),
        e0.cur() is Some,
        e0.cur_win().n_rows >= 3,
        e0.cur_win().top_row + e0.cur_win().n_rows <= usize::MAX,
        e0.windows.next_id_spec() < usize::MAX,
    ensures
        r is Ok,
{
}

/// Splits the current window in two, one above the other.
pub struct SplitWindowDown;

impl Command for SplitWindowDown {
    fn execute(&self, editor: &mut Editor, f: bool, n: usize) -> (r: Result<()>)
        ensures
            window_split(&*old(editor), &*final(editor), r),
    {
        let cw = editor.cur_window()?;
        if cw.n_rows < 3 {
            return Err(Error::Abort);
        }
        let upper = (cw.n_rows - 1) / 2;
        let lower = (cw.n_rows - 1) - upper;
        if cw.top_row > usize::MAX - upper - 1 {
            return Err(Error::Abort);
        }
        if editor.windows.next_id() == usize::MAX {
            return Err(Error::Abort);
        }
        let new_top_row = cw.top_row + upper + 1;
        let mut cw2 = Window { n_rows: upper, ..cw };
        cw2.set_flag(WindowFlags::hard());
        cw2.set_flag(WindowFlags::mode_line());
        editor.set_cur_window(cw2);
        let ghost mid = *editor;
        let new_id = editor.create_window(cw.buffer_id, cw.top_line);
        let pos = editor.windows.len() - 1;
        let mut nw = editor.windows.as_slice()[pos];
        nw.top_row = new_top_row;
        nw.n_rows = lower;
        nw.dot_line = cw.dot_line;
        nw.dot_offset = cw.dot_offset;
        nw.set_flag(WindowFlags::hard());
        nw.set_flag(WindowFlags::mode_line());
        editor.windows.set_at(pos, nw);
        proof {
            let i = old(editor).windows.cur_index().unwrap();
            assert(editor.windows.seq() =~= old(editor).windows.seq().update(i, cw2).push(nw));
        }
        Ok(())
    }
}

} // verus!
