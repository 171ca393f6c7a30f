use crate::buffer::{Buffer, TextModel};
use crate::edit::commands::chars::{char_step_backward, moved_by_chars, prev_start, BackwardChar, ForwardChar};
use crate::edit::commands::delete::{forward_deleted, same_meta, ForwardDelete};
use crate::edit::commands::chars_edit::{insert_at_dot, inserted_at_dot};
use crate::edit::commands::motion::GotoEol;
use crate::edit::helpers::column_of;
use crate::kbd::encode_char;
use vstd::utf8::encode_scalar;
use crate::edit::commands::newline::{newline_inserted, InsertNewline};
use crate::edit::commands::newline::{indent_bytes, lead_col, sat_add, tabs};
use crate::edit::helpers::blank;
use crate::edit::{Command, Editor};
use crate::line::spliced_in;
use crate::types::{BufferFlags, BufferId, Error, LineId, LineOffset, Mode, Result, UndoAction, WindowFlags};
use crate::window::Window;
use vstd::prelude::*;

verus! {

/// Scanning `t` backward from offset `o` for the `{` that closes `depth` levels: whether
/// it is found, and otherwise the depth left (each `}` passed opens one more level).
pub open spec fn brace_in_line(t: Seq<u8>, o: int, depth: nat) -> (bool, nat)
    decreases o,
{
    if o <= 0 || o > t.len() {
        (false, depth)
    } else if t[o - 1] == 123 {
        if depth <= 1 {
            (true, 0)
        } else {
            brace_in_line(t, o - 1, (depth - 1) as nat)
        }
    } else if t[o - 1] == 125 {
        brace_in_line(t, o - 1, sat_add(depth, 1))
    } else {
        brace_in_line(t, o - 1, depth)
    }
}

/// The scan going on through the text lines at positions `pos`, `pos - 1`, ... down to
/// the first, each from its end: the indentation column of the line where the `{` is
/// found.
pub open spec fn brace_lines(m: TextModel, pos: int, depth: nat) -> Option<nat>
    decreases pos + 1,
{
    if pos < 0 || pos >= m.ids.len() {
        None
    } else {
        let t = m.arena[m.ids[pos] as int];
        let (found, d) = brace_in_line(t, t.len() as int, depth);
        if found {
            Some(lead_col(t, 0, t.len() as int, 0))
        } else {
            brace_lines(m, pos - 1, d)
        }
    }
}

/// The position of the text line before line `l` (the last one before the header, none
/// before the first or for a line that is not a text line).
pub open spec fn pos_before(m: TextModel, l: usize) -> int {
    if l == 0 {
        m.ids.len() - 1
    } else if m.ids.contains(l) {
        m.ids.index_of(l) - 1
    } else {
        -1
    }
}

/// The indentation column of the line holding the `{` that a `}` typed at offset `o` of
/// line `l` closes: the text before the dot is scanned backward, then the lines before,
/// nesting counted.
pub open spec fn open_brace_col(m: TextModel, l: usize, o: usize) -> Option<nat> {
    let t = m.arena[l as int];
    let (found, d) = brace_in_line(t, o as int, 1);
    if found {
        Some(lead_col(t, 0, t.len() as int, 0))
    } else {
        brace_lines(m, pos_before(m, l), d)
    }
}

/// The indentation column of a line (tab stops every 8).
fn lead_col_of(t: &Vec<u8>) -> (col: usize)
    ensures
        col == lead_col(t@, 0, t@.len() as int, 0),
{
    let mut col: usize = 0;
    let mut i: usize = 0;
    while i < t.len()
        invariant
            i <= t@.len(),
            lead_col(t@, 0, t@.len() as int, 0) == lead_col(t@, i as int, t@.len() as int, col as nat),
        ensures
            lead_col(t@, 0, t@.len() as int, 0) == col,
        decreases t@.len() - i,
    {
        if t[i] == 32 {
            col = col.saturating_add(1);
        } else if t[i] == 9 {
            col = (col - col % 8).saturating_add(8);
        } else {
            break;
        }
        i += 1;
    }
    col
}

/// Scans `t` backward from `o`; see `brace_in_line`.
fn scan_line(t: &Vec<u8>, o: usize, depth: usize) -> (r: (bool, usize))
    requires
        o <= t@.len(),
    ensures
        (r.0, r.1 as nat) == brace_in_line(t@, o as int, depth as nat),
{
    let mut i: usize = o;
    let mut d: usize = depth;
    while i > 0
        invariant
            i <= o <= t@.len(),
            brace_in_line(t@, o as int, depth as nat) == brace_in_line(t@, i as int, d as nat),
        decreases i,
    {
        let c = t[i - 1];
        if c == 123 {
            if d <= 1 {
                return (true, 0);
            }
            d = d - 1;
        } else if c == 125 {
            d = d.saturating_add(1);
        }
        i -= 1;
    }
    (false, d)
}

/// The indentation column of the line holding the `{` that a `}` typed at (`line`,
/// `offset`) of buffer `buf_id` closes; see `open_brace_col`.  Fails when the buffer or
/// the line is missing or the offset is past the line's end.
pub fn cmode_find_open_brace_col(editor: &Editor, buf_id: BufferId, line: LineId, offset: usize) -> (r: Result<Option<usize>>)
    requires
        editor.wf(),
    ensures
        match r {
            Ok(c) => buf_id.0 < editor.buffers.seq().len() && line.0 < editor.buffers.seq()[buf_id.0 as int].lines@.len()
                && offset <= editor.buffers.seq()[buf_id.0 as int].text_of(line.0).len() && match c {
                Some(c) => open_brace_col(editor.buffers.seq()[buf_id.0 as int].model(), line.0, offset) == Some(
                    c as nat,
                ),
                None => open_brace_col(editor.buffers.seq()[buf_id.0 as int].model(), line.0, offset) is None,
            },
            Err(_) => !(buf_id.0 < editor.buffers.seq().len() && line.0 < editor.buffers.seq()[buf_id.0 as int].lines@.len()
                && offset <= editor.buffers.seq()[buf_id.0 as int].text_of(line.0).len()),
        },
{
    let b = match editor.buffers.get(buf_id) {
        Some(b) => b,
        None => return Err(Error::Abort),
    };
    if line.0 >= b.lines.len() || offset > b.lines[line.0].text.len() {
        return Err(Error::Abort);
    }
    let ghost m = b.model();
    let (found, d0) = scan_line(&b.lines[line.0].text, offset, 1);
    if found {
        return Ok(Some(lead_col_of(&b.lines[line.0].text)));
    }
    let mut depth = d0;
    let mut cur = match b.prev_line(line) {
        Some(p) => p,
        None => LineId(0),
    };
    let ghost mut pos: int = pos_before(m, line.0);
    proof {
        if line.0 != 0 && m.ids.contains(line.0) {
            let k = m.ids.index_of(line.0);
            assert(m.ids[k] == line.0);
        }
    }
    while cur.0 != 0
        invariant
            b.wf(),
            buf_id.0 < editor.buffers.seq().len(),
            *b == editor.buffers.seq()[buf_id.0 as int],
            line.0 < b.lines@.len(),
            offset <= b.text_of(line.0).len(),
            m == b.model(),
            -1 <= pos < m.ids.len(),
            cur.0 == (if pos >= 0 {
                m.ids[pos]
            } else {
                0
            }),
            open_brace_col(m, line.0, offset) == brace_lines(m, pos, depth as nat),
        decreases pos + 1,
    {
        proof {
            assert(m.ids[pos] != 0) by {
                b.lemma_pos_of(pos);
            }
        }
        let t = &b.lines[cur.0].text;
        assert(pos >= 0);
        assert(t@ == m.arena[m.ids[pos] as int]);
        let (f, d) = scan_line(t, t.len(), depth);
        if f {
            return Ok(Some(lead_col_of(t)));
        }
        depth = d;
        let nx = match b.prev_line(cur) {
            Some(p) => p,
            None => LineId(0),
        };
        proof {
            b.lemma_pos_of(pos);
            pos = pos - 1;
        }
        cur = nx;
    }
    proof {
        if pos >= 0 {
            b.lemma_pos_of(pos);
        }
    }
    Ok(None)
}

/// Two changes of the current window and its buffer in a row are one change.
pub(crate) proof fn lemma_changed_chain(e0: &Editor, e1: &Editor, e2: &Editor, w1: Window, b1: Buffer, w2: Window, b2: Buffer)
    requires
        e0.wf(),
        e1.wf(),
        e0.has_cur(),
        e1.changed_cur(e0, w1, b1),
        w1.buffer_id == e0.cur_win().buffer_id,
        e2.changed_cur(e1, w2, b2),
    ensures
        e2.changed_cur(e0, w2, b2),
        e1.cur() == Some(w1),
        e1.has_cur(),
        e1.cur_buf() == b1,
{
    let i = e0.windows.cur_index().unwrap();
    e1.windows.lemma_index_of(i);
    assert(e1.windows.seq()[i] == w1);
    assert(e1.windows.cur_index() == Some(i));
    assert(e2.windows.seq() =~= e0.windows.seq().update(i, w2));
    assert(e2.buffers.seq() =~= e0.buffers.seq().update(w1.buffer_id.0 as int, b2));
}

/// After a change of the current window and its buffer, there is still a current window.
proof fn lemma_changed_has_cur(e0: &Editor, e1: &Editor)
    requires
        e0.wf(),
        e1.wf(),
        e0.has_cur(),
        exists|w: Window, b: Buffer| #[trigger] e1.changed_cur(e0, w, b),
    ensures
        e1.cur() is Some,
{
    let (w, b) = choose|w: Window, b: Buffer| #[trigger] e1.changed_cur(e0, w, b);
    let i = e0.windows.cur_index().unwrap();
    e1.windows.lemma_index_of(i);
}

/// Two growths of the undo history in a row are one.
pub(crate) proof fn lemma_undo_chain(e0: &Editor, e1: &Editor, e2: &Editor, k1: nat, k2: nat)
    requires
        e1.undo_grown(e0, k1),
        e2.undo_grown(e1, k2),
    ensures
        e2.undo_grown(e0, k1 + k2),
{
    assert(e2.undo_stack@.take(e0.undo_stack@.len() as int) =~= e2.undo_stack@.take(
        e1.undo_stack@.len() as int,
    ).take(e0.undo_stack@.len() as int));
}

/// A change of the current window alone is a change of the window and of its buffer to
/// itself.
pub(crate) proof fn lemma_window_only_changed(e0: &Editor, e1: &Editor, w: Window)
    requires
        e0.wf(),
        e1.wf(),
        e0.has_cur(),
        e1.only_cur_window_now(e0, w),
    ensures
        e1.changed_cur(e0, w, e0.cur_buf()),
        e1.undo_grown(e0, 0),
{
    assert(e1.buffers.seq() =~= e0.buffers.seq().update(e0.cur_win().buffer_id.0 as int, e0.cur_buf()));
    assert(e1.undo_stack@.take(e0.undo_stack@.len() as int) =~= e0.undo_stack@);
}

/// The number of spaces and tabs `t` starts with.
pub open spec fn lead_blanks(t: Seq<u8>) -> nat
    decreases t.len(),
{
    if t.len() > 0 && blank(t[0]) {
        1 + lead_blanks(t.drop_first())
    } else {
        0
    }
}

/// What putting `ind` in place of the blanks the dot's line starts with does, the dot
/// going to the start of the line first: each blank is deleted forward (as `forward-delete`
/// does, the window marked edited), then each byte of `ind` is put in at the dot, which
/// moves past it, each change recorded for undo.  Fails when the window's buffer or line is
/// missing, the dot then being at the start of the line.
pub open spec fn lead_replaced(e0: &Editor, e1: &Editor, ind: Seq<u8>, r: Result<()>) -> bool {
    let w = e0.cur_win();
    let wz = Window { dot_offset: LineOffset(0), ..w };
    let b = e0.cur_buf();
    let l = w.dot_line.0;
    let t = b.text_of(l);
    let k = lead_blanks(t);
    if e0.cur() is None {
        r is Err && *e1 == *e0
    } else if !e0.has_cur() || l >= b.lines@.len() {
        r is Err && e1.only_cur_window_now(e0, wz)
    } else {
        &&& r is Ok
        &&& e1.changed_cur(
            e0,
            Window {
                dot_offset: LineOffset(ind.len() as usize),
                flags: if k > 0 {
                    WindowFlags(w.flags.0 | WindowFlags::edited().0)
                } else {
                    w.flags
                },
                ..w
            },
            e1.cur_buf(),
        )
        &&& e1.cur_buf().model() == (TextModel {
            ids: b.ids(),
            arena: b.model().arena.update(l as int, ind + t.skip(k as int)),
        })
        &&& same_meta(e1.cur_buf(), b)
        &&& e1.cur_buf().flags == (if k > 0 || ind.len() > 0 {
            BufferFlags(b.flags.0 | BufferFlags::changed().0)
        } else {
            b.flags
        })
        &&& e1.undo_grown(e0, k + ind.len())
    }
}

proof fn lemma_or_idem(a: u32, b: u32)
    ensures
        (a | b) | b == a | b,
        a | 0 == a,
{
    assert((a | b) | b == a | b) by (bit_vector);
    assert(a | 0 == a) by (bit_vector);
}

/// Puts `ind` in place of the blanks the dot's line starts with; see `lead_replaced`.
fn replace_lead(editor: &mut Editor, ind: &Vec<u8>) -> (r: Result<()>)
    requires
        old(editor).wf(),
        ind@.len() < usize::MAX,
    ensures
        final(editor).wf(),
        lead_replaced(&*old(editor), &*final(editor), ind@, r),
{
    let ghost e0 = *editor;
    let w = editor.cur_window()?;
    editor.set_cur_window(Window { dot_offset: LineOffset(0), ..w });
    let ghost ez = *editor;
    let (ok, tl) = match editor.buffers.get(w.buffer_id) {
        Some(b) => if w.dot_line.0 < b.lines.len() {
            (true, b.lines[w.dot_line.0].text.len())
        } else {
            (false, 0)
        },
        None => (false, 0),
    };
    if !ok {
        return Err(Error::Abort);
    }
    let ghost b0 = e0.cur_buf();
    let ghost l = w.dot_line.0;
    let ghost t = b0.text_of(l);
    let ghost k = lead_blanks(t);
    proof {
        Editor::lemma_cur_after(&e0, &ez, Window { dot_offset: LineOffset(0), ..w });
        lemma_window_only_changed(&e0, &ez, Window { dot_offset: LineOffset(0), ..w });
        assert(t.skip(0) =~= t);
        assert(b0.model().arena.update(l as int, t.skip(0)) =~= b0.model().arena);
        lemma_or_idem(w.flags.0, WindowFlags::edited().0);
        lemma_or_idem(b0.flags.0, BufferFlags::changed().0);
    }
    let mut j: usize = 0;
    loop
        invariant
            editor.wf(),
            e0.wf(),
            e0.has_cur(),
            e0.cur_win() == w,
            b0 == e0.cur_buf(),
            l == w.dot_line.0,
            l < b0.lines@.len(),
            t == b0.text_of(l),
            k == lead_blanks(t),
            j <= k,
            j <= t.len(),
            tl == t.len(),
            lead_blanks(t) == j + lead_blanks(t.skip(j as int)),
            editor.has_cur(),
            editor.cur() == Some(Window {
                dot_offset: LineOffset(0),
                flags: if j > 0 {
                    WindowFlags(w.flags.0 | WindowFlags::edited().0)
                } else {
                    w.flags
                },
                ..w
            }),
            editor.changed_cur(
                &e0,
                Window {
                    dot_offset: LineOffset(0),
                    flags: if j > 0 {
                        WindowFlags(w.flags.0 | WindowFlags::edited().0)
                    } else {
                        w.flags
                    },
                    ..w
                },
                editor.cur_buf(),
            ),
            editor.cur_buf().model() == (TextModel {
                ids: b0.ids(),
                arena: b0.model().arena.update(l as int, t.skip(j as int)),
            }),
            same_meta(editor.cur_buf(), b0),
            editor.cur_buf().flags == (if j > 0 {
                BufferFlags(b0.flags.0 | BufferFlags::changed().0)
            } else {
                b0.flags
            }),
            editor.undo_grown(&e0, j as nat),
        ensures
            j == k,
            editor.wf(),
            editor.has_cur(),
            editor.cur() == Some(Window {
                dot_offset: LineOffset(0),
                flags: if k > 0 {
                    WindowFlags(w.flags.0 | WindowFlags::edited().0)
                } else {
                    w.flags
                },
                ..w
            }),
            editor.changed_cur(
                &e0,
                Window {
                    dot_offset: LineOffset(0),
                    flags: if k > 0 {
                        WindowFlags(w.flags.0 | WindowFlags::edited().0)
                    } else {
                        w.flags
                    },
                    ..w
                },
                editor.cur_buf(),
            ),
            editor.cur_buf().model() == (TextModel {
                ids: b0.ids(),
                arena: b0.model().arena.update(l as int, t.skip(k as int)),
            }),
            same_meta(editor.cur_buf(), b0),
            editor.cur_buf().flags == (if k > 0 {
                BufferFlags(b0.flags.0 | BufferFlags::changed().0)
            } else {
                b0.flags
            }),
            editor.undo_grown(&e0, k),
        decreases t.len() - j,
    {
        let bl = match editor.buffers.get(w.buffer_id) {
            Some(b) => match b.line(w.dot_line) {
                Some(line) => line.text.len() > 0 && (line.text[0] == 32 || line.text[0] == 9),
                None => false,
            },
            None => false,
        };
        let ghost ts = t.skip(j as int);
        proof {
            assert(editor.cur_buf().text_of(l) == ts) by {
                assert(editor.cur_buf().model().arena[l as int] == ts);
            }
            if ts.len() > 0 && blank(ts[0]) {
                assert(ts.drop_first() =~= t.skip(j + 1));
            }
        }
        if !bl {
            break;
        }
        let ghost e1 = *editor;
        let ghost w1 = e1.cur_win();
        let _ = ForwardDelete.execute(editor, false, 1);
        proof {
            let m1 = e1.cur_buf().model();
            lemma_or_idem(w.flags.0, WindowFlags::edited().0);
            lemma_or_idem(b0.flags.0, BufferFlags::changed().0);
            reveal_with_fuel(crate::edit::commands::delete::fdel_steps, 2);
            assert(ts[0] < 0x80);
            assert(crate::edit::commands::delete::char_width(ts[0]) == 1);
            assert(crate::line::cut_out(ts, 0, 1) =~= t.skip(j + 1));
            let wn = Window {
                dot_offset: LineOffset(0),
                flags: WindowFlags(w.flags.0 | WindowFlags::edited().0),
                ..w
            };
            assert(WindowFlags(w1.flags.0 | WindowFlags::edited().0) == wn.flags);
            assert(m1.arena.update(l as int, t.skip(j + 1)) =~= b0.model().arena.update(l as int, t.skip(j + 1)));
            lemma_changed_chain(&e0, &e1, &*editor, w1, e1.cur_buf(), wn, editor.cur_buf());
            lemma_undo_chain(&e0, &e1, &*editor, j as nat, 1);
            Editor::lemma_cur_refl(&e0);
        }
        j += 1;
    }
    let mut i: usize = 0;
    while i < ind.len()
        invariant
            editor.wf(),
            e0.wf(),
            e0.has_cur(),
            e0.cur_win() == w,
            b0 == e0.cur_buf(),
            l == w.dot_line.0,
            l < b0.lines@.len(),
            t == b0.text_of(l),
            k == lead_blanks(t),
            k <= t.len(),
            i <= ind@.len(),
            ind@.len() < usize::MAX,
            editor.has_cur(),
            editor.cur() == Some(Window {
                dot_offset: LineOffset(i),
                flags: if k > 0 {
                    WindowFlags(w.flags.0 | WindowFlags::edited().0)
                } else {
                    w.flags
                },
                ..w
            }),
            editor.changed_cur(
                &e0,
                Window {
                    dot_offset: LineOffset(i),
                    flags: if k > 0 {
                        WindowFlags(w.flags.0 | WindowFlags::edited().0)
                    } else {
                        w.flags
                    },
                    ..w
                },
                editor.cur_buf(),
            ),
            editor.cur_buf().model() == (TextModel {
                ids: b0.ids(),
                arena: b0.model().arena.update(l as int, ind@.take(i as int) + t.skip(k as int)),
            }),
            same_meta(editor.cur_buf(), b0),
            editor.cur_buf().flags == (if k > 0 || i > 0 {
                BufferFlags(b0.flags.0 | BufferFlags::changed().0)
            } else {
                b0.flags
            }),
            editor.undo_grown(&e0, (k + i) as nat),
        decreases ind@.len() - i,
    {
        let byte = ind[i];
        let mut one: Vec<u8> = Vec::new();
        one.push(byte);
        let mut actions: Vec<UndoAction> = Vec::new();
        actions.push(UndoAction::Insert { line: w.dot_line, offset: i, data: one.clone() });
        let ghost e1 = *editor;
        let ghost w1 = e1.cur_win();
        let ghost bb = e1.cur_buf();
        editor.push_undo(actions);
        let ghost eu = *editor;
        proof {
            assert(eu.undo_stack@.take(e1.undo_stack@.len() as int) =~= e1.undo_stack@);
            Editor::lemma_cur_refl(&eu);
        }
        let (wc, mut b) = editor.take_cur();
        let ghost bt = b;
        proof {
            assert(eu.cur_buf() == bb);
            assert(bt == bb);
            assert(bt.model().arena.len() == b0.model().arena.len());
            assert(bt.lines@.len() == b0.lines@.len());
            assert(bt.text_of(l) == bt.model().arena[l as int]);
            assert(bt.text_of(l) == ind@.take(i as int) + t.skip(k as int));
        }
        let _ = b.insert_bytes_at(wc.dot_line, i, one.as_slice());
        let ghost bi = b;
        b.flags = b.flags.union(BufferFlags::changed());
        let nw = Window { dot_offset: LineOffset(i + 1), ..wc };
        editor.commit(nw, b, Ghost(eu));
        proof {
            let nt = ind@.take(i + 1) + t.skip(k as int);
            assert(spliced_in(ind@.take(i as int) + t.skip(k as int), i as int, one@) =~= nt);
            assert(b.model().arena =~= b0.model().arena.update(l as int, nt)) by {
                assert forall|q: int| 0 <= q < b.lines@.len() implies #[trigger] b.model().arena[q]
                    == b0.model().arena.update(l as int, nt)[q] by {
                    assert(b.model().arena[q] == b.text_of(q as usize));
                    assert(b.text_of(q as usize) == bi.text_of(q as usize));
                    if q != l {
                        assert(bi.text_of(q as usize) == bt.text_of(q as usize));
                        assert(bt.model().arena[q] == bt.text_of(q as usize));
                        assert(bt.model().arena[q] == b0.model().arena.update(l as int, ind@.take(i as int) + t.skip(k as int))[q]);
                    } else {
                        assert(bi.text_of(l) == nt);
                    }
                }
            }
            assert(b.ids() == bt.ids());
            lemma_or_idem(b0.flags.0, BufferFlags::changed().0);
            lemma_changed_chain(&e0, &eu, &*editor, w1, bb, nw, b);
            lemma_undo_chain(&e0, &e1, &eu, (k + i) as nat, 1);
        }
        i += 1;
    }
    proof {
        assert(ind@.take(ind@.len() as int) =~= ind@);
    }
    Ok(())
}

/// All bytes of `t` before offset `o` are blanks.
pub open spec fn blanks_before(t: Seq<u8>, o: int) -> bool {
    forall|i: int| 0 <= i < o ==> blank(#[trigger] t[i])
}

/// What typing `ch` at offset `offset` of line `line` of buffer `buf_id` does first in C
/// mode: a `}` with only blanks before it re-indents the dot's line to the indentation of
/// the line of the `{` it closes (when there is one); a `#` after blanks only takes the
/// blanks away.  Outside C mode, and for other characters, nothing.  Fails when the
/// buffer is missing or, in C mode for those characters, the line is missing or the offset
/// is past its end.
pub open spec fn reindented(
    e0: &Editor,
    e1: &Editor,
    buf_id: BufferId,
    line: LineId,
    offset: usize,
    ch: char,
    r: Result<()>,
) -> bool {
    let bs = e0.buffers.seq();
    let b = bs[buf_id.0 as int];
    let t = b.text_of(line.0);
    if buf_id.0 >= bs.len() {
        r is Err && *e1 == *e0
    } else if b.mode.0 & Mode::c_mode().0 == 0 || (ch != '}' && ch != '#') {
        r is Ok && *e1 == *e0
    } else if line.0 >= b.lines@.len() || offset > t.len() {
        r is Err && *e1 == *e0
    } else if ch == '}' {
        if !blanks_before(t, offset as int) {
            r is Ok && *e1 == *e0
        } else {
            match open_brace_col(b.model(), line.0, offset) {
                Some(col) => lead_replaced(e0, e1, indent_bytes(col), r),
                None => r is Ok && *e1 == *e0,
            }
        }
    } else if offset > 0 && blanks_before(t, offset as int) {
        lead_replaced(e0, e1, Seq::empty(), r)
    } else {
        r is Ok && *e1 == *e0
    }
}

/// The indentation for column `col`: tabs, then spaces.
fn indent_of(col: usize) -> (ind: Vec<u8>)
    ensures
        ind@ == indent_bytes(col as nat),
{
    let mut ind: Vec<u8> = Vec::new();
    let mut j: usize = 0;
    while j < col / 8
        invariant
            j <= col / 8,
            ind@ == tabs(j as nat),
        decreases col / 8 - j,
    {
        ind.push(9);
        j += 1;
        assert(ind@ =~= tabs(j as nat));
    }
    let mut k: usize = 0;
    while k < col % 8
        invariant
            k <= col % 8,
            ind@ == tabs((col / 8) as nat) + crate::edit::commands::rewrite::spaces(k as nat),
        decreases col % 8 - k,
    {
        ind.push(32);
        k += 1;
        assert(ind@ =~= tabs((col / 8) as nat) + crate::edit::commands::rewrite::spaces(k as nat));
    }
    ind
}

/// Re-indents the dot's line to column `col`; see `lead_replaced`.
fn cmode_set_indent(editor: &mut Editor, col: usize) -> (r: Result<()>)
    requires
        old(editor).wf(),
    ensures
        final(editor).wf(),
        lead_replaced(&*old(editor), &*final(editor), indent_bytes(col as nat), r),
{
    let ind = indent_of(col);
    replace_lead(editor, &ind)
}

/// Whether the bytes of `t` before `o` are all blanks.
fn all_blank_before(t: &Vec<u8>, o: usize) -> (r: bool)
    requires
        o <= t@.len(),
    ensures
        r == blanks_before(t@, o as int),
{
    let mut i: usize = 0;
    while i < o
        invariant
            i <= o <= t@.len(),
            blanks_before(t@, i as int),
        decreases o - i,
    {
        if t[i] != 32 && t[i] != 9 {
            return false;
        }
        i += 1;
    }
    true
}

/// A `}` typed with only blanks before it: the dot's line is re-indented to the line of
/// the matching `{`; see `reindented`.
fn cmode_align_close_brace(editor: &mut Editor, buf_id: BufferId, line: LineId, offset: usize) -> (r: Result<()>)
    requires
        old(editor).wf(),
        buf_id.0 < old(editor).buffers.seq().len(),
        old(editor).buffers.seq()[buf_id.0 as int].mode.0 & Mode::c_mode().0 != 0,
    ensures
        final(editor).wf(),
        reindented(&*old(editor), &*final(editor), buf_id, line, offset, '}', r),
{
    let should_align = match editor.buffers.get(buf_id) {
        Some(b) => {
            if line.0 >= b.lines.len() || offset > b.lines[line.0].text.len() {
                return Err(Error::Abort);
            }
            offset == 0 || all_blank_before(&b.lines[line.0].text, offset)
        },
        None => return Err(Error::Abort),
    };
    if should_align {
        let target = cmode_find_open_brace_col(editor, buf_id, line, offset)?;
        match target {
            Some(col) => cmode_set_indent(editor, col),
            None => Ok(()),
        }
    } else {
        Ok(())
    }
}

/// A `#` typed after blanks only: the blanks go; see `reindented`.
fn cmode_rewind_hash(editor: &mut Editor, buf_id: BufferId, line: LineId, offset: usize) -> (r: Result<()>)
    requires
        old(editor).wf(),
        buf_id.0 < old(editor).buffers.seq().len(),
        old(editor).buffers.seq()[buf_id.0 as int].mode.0 & Mode::c_mode().0 != 0,
    ensures
        final(editor).wf(),
        reindented(&*old(editor), &*final(editor), buf_id, line, offset, '#', r),
{
    let should_rewind = match editor.buffers.get(buf_id) {
        Some(b) => {
            if line.0 >= b.lines.len() || offset > b.lines[line.0].text.len() {
                return Err(Error::Abort);
            }
            offset > 0 && all_blank_before(&b.lines[line.0].text, offset)
        },
        None => return Err(Error::Abort),
    };
    if should_rewind {
        let none: Vec<u8> = Vec::new();
        let r = replace_lead(editor, &none);
        assert(none@ =~= Seq::<u8>::empty());
        r
    } else {
        Ok(())
    }
}

/// What typing `ch` at (`line`, `offset`) of buffer `buf_id` does first in C mode; see
/// `reindented`.
pub fn cmode_reindent(editor: &mut Editor, buf_id: BufferId, line: LineId, offset: usize, ch: char) -> (r: Result<()>)
    requires
        old(editor).wf(),
    ensures
        final(editor).wf(),
        reindented(&*old(editor), &*final(editor), buf_id, line, offset, ch, r),
{
    let cmode_special = match editor.buffers.get(buf_id) {
        Some(b) => b.mode.intersects(Mode::c_mode()) && (ch == '}' || ch == '#'),
        None => return Err(Error::Abort),
    };
    if cmode_special {
        if ch == '}' {
            cmode_align_close_brace(editor, buf_id, line, offset)
        } else {
            cmode_rewind_hash(editor, buf_id, line, offset)
        }
    } else {
        Ok(())
    }
}

/// `prev_start` goes back, never below zero.
pub proof fn lemma_prev_start_le(t: Seq<u8>, i: int)
    requires
        i >= 0,
    ensures
        0 <= prev_start(t, i) <= i,
    decreases i,
{
    if i > 0 && !crate::edit::commands::chars::starts_char(t[i]) {
        lemma_prev_start_le(t, i - 1);
    }
}

/// Scanning back over the word before offset `o` of `t`, `cnt` characters passed so far:
/// a blank at `o` stops the scan there; otherwise the scan steps back one character and
/// stops at the start of the line.  Gives the offset reached, the characters passed, and
/// whether the start of the line was reached.
pub open spec fn scan_in(t: Seq<u8>, o: int, cnt: nat) -> (int, nat, bool)
    decreases o,
{
    if o <= 0 || o > t.len() {
        (0, cnt, true)
    } else if o < t.len() && blank(t[o]) {
        (o, cnt, false)
    } else {
        let o2 = prev_start(t, o - 1);
        proof {
            lemma_prev_start_le(t, o - 1);
        }
        if o2 <= 0 {
            (0, cnt + 1, true)
        } else {
            scan_in(t, o2, cnt + 1)
        }
    }
}

/// How `wrap-word` goes from the dot of `w`: it cannot step back; it reaches the start of a
/// line; or it stops at a blank after passing some characters.
pub enum WrapPlan {
    Stuck(Window),
    AtStart(Window),
    Break(Window, usize),
}

/// There is a space or a tab under the dot of `w`.
pub open spec fn blank_under(b: Buffer, w: Window) -> bool {
    let t = b.text_of(w.dot_line.0);
    w.dot_line.0 < b.lines@.len() && w.dot_offset.0 < t.len() && blank(t[w.dot_offset.0 as int])
}

/// The scan of `wrap-word` from the dot of `w`: one character back, then back over the
/// characters that are not blanks (see `scan_in`), stopping at the start of a line.
pub open spec fn wrap_plan(b: Buffer, w: Window) -> WrapPlan {
    match char_step_backward(b, w) {
        None => WrapPlan::Stuck(w),
        Some(p0) => if blank_under(b, p0) {
            WrapPlan::Break(p0, 0usize)
        } else {
            match char_step_backward(b, p0) {
                None => WrapPlan::Stuck(p0),
                Some(p1) => if p1.dot_offset.0 == 0 {
                    WrapPlan::AtStart(p1)
                } else {
                    let (o, cnt, at_start) = scan_in(b.text_of(p1.dot_line.0), p1.dot_offset.0 as int, 1);
                    if at_start {
                        WrapPlan::AtStart(Window { dot_offset: LineOffset(0), ..p1 })
                    } else {
                        WrapPlan::Break(Window { dot_offset: LineOffset(o as usize), ..p1 }, cnt as usize)
                    }
                },
            }
        },
    }
}

/// `w` with the dot at the end of its line.
pub open spec fn at_eol(b: Buffer, w: Window) -> Window {
    Window { dot_offset: LineOffset(b.text_of(w.dot_line.0).len() as usize), ..w }
}

/// `w` marked for a full redraw.
pub open spec fn hard_of(w: Window) -> Window {
    Window { flags: WindowFlags(w.flags.0 | WindowFlags::hard().0), ..w }
}

/// After the blank is deleted: a `newline` at the dot, then `cnt` characters forward and
/// the window marked for a full redraw; a failure of either ends there.
pub open spec fn newline_then_forward(eb: &Editor, e1: &Editor, cnt: usize, r: Result<()>) -> bool {
    exists|ec: Editor, rc: Result<()>|
        #[trigger] newline_inserted(eb, &ec, 1, rc) && (rc is Err ==> r == rc && *e1 == ec) && (rc is Ok
            ==> forward_then_hard(&ec, e1, cnt, r))
}

/// `cnt` characters forward, then the window marked for a full redraw; a failure ends
/// there.
pub open spec fn forward_then_hard(ec: &Editor, e1: &Editor, cnt: usize, r: Result<()>) -> bool {
    exists|ed: Editor, rd: Result<()>|
        #[trigger] moved_by_chars(ec, &ed, cnt, true, rd) && (rd is Err ==> r == rd && *e1 == ed) && (rd
            is Ok ==> r is Ok && e1.only_cur_window_now(&ed, hard_of(ed.cur_win())))
}

/// What `wrap-word` does (see `wrap_plan`): where it stops at a blank, the blank is deleted,
/// the line broken there and the dot put back after the characters passed, on the new line;
/// where it reaches the start of the line, the line is broken at its end instead; where it
/// cannot step back, it fails.
pub open spec fn word_wrapped(e0: &Editor, e1: &Editor, r: Result<()>) -> bool {
    let b = e0.cur_buf();
    if !e0.has_cur() {
        r is Err && *e1 == *e0
    } else {
        match wrap_plan(b, e0.cur_win()) {
            WrapPlan::Stuck(w) => r is Err && e1.only_cur_window_now(e0, w),
            WrapPlan::AtStart(w) => exists|em: Editor|
                #[trigger] em.only_cur_window_now(e0, at_eol(b, w)) && newline_inserted(&em, e1, 1, r),
            WrapPlan::Break(w, cnt) => exists|ea: Editor, eb: Editor|
                ea.only_cur_window_now(e0, w) && #[trigger] forward_deleted(&ea, &eb, false, 1, Ok(()))
                    && newline_then_forward(&eb, e1, cnt, r),
        }
    }
}

/// Breaks the line before the word at the dot.
pub struct WrapWord;

/// The byte under the dot of the current window is a blank.
fn blank_at_dot(editor: &Editor) -> (r: bool)
    requires
        editor.wf(),
        editor.has_cur(),
    ensures
        r == blank_under(editor.cur_buf(), editor.cur_win()),
{
    let w = match editor.windows.current() {
        Some(w) => *w,
        None => return false,
    };
    match editor.buffers.get(w.buffer_id) {
        Some(b) => match b.line(w.dot_line) {
            Some(line) => w.dot_offset.0 < line.text.len() && (line.text[w.dot_offset.0] == 32
                || line.text[w.dot_offset.0] == 9),
            None => false,
        },
        None => false,
    }
}

/// Goes to the end of the dot's line and breaks the line there.
fn eol_newline(editor: &mut Editor) -> (r: Result<()>)
    requires
        old(editor).wf(),
        old(editor).has_cur(),
        old(editor).cur_win().dot_line.0 < old(editor).cur_buf().lines@.len(),
    ensures
        final(editor).wf(),
        exists|em: Editor|
            #[trigger] em.only_cur_window_now(&*old(editor), at_eol(old(editor).cur_buf(), old(editor).cur_win()))
                && newline_inserted(&em, &*final(editor), 1, r),
{
    let ghost e0 = *editor;
    let _ = GotoEol.execute(editor, false, 0);
    let ghost em = *editor;
    proof {
        assert(em.only_cur_window_now(&e0, at_eol(e0.cur_buf(), e0.cur_win())));
    }
    let r = InsertNewline.execute(editor, false, 1);
    proof {
        assert(newline_inserted(&em, &*editor, 1, r));
    }
    r
}

/// Deletes the blank under the dot, breaks the line there, and goes `cnt` characters
/// forward, marking the window for a full redraw.
fn break_at_blank(editor: &mut Editor, cnt: usize) -> (r: Result<()>)
    requires
        old(editor).wf(),
        old(editor).has_cur(),
        blank_under(old(editor).cur_buf(), old(editor).cur_win()),
    ensures
        final(editor).wf(),
        exists|eb: Editor|
            #[trigger] forward_deleted(&*old(editor), &eb, false, 1, Ok(())) && newline_then_forward(
                &eb,
                &*final(editor),
                cnt,
                r,
            ),
{
    let ghost ea = *editor;
    let ghost b = ea.cur_buf();
    let ghost wb = ea.cur_win();
    let _ = ForwardDelete.execute(editor, false, 1);
    let ghost eb = *editor;
    proof {
        assert(forward_deleted(&ea, &eb, false, 1, Ok(()))) by {
            reveal_with_fuel(crate::edit::commands::delete::fdel_steps, 2);
            let tb = b.text_of(wb.dot_line.0);
            assert(tb[wb.dot_offset.0 as int] < 0x80);
            assert(crate::edit::commands::delete::char_width(tb[wb.dot_offset.0 as int]) == 1);
        }
    }
    let rc = InsertNewline.execute(editor, false, 1);
    let ghost ec = *editor;
    proof {
        assert(newline_inserted(&eb, &ec, 1, rc));
    }
    if rc.is_err() {
        return rc;
    }
    let rd = ForwardChar.execute(editor, false, cnt);
    let ghost ed = *editor;
    proof {
        assert(moved_by_chars(&ec, &ed, cnt, true, rd));
    }
    if rd.is_err() {
        proof {
            assert(forward_then_hard(&ec, &ed, cnt, rd));
        }
        return rd;
    }
    proof {
        lemma_changed_has_cur(&eb, &ec);
        if cnt > 0 {
            let w = crate::edit::commands::chars::char_steps(ec.cur_buf(), ec.cur_win(), cnt as nat, true).0;
            Editor::lemma_cur_after(&ec, &ed, w);
        }
    }
    let wd = match editor.cur_window() {
        Ok(w) => w,
        Err(_) => return Err(Error::Abort),
    };
    editor.set_cur_window(Window { flags: wd.flags.union(WindowFlags::hard()), ..wd });
    proof {
        assert(forward_then_hard(&ec, &*editor, cnt, Ok(())));
    }
    Ok(())
}

impl Command for WrapWord {
    #[verifier::rlimit(40)]
    fn execute(&self, editor: &mut Editor, f: bool, n: usize) -> (r: Result<()>)
        ensures
            word_wrapped(&*old(editor), &*final(editor), r),
    {
        let ghost e0 = *editor;
        if !editor.cur_checked().is_ok() {
            return Err(Error::Abort);
        }
        let ghost b = e0.cur_buf();
        let ghost w0 = e0.cur_win();
        proof {
            reveal_with_fuel(crate::edit::commands::chars::char_steps, 2);
        }
        if BackwardChar.execute(editor, false, 1).is_err() {
            return Err(Error::Abort);
        }
        let ghost p0 = editor.cur_win();
        proof {
            Editor::lemma_cur_after(&e0, &*editor, char_step_backward(b, w0).unwrap());
        }
        let mut cnt: usize = 0;
        if !blank_at_dot(editor) {
            let ghost e_p0 = *editor;
            cnt = 1;
            proof {
                reveal_with_fuel(crate::edit::commands::chars::char_steps, 2);
            }
            if BackwardChar.execute(editor, false, 1).is_err() {
                proof {
                    Editor::lemma_cur_chain(&e0, &e_p0, &*editor, p0, p0);
                }
                return Err(Error::Abort);
            }
            let ghost p1 = editor.cur_win();
            proof {
                Editor::lemma_cur_chain(&e0, &e_p0, &*editor, p0, char_step_backward(b, p0).unwrap());
                Editor::lemma_cur_after(&e0, &*editor, char_step_backward(b, p0).unwrap());
            }
            let w1 = match editor.cur_window() {
                Ok(w) => w,
                Err(_) => return Err(Error::Abort),
            };
            if w1.dot_offset.0 == 0 {
                let ghost e_p1 = *editor;
                let r = eol_newline(editor);
                proof {
                    let em = choose|em: Editor|
                        #[trigger] em.only_cur_window_now(&e_p1, at_eol(b, p1)) && newline_inserted(&em, &*editor, 1, r);
                    Editor::lemma_cur_chain(&e0, &e_p1, &em, p1, at_eol(b, p1));
                    assert(em.only_cur_window_now(&e0, at_eol(b, p1)));
                }
                return r;
            }
            let ghost t = b.text_of(p1.dot_line.0);
            let ghost o1 = p1.dot_offset.0 as int;
            proof {
                if p0.dot_offset.0 > 0 {
                    lemma_prev_start_le(b.text_of(p0.dot_line.0), p0.dot_offset.0 - 1);
                }
            }
            loop
                invariant
                    editor.wf(),
                    e0 == *old(editor),
                    e0.wf(),
                    e0.has_cur(),
                    b == e0.cur_buf(),
                    w0 == e0.cur_win(),
                    char_step_backward(b, w0) == Some(p0),
                    !blank_under(b, p0),
                    char_step_backward(b, p0) == Some(p1),
                    t == b.text_of(p1.dot_line.0),
                    o1 == p1.dot_offset.0,
                    0 < o1,
                    p1.dot_line.0 < b.lines@.len(),
                    o1 <= t.len(),
                    1 <= cnt,
                    0 < editor.cur_win().dot_offset.0 <= t.len(),
                    editor.cur_win() == (Window { dot_offset: editor.cur_win().dot_offset, ..p1 }),
                    editor.cur() == Some(editor.cur_win()),
                    editor.only_cur_window_now(&e0, editor.cur_win()),
                    editor.has_cur(),
                    editor.cur_buf() == b,
                    scan_in(t, o1, 1) == scan_in(t, editor.cur_win().dot_offset.0 as int, cnt as nat),
                    cnt + editor.cur_win().dot_offset.0 <= o1 + 1,
                ensures
                    editor.wf(),
                    editor.has_cur(),
                    editor.cur_buf() == b,
                    editor.cur() == Some(editor.cur_win()),
                    editor.only_cur_window_now(&e0, editor.cur_win()),
                    blank_under(b, editor.cur_win()),
                    wrap_plan(b, w0) == WrapPlan::Break(editor.cur_win(), cnt),
                decreases editor.cur_win().dot_offset.0,
            {
                if blank_at_dot(editor) {
                    proof {
                        let c = editor.cur_win();
                        assert(c.dot_line == p1.dot_line);
                        assert(scan_in(t, c.dot_offset.0 as int, cnt as nat) == (c.dot_offset.0 as int, cnt as nat, false));
                        assert(c == Window { dot_offset: LineOffset(c.dot_offset.0 as int as usize), ..p1 });
                    }
                    break;
                }
                let ghost ek = *editor;
                let ghost wk = ek.cur_win();
                let ghost ok = wk.dot_offset.0 as int;
                proof {
                    lemma_prev_start_le(t, ok - 1);
                    reveal_with_fuel(crate::edit::commands::chars::char_steps, 2);
                }
                if BackwardChar.execute(editor, false, 1).is_err() {
                    return Err(Error::Abort);
                }
                proof {
                    Editor::lemma_cur_chain(&e0, &ek, &*editor, wk, char_step_backward(b, wk).unwrap());
                    Editor::lemma_cur_after(&e0, &*editor, char_step_backward(b, wk).unwrap());
                }
                let wn = match editor.cur_window() {
                    Ok(w) => w,
                    Err(_) => return Err(Error::Abort),
                };
                if wn.dot_offset.0 == 0 {
                    let ghost e_s = *editor;
                    proof {
                        assert(wk.dot_line == p1.dot_line);
                        assert(!blank_under(b, wk));
                        assert(wn.dot_offset.0 == prev_start(t, ok - 1));
                        assert(scan_in(t, ok, cnt as nat) == (0int, (cnt + 1) as nat, true));
                        assert(wn == Window { dot_offset: LineOffset(0), ..p1 });
                        assert(wrap_plan(b, w0) == WrapPlan::AtStart(wn));
                        assert(e_s.cur_win() == wn);
                        assert(e_s.cur_buf() == b);
                    }
                    let r = eol_newline(editor);
                    proof {
                        let em = choose|em: Editor|
                            #[trigger] em.only_cur_window_now(&e_s, at_eol(b, wn)) && newline_inserted(&em, &*editor, 1, r);
                        Editor::lemma_cur_chain(&e0, &e_s, &em, wn, at_eol(b, wn));
                        assert(em.only_cur_window_now(&e0, at_eol(b, wn)));
                    }
                    return r;
                }
                cnt = cnt + 1;
            }
        }
        let ghost ea = *editor;
        let r = break_at_blank(editor, cnt);
        proof {
            let eb = choose|eb: Editor|
                #[trigger] forward_deleted(&ea, &eb, false, 1, Ok(())) && newline_then_forward(&eb, &*editor, cnt, r);
            assert(ea.only_cur_window_now(&e0, ea.cur_win()));
            assert(forward_deleted(&ea, &eb, false, 1, Ok(())));
        }
        r
    }
}

/// Inserts a character, as many times as the argument says (at least once).
pub struct InsertChar(pub char);

/// The part of the dot's line before the dot.
pub open spec fn before_dot(e: &Editor) -> Seq<u8> {
    let t = e.cur_buf().text_of(e.cur_win().dot_line.0);
    let o = e.cur_win().dot_offset.0;
    if o < t.len() {
        t.take(o as int)
    } else {
        t
    }
}

/// The dot's line exists in the buffer of the current window.
pub open spec fn dot_ok(e: &Editor) -> bool {
    e.has_cur() && e.cur_win().dot_line.0 < e.cur_buf().lines@.len()
}

/// Typing a space there wraps the word first: the buffer wraps words, is not in view mode,
/// there is a fill column, and the dot's column is past it.
pub open spec fn wrap_wanted(e: &Editor) -> bool {
    let b = e.cur_buf();
    let tb = before_dot(e);
    &&& dot_ok(e)
    &&& b.mode.0 & Mode::wrap().0 != 0
    &&& e.fillcol > 0
    &&& b.mode.0 & Mode::view().0 == 0
    &&& column_of(tb, tb.len() as int, e.tab_width as nat) > e.fillcol
}

/// The column of the dot cannot be found: tabs have no width and one stands before the
/// dot (the test for wrapping is not made then).
pub open spec fn column_unknown(e: &Editor) -> bool {
    let b = e.cur_buf();
    let tb = before_dot(e);
    &&& dot_ok(e)
    &&& b.mode.0 & Mode::wrap().0 != 0
    &&& e.fillcol > 0
    &&& b.mode.0 & Mode::view().0 == 0
    &&& e.tab_width == 0
    &&& tb.contains(9u8)
}

/// In overwrite mode, the character under the dot is replaced: it is deleted first, unless
/// it is a tab that does not end at a tab stop.
pub open spec fn overwrite_wanted(e: &Editor) -> bool {
    let t = e.cur_buf().text_of(e.cur_win().dot_line.0);
    let o = e.cur_win().dot_offset.0;
    &&& e.cur_buf().mode.0 & Mode::overwrite().0 != 0
    &&& o < t.len()
    &&& (t[o as int] != 9 || o % 8 == 7)
}

/// The first step of typing a character: in overwrite mode, a `forward-delete`.
pub open spec fn overwrite_step(e0: &Editor, ea: &Editor, ra: Result<()>) -> bool {
    if overwrite_wanted(e0) {
        forward_deleted(e0, ea, false, 1, ra)
    } else {
        ra is Ok && *ea == *e0
    }
}

/// The rest of typing `ch` with the dot first at `w`: the C-mode re-indentation, then the
/// bytes of `ch` put in at the dot.
pub open spec fn reindent_then_insert(ea: &Editor, e1: &Editor, w: Window, ch: char, r: Result<()>) -> bool {
    exists|eb: Editor, rb: Result<()>|
        #[trigger] reindented(ea, &eb, w.buffer_id, w.dot_line, w.dot_offset.0, ch, rb) && (rb is Err ==> r == rb
            && *e1 == eb) && (rb is Ok ==> inserted_at_dot(&eb, e1, encode_scalar(ch as u32), r))
}

/// Typing `ch` once: see `overwrite_step`, `reindented` and `inserted_at_dot`; fails when
/// there is no current window, buffer or dot line.
pub open spec fn char_typed(e0: &Editor, e1: &Editor, ch: char, r: Result<()>) -> bool {
    if !dot_ok(e0) {
        r is Err && *e1 == *e0
    } else {
        exists|ea: Editor, ra: Result<()>|
            #[trigger] overwrite_step(e0, &ea, ra) && (ra is Err ==> r == ra && *e1 == ea) && (ra is Ok
                ==> reindent_then_insert(&ea, e1, e0.cur_win(), ch, r))
    }
}

/// Typing `ch` `k` times, stopping at the first failure.
pub open spec fn chars_typed(e0: &Editor, e1: &Editor, ch: char, k: nat, r: Result<()>) -> bool
    decreases k,
{
    if k == 0 {
        r is Ok && *e1 == *e0
    } else {
        ||| (r is Err && chars_typed(e0, e1, ch, (k - 1) as nat, r))
        ||| exists|em: Editor| chars_typed(e0, &em, ch, (k - 1) as nat, Ok(())) && #[trigger] char_typed(&em, e1, ch, r)
    }
}

/// After typing, in a buffer that saves itself and has a file name: the countdown goes
/// down by one and, at zero, starts again and a save of the buffer is asked for.
pub open spec fn autosaved(e0: &Editor, e1: &Editor, r: Result<()>) -> bool {
    let b = e0.cur_buf();
    let g: usize = if e0.gacount > 0 {
        (e0.gacount - 1) as usize
    } else {
        0
    };
    if !e0.has_cur() {
        r is Err && *e1 == *e0
    } else if b.mode.0 & Mode::auto_save().0 == 0 || b.filename@.len() == 0 {
        r is Ok && *e1 == *e0
    } else if g != 0 {
        r is Ok && *e1 == (Editor { gacount: g, ..*e0 })
    } else {
        r is Ok && *e1 == (Editor { gacount: e0.gasave, autosave_due: true, ..*e0 })
    }
}

/// Typing `count` times, then the autosave countdown.
pub open spec fn typed_then_saved(e0: &Editor, e1: &Editor, ch: char, count: nat, r: Result<()>) -> bool {
    exists|ek: Editor, rk: Result<()>|
        #[trigger] chars_typed(e0, &ek, ch, count, rk) && (rk is Err ==> r == rk && *e1 == ek) && (rk is Ok
            ==> autosaved(&ek, e1, r))
}

/// What `InsertChar(ch)` does with argument `n`: a space typed once past the fill column
/// wraps the word first (see `word_wrapped`); then `ch` is typed `n` times, at least once
/// (see `char_typed`), and the autosave countdown runs (see `autosaved`).
pub open spec fn char_inserted(e0: &Editor, e1: &Editor, ch: char, n: usize, r: Result<()>) -> bool {
    let count: nat = if n == 0 {
        1
    } else {
        n as nat
    };
    if !e0.has_cur() {
        r is Err && *e1 == *e0
    } else if ch == ' ' && count == 1 && column_unknown(e0) {
        r is Err && *e1 == *e0
    } else if ch == ' ' && count == 1 && wrap_wanted(e0) {
        exists|ew: Editor, rw: Result<()>|
            #[trigger] word_wrapped(e0, &ew, rw) && (rw is Err ==> r == rw && *e1 == ew) && (rw is Ok
                ==> typed_then_saved(&ew, e1, ch, count, r))
    } else {
        typed_then_saved(e0, e1, ch, count, r)
    }
}

/// Columns never go back (with tab stops, or with no tabs).
proof fn lemma_col_mono(t: Seq<u8>, j: int, k: int, tw: nat)
    requires
        0 <= j <= k <= t.len(),
        tw > 0 || forall|i: int| 0 <= i < t.len() ==> t[i] != 9u8,
    ensures
        column_of(t, j, tw) <= column_of(t, k, tw),
    decreases k - j,
{
    if j < k {
        lemma_col_mono(t, j, k - 1, tw);
        if tw > 0 {
            let c = column_of(t, k - 1, tw);
            assert(c % tw < tw) by (nonlinear_arith)
                requires
                    tw > 0,
            ;
        }
    }
}

/// The column of the part of the line before the dot exceeds `limit` (tab stops every
/// `tw` columns, with `tw > 0`, or no tab before the dot).
fn column_exceeds(t: &Vec<u8>, k: usize, tw: usize, limit: usize) -> (r: Option<bool>)
    requires
        k <= t@.len(),
    ensures
        match r {
            None => tw == 0 && t@.take(k as int).contains(9u8),
            Some(x) => (tw > 0 || !t@.take(k as int).contains(9u8)) && x == (column_of(
                t@.take(k as int),
                k as int,
                tw as nat,
            ) > limit),
        },
{
    let ghost tk = t@.take(k as int);
    let mut i: usize = 0;
    while i < k
        invariant
            i <= k <= t@.len(),
            tk == t@.take(k as int),
            forall|j: int| 0 <= j < i ==> tw == 0 ==> #[trigger] t@[j] != 9,
        decreases k - i,
    {
        if tw == 0 && t[i] == 9 {
            assert(tk[i as int] == 9u8);
            return None;
        }
        i += 1;
    }
    proof {
        if tw == 0 {
            assert forall|j: int| 0 <= j < tk.len() implies tk[j] != 9u8 by {
                assert(tk[j] == t@[j]);
            }
        }
    }
    let mut col: u128 = 0;
    let mut i: usize = 0;
    while i < k
        invariant
            i <= k <= t@.len(),
            tk == t@.take(k as int),
            tw == 0 ==> forall|j: int| 0 <= j < tk.len() ==> tk[j] != 9u8,
            col == column_of(tk, i as int, tw as nat),
            col <= limit,
        decreases k - i,
    {
        assert(tk[i as int] == t@[i as int]);
        if t[i] == 9 {
            col = col + (tw as u128 - col % (tw as u128));
        } else {
            col = col + 1;
        }
        i += 1;
        if col > limit as u128 {
            proof {
                lemma_col_mono(tk, i as int, k as int, tw as nat);
            }
            return Some(true);
        }
    }
    Some(false)
}

impl Command for InsertChar {
    fn execute(&self, editor: &mut Editor, f: bool, n: usize) -> (r: Result<()>)
        ensures
            char_inserted(&*old(editor), &*final(editor), self.0, n, r),
    {
        let ch = self.0;
        let count: usize = if n == 0 {
            1
        } else {
            n
        };
        let w = editor.cur_checked()?;
        let ghost e0 = *editor;
        if ch == ' ' && count == 1 {
            let check = match editor.buffers.get(w.buffer_id) {
                Some(b) => {
                    if b.mode.intersects(Mode::wrap()) && editor.fillcol > 0 && !b.mode.intersects(Mode::view())
                        && w.dot_line.0 < b.lines.len() {
                        let t = &b.lines[w.dot_line.0].text;
                        let k = if w.dot_offset.0 < t.len() {
                            w.dot_offset.0
                        } else {
                            t.len()
                        };
                        assert(t@.take(k as int) =~= before_dot(&e0));
                        column_exceeds(t, k, editor.tab_width, editor.fillcol)
                    } else {
                        Some(false)
                    }
                },
                None => Some(false),
            };
            match check {
                None => return Err(Error::Abort),
                Some(true) => {
                    let rw = WrapWord.execute(editor, false, 1);
                    let ghost ew = *editor;
                    proof {
                        assert(word_wrapped(&e0, &ew, rw));
                    }
                    if rw.is_err() {
                        return rw;
                    }
                    let r = type_chars(editor, ch, count);
                    proof {
                        assert(typed_then_saved(&ew, &*editor, ch, count as nat, r));
                    }
                    return r;
                },
                Some(false) => {},
            }
        }
        type_chars(editor, ch, count)
    }
}

/// Types `ch` `count` times, then runs the autosave countdown; see `typed_then_saved`.
fn type_chars(editor: &mut Editor, ch: char, count: usize) -> (r: Result<()>)
    requires
        old(editor).wf(),
    ensures
        final(editor).wf(),
        typed_then_saved(&*old(editor), &*final(editor), ch, count as nat, r),
{
    let ghost e0 = *editor;
    let bytes = encode_char(ch);
    let mut i: usize = 0;
    while i < count
        invariant
            editor.wf(),
            e0 == *old(editor),
            e0.wf(),
            i <= count,
            bytes@ == encode_scalar(ch as u32),
            chars_typed(&e0, &*editor, ch, i as nat, Ok(())),
        decreases count - i,
    {
        let ghost em = *editor;
        let r = type_once(editor, ch, &bytes);
        proof {
            assert(chars_typed(&e0, &em, ch, i as nat, Ok(())));
            assert(chars_typed(&e0, &*editor, ch, (i + 1) as nat, r));
        }
        match r {
            Ok(()) => {
                proof {
                    assert(r is Ok);
                    assert(r->Ok_0 == ());
                    assert(r == Ok::<(), Error>(()));
                    assert(chars_typed(&e0, &*editor, ch, (i + 1) as nat, Ok(())));
                }
            },
            Err(e) => {
                proof {
                    lemma_typed_err_extends(&e0, &*editor, ch, (i + 1) as nat, count as nat, r);
                    assert(chars_typed(&e0, &*editor, ch, count as nat, r));
                }
                return Err(e);
            },
        }
        i += 1;
    }
    let ghost ek = *editor;
    let r = autosave_step(editor);
    proof {
        assert(chars_typed(&e0, &ek, ch, count as nat, Ok(())));
    }
    r
}

/// A failure of typing stays one when more is to be typed.
proof fn lemma_typed_err_extends(e0: &Editor, e1: &Editor, ch: char, k: nat, m: nat, r: Result<()>)
    requires
        k <= m,
        r is Err,
        chars_typed(e0, e1, ch, k, r),
    ensures
        chars_typed(e0, e1, ch, m, r),
    decreases m - k,
{
    if k < m {
        assert(chars_typed(e0, e1, ch, (k + 1) as nat, r));
        lemma_typed_err_extends(e0, e1, ch, (k + 1) as nat, m, r);
    }
}

/// Types `ch` (whose bytes are `bytes`) once; see `char_typed`.
fn type_once(editor: &mut Editor, ch: char, bytes: &Vec<u8>) -> (r: Result<()>)
    requires
        old(editor).wf(),
        bytes@ == encode_scalar(ch as u32),
    ensures
        final(editor).wf(),
        char_typed(&*old(editor), &*final(editor), ch, r),
{
    let ghost e0 = *editor;
    let w = editor.cur_checked()?;
    let (ow, ok) = match editor.buffers.get(w.buffer_id) {
        Some(b) => {
            if w.dot_line.0 >= b.lines.len() {
                (false, false)
            } else {
                let t = &b.lines[w.dot_line.0].text;
                let o = w.dot_offset.0;
                (b.mode.intersects(Mode::overwrite()) && o < t.len() && (t[o] != 9 || o % 8 == 7), true)
            }
        },
        None => (false, false),
    };
    if !ok {
        return Err(Error::Abort);
    }
    let ra: Result<()> = if ow {
        ForwardDelete.execute(editor, false, 1)
    } else {
        Ok(())
    };
    let ghost ea = *editor;
    proof {
        assert(overwrite_step(&e0, &ea, ra));
    }
    if ra.is_err() {
        return ra;
    }
    let rb = cmode_reindent(editor, w.buffer_id, w.dot_line, w.dot_offset.0, ch);
    let ghost eb = *editor;
    proof {
        assert(reindented(&ea, &eb, w.buffer_id, w.dot_line, w.dot_offset.0, ch, rb));
    }
    if rb.is_err() {
        proof {
            assert(reindent_then_insert(&ea, &eb, w, ch, rb));
        }
        return rb;
    }
    let r = insert_at_dot(editor, bytes);
    proof {
        assert(inserted_at_dot(&eb, &*editor, encode_scalar(ch as u32), r));
        assert(reindent_then_insert(&ea, &*editor, w, ch, r));
    }
    r
}

/// The autosave countdown after typing; see `autosaved`.
fn autosave_step(editor: &mut Editor) -> (r: Result<()>)
    requires
        old(editor).wf(),
    ensures
        final(editor).wf(),
        autosaved(&*old(editor), &*final(editor), r),
{
    let w = editor.cur_checked()?;
    let wanted = match editor.buffers.get(w.buffer_id) {
        Some(b) => b.mode.intersects(Mode::auto_save()) && b.filename.as_str().unicode_len() > 0,
        None => false,
    };
    if !wanted {
        return Ok(());
    }
    editor.gacount = if editor.gacount > 0 {
        editor.gacount - 1
    } else {
        0
    };
    if editor.gacount != 0 {
        return Ok(());
    }
    editor.gacount = editor.gasave;
    editor.autosave_due = true;
    Ok(())
}

} // verus!
