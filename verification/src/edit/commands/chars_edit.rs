use crate::buffer::{Buffer, TextModel};
use crate::edit::commands::delete::same_meta;
use crate::edit::commands::undo_records::{recorded, ActionView};
use crate::edit::helpers::{column_of, column_ok, dot_column_checked, dot_end, dot_line_ok};
use crate::edit::{Command, Editor};
use crate::line::spliced_in;
use crate::types::{BufferFlags, Error, LineOffset, Result, UndoAction, WindowFlags};
use crate::window::Window;
use vstd::prelude::*;

verus! {

/// Where `transpose-chars` swaps: the byte before the dot and the one under it, or the
/// last two bytes when the dot is at the end of the line; none when the line is shorter
/// than two bytes, the dot is at its start, or past its end.
pub open spec fn swap_at(t: Seq<u8>, o: usize) -> Option<int> {
    let len = t.len();
    let doto: int = if o == len {
        o - 1
    } else {
        o as int
    };
    if len < 2 || doto < 1 || doto >= len {
        None
    } else {
        Some(doto)
    }
}

/// What `transpose-chars` does.
pub open spec fn transposed(e0: &Editor, e1: &Editor, r: Result<()>) -> bool {
    let w = e0.cur_win();
    let b = e0.cur_buf();
    let l = w.dot_line.0;
    if !dot_line_ok(e0) || swap_at(b.text_of(l), w.dot_offset.0) is None {
        r is Err && *e1 == *e0
    } else {
        let t = b.text_of(l);
        let p2 = swap_at(t, w.dot_offset.0).unwrap();
        let t2 = t.update(p2 - 1, t[p2]).update(p2, t[p2 - 1]);
        &&& r is Ok
        &&& e1.changed_cur(e0, Window { flags: WindowFlags(w.flags.0 | WindowFlags::edited().0), ..w }, e1.cur_buf())
        &&& e1.cur_buf().model() == (TextModel { ids: b.ids(), arena: b.model().arena.update(l as int, t2) })
        &&& same_meta(e1.cur_buf(), b)
        &&& e1.cur_buf().flags == BufferFlags(b.flags.0 | BufferFlags::changed().0)
        &&& e1.undo_grown(e0, 1)
        &&& recorded(
            e0,
            e1,
            seq![
                ActionView::Delete { line: l, offset: (p2 - 1) as usize, data: seq![t[p2 - 1], t[p2]] },
                ActionView::Insert { line: l, offset: (p2 - 1) as usize, data: seq![t[p2], t[p2 - 1]] },
            ],
        )
    }
}

/// Swaps the two characters around the dot.
pub struct TransposeChars;

impl Command for TransposeChars {
    fn execute(&self, editor: &mut Editor, f: bool, n: usize) -> (r: Result<()>)
        ensures
            transposed(&*old(editor), &*final(editor), r),
    {
        let w0 = editor.cur_checked()?;
        let (c1, c2, p1) = match editor.buffers.get(w0.buffer_id) {
            Some(b) => match b.line(w0.dot_line) {
                Some(line) => {
                    let len = line.text.len();
                    if len < 2 {
                        return Err(Error::Abort);
                    }
                    let mut doto = w0.dot_offset.0;
                    if doto == len {
                        doto = len - 1;
                    }
                    if doto < 1 || doto >= len {
                        return Err(Error::Abort);
                    }
                    (line.text[doto - 1], line.text[doto], doto - 1)
                },
                None => return Err(Error::Abort),
            },
            None => return Err(Error::Abort),
        };
        let ghost e0 = *editor;
        let (w, mut b) = editor.take_cur();
        let ghost m0 = b.model();
        b.put_byte_at(w.dot_line, p1, c2);
        let ghost b1 = b;
        b.put_byte_at(w.dot_line, p1 + 1, c1);
        let ghost b2 = b;
        b.flags = b.flags.union(BufferFlags::changed());
        proof {
            let l = w.dot_line.0;
            let t = m0.arena[l as int];
            let t2 = t.update(p1 as int, t[p1 + 1]).update(p1 + 1, t[p1 as int]);
            assert(b.model().arena =~= m0.arena.update(l as int, t2)) by {
                assert forall|k: int| 0 <= k < b.lines@.len() implies #[trigger] b.model().arena[k]
                    == m0.arena.update(l as int, t2)[k] by {
                    if k != l {
                        assert(b2.text_of(k as usize) == b1.text_of(k as usize));
                        assert(b1.text_of(k as usize) == e0.cur_buf().text_of(k as usize));
                    }
                }
            }
        }
        let mut w2 = w;
        w2.set_flag(WindowFlags::edited());
        editor.commit(w2, b, Ghost(e0));
        let mut actions: Vec<UndoAction> = Vec::new();
        let mut d: Vec<u8> = Vec::new();
        d.push(c1);
        d.push(c2);
        let mut ins: Vec<u8> = Vec::new();
        ins.push(c2);
        ins.push(c1);
        let ghost dv = d@;
        let ghost iv = ins@;
        actions.push(UndoAction::Delete { line: w.dot_line, offset: p1, data: d });
        actions.push(UndoAction::Insert { line: w.dot_line, offset: p1, data: ins });
        proof {
            assert(dv =~= seq![c1, c2]);
            assert(iv =~= seq![c2, c1]);
            assert(crate::edit::commands::undo_records::actions_view(actions@) =~= seq![
                ActionView::Delete { line: w.dot_line.0, offset: p1, data: dv },
                ActionView::Insert { line: w.dot_line.0, offset: p1, data: iv },
            ]);
        }
        editor.push_undo(actions);
        assert(editor.undo_stack@.take(e0.undo_stack@.len() as int) =~= e0.undo_stack@);
        Ok(())
    }
}

} // verus!

verus! {

/// What inserting `bytes` at the dot does: an undo record of the insertion is pushed
/// first; then, when the dot is on a line and within it, the bytes go in, the buffer is marked changed when
/// `mark` says so, and the dot moves past them.
pub open spec fn inserted_at_dot_marking(e0: &Editor, e1: &Editor, bytes: Seq<u8>, mark: bool, r: Result<()>) -> bool {
    let w = e0.cur_win();
    let b = e0.cur_buf();
    let l = w.dot_line.0;
    let o = w.dot_offset.0;
    if e0.cur() is None {
        r is Err && *e1 == *e0
    } else if !dot_line_ok(e0) || o > b.text_of(l).len() || o + bytes.len() > usize::MAX {
        &&& r is Err
        &&& *e1 == (Editor { undo_stack: e1.undo_stack, ..*e0 })
        &&& e1.undo_grown(e0, 1)
        &&& recorded(e0, e1, seq![ActionView::Insert { line: l, offset: o, data: bytes }])
    } else {
        &&& r is Ok
        &&& e1.changed_cur(
            e0,
            Window {
                dot_offset: LineOffset((o + bytes.len()) as usize),
                flags: WindowFlags(w.flags.0 | WindowFlags::edited().0),
                ..w
            },
            e1.cur_buf(),
        )
        &&& e1.cur() == Some(Window {
            dot_offset: LineOffset((o + bytes.len()) as usize),
            flags: WindowFlags(w.flags.0 | WindowFlags::edited().0),
            ..w
        })
        &&& e1.cur_buf().model() == (TextModel {
            ids: b.ids(),
            arena: b.model().arena.update(l as int, spliced_in(b.text_of(l), o as int, bytes)),
        })
        &&& same_meta(e1.cur_buf(), b)
        &&& e1.cur_buf().flags == (if mark {
            BufferFlags(b.flags.0 | BufferFlags::changed().0)
        } else {
            b.flags
        })
        &&& e1.undo_grown(e0, 1)
        &&& recorded(e0, e1, seq![ActionView::Insert { line: l, offset: o, data: bytes }])
    }
}

/// What inserting `bytes` at the dot does, the buffer being marked changed.
pub open spec fn inserted_at_dot(e0: &Editor, e1: &Editor, bytes: Seq<u8>, r: Result<()>) -> bool {
    inserted_at_dot_marking(e0, e1, bytes, true, r)
}

/// Inserts `bytes` at the dot, marking the buffer changed when `mark` says so; see
/// `inserted_at_dot_marking`.
pub fn insert_at_dot_marking(editor: &mut Editor, bytes: &Vec<u8>, mark: bool) -> (r: Result<()>)
    requires
        old(editor).wf(),
    ensures
        final(editor).wf(),
        inserted_at_dot_marking(&*old(editor), &*final(editor), bytes@, mark, r),
{
    let w0 = editor.cur_window()?;
    let mut actions: Vec<UndoAction> = Vec::new();
    let data = bytes.clone();
    assert(data@ == bytes@);
    actions.push(UndoAction::Insert { line: w0.dot_line, offset: w0.dot_offset.0, data });
    assert(crate::edit::commands::undo_records::actions_view(actions@) =~= seq![
        ActionView::Insert { line: w0.dot_line.0, offset: w0.dot_offset.0, data: bytes@ },
    ]);
    let ghost e0 = *editor;
    editor.push_undo(actions);
    let ghost e_u = *editor;
    assert(editor.undo_stack@.take(e0.undo_stack@.len() as int) =~= e0.undo_stack@);
    let ok = match editor.buffers.get(w0.buffer_id) {
        Some(b) => match b.line(w0.dot_line) {
            Some(line) => w0.dot_offset.0 <= line.text.len() && w0.dot_offset.0 <= usize::MAX
                - bytes.len(),
            None => false,
        },
        None => false,
    };
    if !ok {
        return Err(Error::Abort);
    }
    proof {
        Editor::lemma_cur_refl(&e_u);
    }
    let (w, mut b) = editor.take_cur();
    let ghost m0 = b.model();
    let ghost b0 = b;
    assert(w.dot_line.0 < b0.lines@.len() && w.dot_offset.0 <= b0.text_of(w.dot_line.0).len());
    let _ = b.insert_bytes_at(w.dot_line, w.dot_offset.0, bytes.as_slice());
    let ghost b1 = b;
    if mark {
        b.flags = b.flags.union(BufferFlags::changed());
    }
    proof {
        let l = w.dot_line.0;
        assert(b.model().arena =~= m0.arena.update(
            l as int,
            spliced_in(b0.text_of(l), w.dot_offset.0 as int, bytes@),
        )) by {
            assert forall|k: int| 0 <= k < b.lines@.len() implies #[trigger] b.model().arena[k]
                == m0.arena.update(l as int, spliced_in(b0.text_of(l), w.dot_offset.0 as int, bytes@))[k] by {
                if k != l {
                    assert(b1.text_of(k as usize) == b0.text_of(k as usize));
                }
            }
        }
    }
    let mut w2 = Window { dot_offset: LineOffset(w.dot_offset.0 + bytes.len()), ..w };
    w2.set_flag(WindowFlags::edited());
    editor.commit(w2, b, Ghost(e_u));
    Ok(())
}

/// Inserts `bytes` at the dot; see `inserted_at_dot`.
pub fn insert_at_dot(editor: &mut Editor, bytes: &Vec<u8>) -> (r: Result<()>)
    requires
        old(editor).wf(),
    ensures
        final(editor).wf(),
        inserted_at_dot(&*old(editor), &*final(editor), bytes@, r),
{
    insert_at_dot_marking(editor, bytes, true)
}

/// With an argument other than one, sets the tab size (zero for real tabs); else inserts a
/// tab, or spaces to the next multiple of the tab size.  Fails, changing nothing, when spaces
/// are due and the column of the dot cannot be measured (see `column_ok`).
pub struct InsertTab;

/// The bytes `insert-tab` puts in at column `col`.
pub open spec fn tab_bytes(tabsize: usize, col: nat) -> Seq<u8> {
    if tabsize == 0 {
        seq![9u8]
    } else {
        crate::edit::commands::rewrite::spaces((tabsize - col % (tabsize as nat)) as nat)
    }
}

/// The screen column of the dot, when the current window, buffer and line exist.
pub open spec fn dot_column(e: &Editor) -> nat {
    let t = e.cur_buf().text_of(e.cur_win().dot_line.0);
    column_of(t, dot_end(e), e.tab_width as nat)
}

/// The column of the dot can be measured, or there is no line under the dot.
pub open spec fn dot_column_measurable(e: &Editor) -> bool {
    dot_line_ok(e) ==> column_ok(e.cur_buf().text_of(e.cur_win().dot_line.0), dot_end(e), e.tab_width as nat)
}

impl Command for InsertTab {
    fn execute(&self, editor: &mut Editor, f: bool, n: usize) -> (r: Result<()>)
        ensures
            n != 1 ==> r is Ok && *final(editor) == (Editor { tabsize: n, ..*old(editor) }),
            n == 1 && old(editor).tabsize != 0 && !dot_column_measurable(&*old(editor)) ==> r is Err
                && *final(editor) == *old(editor),
            n == 1 && (old(editor).tabsize == 0 || dot_column_measurable(&*old(editor))) ==> inserted_at_dot(
                &*old(editor),
                &*final(editor),
                tab_bytes(
                    old(editor).tabsize,
                    if dot_line_ok(&*old(editor)) {
                        dot_column(&*old(editor))
                    } else {
                        0
                    },
                ),
                r,
            ),
    {
        if n != 1 {
            editor.tabsize = n;
            return Ok(());
        }
        let bytes: Vec<u8> = if editor.tabsize == 0 {
            let mut v: Vec<u8> = Vec::new();
            v.push(9);
            assert(v@ =~= seq![9u8]);
            v
        } else {
            let col = match dot_column_checked(editor) {
                Some(c) => c,
                None => return Err(Error::Abort),
            };
            let k = editor.tabsize - col % editor.tabsize;
            let mut v: Vec<u8> = Vec::new();
            let mut j: usize = 0;
            while j < k
                invariant
                    j <= k,
                    v@ == crate::edit::commands::rewrite::spaces(j as nat),
                decreases k - j,
            {
                v.push(32);
                j += 1;
                assert(v@ =~= crate::edit::commands::rewrite::spaces(j as nat));
            }
            v
        };
        proof {
            let col = if dot_line_ok(&*editor) {
                dot_column(&*editor)
            } else {
                0
            };
            assert(bytes@ == tab_bytes(editor.tabsize, col));
        }
        insert_at_dot(editor, &bytes)
    }
}

} // verus!

verus! {

/// After a change of the current window and its buffer to `w` and `b`, they are the current
/// window and its buffer.
proof fn lemma_changed_is_cur(e0: &Editor, e1: &Editor, w: Window, b: Buffer)
    requires
        e0.wf(),
        e1.wf(),
        e0.has_cur(),
        e1.changed_cur(e0, w, b),
        w.buffer_id == e0.cur_win().buffer_id,
    ensures
        e1.has_cur(),
        e1.cur_win() == w,
        e1.cur_buf() == b,
{
    let i = e0.windows.cur_index().unwrap();
    e1.windows.lemma_index_of(i);
}

/// Transposing twice in a row gives the text back: the second transposition finds the dot
/// where the first left it and swaps the same two characters back.
pub proof fn lemma_transpose_twice(e0: &Editor, e1: &Editor, e2: &Editor, r1: Result<()>, r2: Result<()>)
    requires
        e0.wf(),
        e1.wf(),
        e2.wf(),
        transposed(e0, e1, r1),
        r1 is Ok,
        transposed(e1, e2, r2),
    ensures
        r2 is Ok,
        e2.cur_buf().model() == e0.cur_buf().model(),
        e2.cur_win().dot_line == e0.cur_win().dot_line,
        e2.cur_win().dot_offset == e0.cur_win().dot_offset,
{
    let w = e0.cur_win();
    let w1 = Window { flags: WindowFlags(w.flags.0 | WindowFlags::edited().0), ..w };
    lemma_changed_is_cur(e0, e1, w1, e1.cur_buf());
    let b = e0.cur_buf();
    let l = w.dot_line.0;
    let t = b.text_of(l);
    let p2 = swap_at(t, w.dot_offset.0).unwrap();
    let t2 = t.update(p2 - 1, t[p2]).update(p2, t[p2 - 1]);
    let b1 = e1.cur_buf();
    assert(b1.model().arena.len() == b.model().arena.len());
    assert(b1.text_of(l) == b1.model().arena[l as int]);
    assert(b1.text_of(l) == t2);
    assert(dot_line_ok(e1));
    assert(swap_at(t2, w.dot_offset.0) == Some(p2));
    let t3 = t2.update(p2 - 1, t2[p2]).update(p2, t2[p2 - 1]);
    assert(t3 =~= t);
    let w2 = Window { flags: WindowFlags(w1.flags.0 | WindowFlags::edited().0), ..w1 };
    lemma_changed_is_cur(e1, e2, w2, e2.cur_buf());
    assert(b.model().arena.update(l as int, t2).update(l as int, t3) =~= b.model().arena);
}

} // verus!
