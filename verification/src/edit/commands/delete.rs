use crate::buffer::{next_in, Buffer, TextModel};
use crate::edit::commands::chars::utf8_char_width;
use crate::edit::commands::undo_records::{action_view, entry_holds, ActionView};
use crate::edit::{Command, Editor};
use crate::line::cut_out;
use crate::types::{BufferFlags, CmdFlags, Error, LineId, LineOffset, Result, UndoAction, WindowFlags};
use crate::window::Window;
use vstd::prelude::*;

verus! {

/// The length of the UTF-8 character that starts with byte `b`.
pub open spec fn char_width(b: u8) -> int {
    if b < 0x80 {
        1
    } else if b < 0xE0 {
        2
    } else if b < 0xF0 {
        3
    } else {
        4
    }
}

/// One forward deletion at (`l`, `o`): at the end of a line the next line is joined onto
/// it (impossible after the last line); else the character at `o` goes, provided it is
/// complete.  The flag tells whether two lines were joined.
pub open spec fn fdel_step(m: TextModel, l: usize, o: usize) -> Option<(TextModel, bool)> {
    if l >= m.arena.len() {
        None
    } else if o >= m.arena[l as int].len() {
        match next_in(m.ids, l) {
            Some(nx) => Some(
                (
                    TextModel {
                        ids: m.ids.remove(m.ids.index_of(nx)),
                        arena: m.arena.update(l as int, m.arena[l as int] + m.arena[nx as int]),
                    },
                    true,
                ),
            ),
            None => None,
        }
    } else if o + char_width(m.arena[l as int][o as int]) > m.arena[l as int].len() {
        None
    } else {
        Some(
            (
                TextModel {
                    ids: m.ids,
                    arena: m.arena.update(
                        l as int,
                        cut_out(m.arena[l as int], o as int, char_width(m.arena[l as int][o as int])),
                    ),
                },
                false,
            ),
        )
    }
}

/// `n` forward deletions at the same place: the text reached, how many deletions were
/// made, whether all `n` were, and whether lines were joined.
pub open spec fn fdel_steps(m: TextModel, l: usize, o: usize, n: nat) -> (TextModel, nat, bool, bool)
    decreases n,
{
    if n == 0 {
        (m, 0, true, false)
    } else {
        match fdel_step(m, l, o) {
            Some((m2, c)) => {
                let (m3, k, ok, c2) = fdel_steps(m2, l, o, (n - 1) as nat);
                (m3, k + 1, ok, c || c2)
            },
            None => (m, 0, false, false),
        }
    }
}

/// The line after `l` in `ids`, or the header after the last one.
pub open spec fn after_in(ids: Seq<usize>, l: usize) -> usize {
    match next_in(ids, l) {
        Some(x) => x,
        None => 0,
    }
}

/// The undo record of one forward deletion at (`l`, `o`) of `m` (see `fdel_step`): the
/// next line joined at the end of `l`, with its bytes and the line after it, or the bytes
/// of the character taken out.
pub open spec fn fdel_record(m: TextModel, l: usize, o: usize) -> ActionView {
    let t = m.arena[l as int];
    if o >= t.len() {
        let nx = next_in(m.ids, l).unwrap();
        ActionView::Merge {
            line: l,
            offset: t.len() as usize,
            next_line: nx,
            next_data: m.arena[nx as int],
            after_next: after_in(m.ids, nx),
        }
    } else {
        ActionView::Delete { line: l, offset: o, data: t.subrange(o as int, o + char_width(t[o as int])) }
    }
}

/// The undo records of `n` forward deletions at (`l`, `o`) (see `fdel_steps`), one per
/// deletion made.
pub open spec fn fdel_records(m: TextModel, l: usize, o: usize, n: nat) -> Seq<ActionView>
    decreases n,
{
    if n == 0 {
        Seq::empty()
    } else {
        match fdel_step(m, l, o) {
            Some((m2, c)) => seq![fdel_record(m, l, o)] + fdel_records(m2, l, o, (n - 1) as nat),
            None => Seq::empty(),
        }
    }
}

/// The bytes an undo record says were deleted.
pub open spec fn deleted_data(a: UndoAction) -> Seq<u8> {
    match a {
        UndoAction::Delete { data, .. } => data@,
        _ => Seq::empty(),
    }
}

/// `b2` is `b` with text `m` and otherwise the same name, mode and file.
pub open spec fn same_meta(b2: Buffer, b: Buffer) -> bool {
    &&& b2.id == b.id
    &&& b2.name@ == b.name@
    &&& b2.filename@ == b.filename@
    &&& b2.mode == b.mode
}

/// One forward deletion in `b`; on success returns what undoes it and whether lines joined.
pub(crate) fn delete_step(b: &mut Buffer, l: LineId, o: usize) -> (r: Option<(UndoAction, bool)>)
    requires
        old(b).wf(),
    ensures
        final(b).wf(),
        match fdel_step(old(b).model(), l.0, o) {
            Some((m2, c)) => r is Some && (r->0).1 == c && final(b).model() == m2 && same_meta(
                *final(b),
                *old(b),
            ) && final(b).flags == old(b).flags && (!c ==> deleted_data((r->0).0) == old(b).model().arena[l.0 as int].subrange(
                o as int,
                o + char_width(old(b).model().arena[l.0 as int][o as int]),
            )) && action_view((r->0).0) == fdel_record(old(b).model(), l.0, o),
            None => r is None && *final(b) == *old(b),
        },
{
    let ghost m = b.model();
    let len = match b.line_len(l) {
        Some(len) => len,
        None => return None,
    };
    if o >= len {
        let next = match b.next_line(l) {
            Some(nx) => nx,
            None => return None,
        };
        proof {
            let ids = b.ids();
            if l.0 == 0 {
                assert(ids.contains(ids[0]));
            } else {
                assert(ids.contains(ids[b.pos_of(l.0) + 1]));
            }
            assert(ids.contains(next.0));
            assert(next.0 < b.lines@.len());
            assert(next.0 != l.0) by {
                if l.0 != 0 {
                    let k = b.pos_of(l.0);
                    assert(ids[k] == l.0);
                    assert(ids[k + 1] == next.0);
                }
            }
        }
        let next_text = match b.line(next) {
            Some(nl) => nl.text.clone(),
            None => return None,
        };
        let after_next = match b.next_line(next) {
            Some(y) => y,
            None => LineId(0),
        };
        proof {
            let k = m.ids.index_of(next.0);
            assert(m.ids[k] == next.0);
            assert(after_next.0 == after_in(m.ids, next.0));
            assert(next.0 == next_in(m.ids, l.0).unwrap());
        }
        b.append_to_line(l, next_text.as_slice());
        let ghost mid = *b;
        b.remove(next);
        proof {
            let k = m.ids.index_of(next.0);
            assert(m.ids[k] == next.0);
            assert(mid.ids() == m.ids);
            assert(b.model().arena =~= m.arena.update(l.0 as int, m.arena[l.0 as int] + m.arena[next.0 as int])) by {
                assert forall|i: int| 0 <= i < b.lines@.len() implies #[trigger] b.model().arena[i]
                    == m.arena.update(l.0 as int, m.arena[l.0 as int] + m.arena[next.0 as int])[i] by {
                    assert(b.text_of(i as usize) == mid.text_of(i as usize));
                }
            }
        }
        let action = UndoAction::Merge {
            line: l,
            offset: len,
            next_line: next,
            next_data: next_text,
            after_next,
        };
        Some((action, true))
    } else {
        let t = match b.line(l) {
            Some(line) => line,
            None => return None,
        };
        let cw = utf8_char_width(t.text[o]);
        if cw > len - o {
            return None;
        }
        let mut data: Vec<u8> = Vec::new();
        let mut j: usize = 0;
        while j < cw
            invariant
                j <= cw,
                o + cw <= len,
                len == t.text@.len(),
                data@ == t.text@.subrange(o as int, o + j),
            decreases cw - j,
        {
            data.push(t.text[o + j]);
            j += 1;
            assert(data@ =~= t.text@.subrange(o as int, o + j));
        }
        b.delete_bytes_at(l, o, cw);
        proof {
            assert(b.model().arena =~= m.arena.update(
                l.0 as int,
                cut_out(m.arena[l.0 as int], o as int, cw as int),
            )) by {
                assert forall|i: int| 0 <= i < b.lines@.len() implies #[trigger] b.model().arena[i]
                    == m.arena.update(l.0 as int, cut_out(m.arena[l.0 as int], o as int, cw as int))[i] by {
                    if i != l.0 {
                        assert(b.text_of(i as usize) == old(b).text_of(i as usize));
                    }
                }
            }
        }
        Some((UndoAction::Delete { line: l, offset: o, data }, false))
    }
}

/// The outcome `all` of a run of steps, from the outcome `rest` of its last steps after
/// `done` steps that did or did not join lines (`crossed`).
pub open spec fn steps_agree(
    all: (TextModel, nat, bool, bool),
    rest: (TextModel, nat, bool, bool),
    done: nat,
    crossed: bool,
) -> bool {
    &&& all.0 == rest.0
    &&& all.2 == rest.2
    &&& all.1 == done + rest.1
    &&& all.3 == (crossed || rest.3)
}

/// What `forward-delete` with argument `n` does to an editor: each deletion made is
/// recorded for undo, in an entry of its own (see `fdel_records`).
pub open spec fn forward_deleted(e0: &Editor, e1: &Editor, f: bool, n: usize, r: Result<()>) -> bool {
    let e0f = if f {
        Editor { this_flag: CmdFlags(e0.this_flag.0 | CmdFlags::kill().0), ..*e0 }
    } else {
        *e0
    };
    if !e0.has_cur() {
        r is Err && *e1 == e0f
    } else {
        let w = e0.cur_win();
        let b = e0.cur_buf();
        let (m, k, ok, crossed) = fdel_steps(b.model(), w.dot_line.0, w.dot_offset.0, n as nat);
        let w1 = if ok {
            Window {
                flags: WindowFlags(
                    w.flags.0 | (if crossed {
                        WindowFlags::hard()
                    } else {
                        WindowFlags::edited()
                    }).0,
                ),
                ..w
            }
        } else {
            w
        };
        &&& e1.changed_cur(&e0f, w1, e1.cur_buf())
        &&& e1.cur() == Some(w1)
        &&& e1.cur_buf().model() == m
        &&& same_meta(e1.cur_buf(), b)
        &&& e1.cur_buf().flags == (if ok {
            BufferFlags(b.flags.0 | BufferFlags::changed().0)
        } else {
            b.flags
        })
        &&& e1.undo_grown(e0, k)
        &&& forall|i: int|
            0 <= i < k ==> entry_holds(
                #[trigger] e1.undo_stack@[e0.undo_stack@.len() + i],
                w,
                seq![fdel_records(b.model(), w.dot_line.0, w.dot_offset.0, n as nat)[i]],
            )
        &&& (r is Ok <==> ok)
    }
}

/// Deletes `n` characters forward, joining lines at line ends; fails at the end of the
/// buffer.  With an argument the deletion counts as a kill.
pub struct ForwardDelete;

impl Command for ForwardDelete {
    fn execute(&self, editor: &mut Editor, f: bool, n: usize) -> (r: Result<()>)
        ensures
            forward_deleted(&*old(editor), &*final(editor), f, n, r),
    {
        if f {
            editor.this_flag = editor.this_flag.union(CmdFlags::kill());
        }
        editor.cur_checked()?;
        let ghost e0f = *editor;
        let ghost m0 = e0f.cur_buf().model();
        let (w, mut b) = editor.take_cur();
        let ghost mid = *editor;
        let mut k = n;
        let mut crossed = false;
        let ghost mut done: Seq<ActionView> = Seq::empty();
        assert(editor.undo_stack@.take(e0f.undo_stack@.len() as int) =~= editor.undo_stack@);
        assert(done + fdel_records(m0, w.dot_line.0, w.dot_offset.0, n as nat) =~= fdel_records(m0, w.dot_line.0, w.dot_offset.0, n as nat));
        while k > 0
            invariant
                editor.wf(),
                b.wf(),
                b.id == w.buffer_id,
                k <= n,
                m0 == e0f.cur_buf().model(),
                e0f.wf(),
                e0f.has_cur(),
                e0f == (if f {
                    Editor {
                        this_flag: CmdFlags(old(editor).this_flag.0 | CmdFlags::kill().0),
                        ..*old(editor)
                    }
                } else {
                    *old(editor)
                }),
                w == e0f.cur_win(),
                *editor == (Editor { undo_stack: editor.undo_stack, ..mid }),
                mid.buffers.seq() == e0f.buffers.seq().update(
                    w.buffer_id.0 as int,
                    mid.buffers.seq()[w.buffer_id.0 as int],
                ),
                *editor == (Editor { buffers: editor.buffers, undo_stack: editor.undo_stack, ..e0f }),
                same_meta(b, e0f.cur_buf()),
                b.flags == e0f.cur_buf().flags,
                steps_agree(
                    fdel_steps(m0, w.dot_line.0, w.dot_offset.0, n as nat),
                    fdel_steps(b.model(), w.dot_line.0, w.dot_offset.0, k as nat),
                    (n - k) as nat,
                    crossed,
                ),
                editor.undo_grown(&e0f, (n - k) as nat),
                done.len() == n - k,
                fdel_records(m0, w.dot_line.0, w.dot_offset.0, n as nat) == done + fdel_records(
                    b.model(),
                    w.dot_line.0,
                    w.dot_offset.0,
                    k as nat,
                ),
                editor.cur() == Some(w),
                forall|i: int|
                    0 <= i < n - k ==> entry_holds(
                        #[trigger] editor.undo_stack@[e0f.undo_stack@.len() + i],
                        w,
                        seq![done[i]],
                    ),
            decreases k,
        {
            let ghost before_step = b.model();
            match delete_step(&mut b, w.dot_line, w.dot_offset.0) {
                Some((action, c)) => {
                    let ghost u0 = editor.undo_stack@;
                    let ghost av = action_view(action);
                    let mut actions: Vec<UndoAction> = Vec::new();
                    actions.push(action);
                    proof {
                        assert(crate::edit::commands::undo_records::actions_view(actions@) =~= seq![av]);
                        let rest = fdel_records(b.model(), w.dot_line.0, w.dot_offset.0, (k - 1) as nat);
                        assert(fdel_records(before_step, w.dot_line.0, w.dot_offset.0, k as nat) == seq![av] + rest);
                        assert(done + (seq![av] + rest) =~= done.push(av) + rest);
                    }
                    editor.push_undo(actions);
                    proof {
                        assert forall|i: int| 0 <= i < n - k + 1 implies entry_holds(
                            #[trigger] editor.undo_stack@[e0f.undo_stack@.len() + i],
                            w,
                            seq![done.push(av)[i]],
                        ) by {
                            if i < n - k {
                                assert(editor.undo_stack@[e0f.undo_stack@.len() + i] == u0[e0f.undo_stack@.len() + i]);
                            }
                        }
                        done = done.push(av);
                    }
                    proof {
                        assert(u0.len() == e0f.undo_stack@.len() + (n - k));
                        assert(editor.undo_stack@.take(e0f.undo_stack@.len() as int) =~= u0.take(
                            e0f.undo_stack@.len() as int,
                        ));
                        assert(editor.undo_stack@.len() == e0f.undo_stack@.len() + (n - k) + 1);
                    }
                    crossed = crossed || c;
                },
                None => {
                    assert(fdel_steps(b.model(), w.dot_line.0, w.dot_offset.0, k as nat) == (
                        b.model(),
                        0nat,
                        false,
                        false,
                    ));
                    assert(fdel_steps(m0, w.dot_line.0, w.dot_offset.0, n as nat).2 == false);
                    assert(fdel_steps(m0, w.dot_line.0, w.dot_offset.0, n as nat).0 == b.model());
                    assert(old(editor).cur_buf() == e0f.cur_buf());
                    assert(old(editor).cur_win() == w);
                    assert(fdel_steps(
                        old(editor).cur_buf().model(),
                        old(editor).cur_win().dot_line.0,
                        old(editor).cur_win().dot_offset.0,
                        n as nat,
                    ).2 == false);
                    editor.commit(w, b, Ghost(e0f));
                    return Err(Error::Abort);
                },
            }
            k -= 1;
        }
        b.flags = b.flags.union(BufferFlags::changed());
        let mut w2 = w;
        if crossed {
            w2.set_flag(WindowFlags::hard());
        } else {
            w2.set_flag(WindowFlags::edited());
        }
        editor.commit(w2, b, Ghost(e0f));
        Ok(())
    }
}

} // verus!

verus! {

/// How a step back of `backward-delete` goes.
pub enum BackStep {
    /// The dot moved.
    Moved(Window),
    /// The dot was at the start of the buffer.
    AtStart,
    /// The dot was on no line, or past its end.
    Fails,
}

/// One step back: at the start of a line to the end of the previous one, else back over
/// one character.
pub open spec fn back_step(b: Buffer, w: Window) -> BackStep {
    let l = w.dot_line.0;
    let o = w.dot_offset.0;
    if o == 0 {
        match b.prev_of(l) {
            Some(p) => BackStep::Moved(
                Window { dot_line: LineId(p), dot_offset: LineOffset(b.text_of(p).len() as usize), ..w },
            ),
            None => BackStep::AtStart,
        }
    } else if l >= b.lines@.len() || o - 1 >= b.text_of(l).len() {
        BackStep::Fails
    } else {
        BackStep::Moved(
            Window {
                dot_offset: LineOffset(crate::edit::commands::chars::prev_start(b.text_of(l), o - 1) as usize),
                ..w
            },
        )
    }
}

/// `n` steps back: where the dot ends, and 0 when all were taken, 1 when the start of the
/// buffer stopped them, 2 when one failed.
pub open spec fn back_steps(b: Buffer, w: Window, n: nat) -> (Window, int)
    decreases n,
{
    if n == 0 {
        (w, 0)
    } else {
        match back_step(b, w) {
            BackStep::Moved(w2) => back_steps(b, w2, (n - 1) as nat),
            BackStep::AtStart => (w, 1),
            BackStep::Fails => (w, 2),
        }
    }
}

/// What `backward-delete` with argument `n` does: the dot goes back `n` characters, then
/// they are deleted forward; at the start of the buffer it stops with no deletion.
pub open spec fn backward_deleted(e0: &Editor, e1: &Editor, f: bool, n: usize, r: Result<()>) -> bool {
    let e0f = if f {
        Editor { this_flag: CmdFlags(e0.this_flag.0 | CmdFlags::kill().0), ..*e0 }
    } else {
        *e0
    };
    if n == 0 {
        forward_deleted(&e0f, e1, f, n, r)
    } else if !e0.has_cur() {
        r is Err && *e1 == e0f
    } else {
        let (w2, st) = back_steps(e0.cur_buf(), e0.cur_win(), n as nat);
        if st == 2 {
            r is Err && e1.only_cur_window_now(&e0f, w2)
        } else if st == 1 {
            r is Ok && e1.only_cur_window_now(&e0f, w2)
        } else {
            deleted_after(e0f, w2, *e1, f, n, r)
        }
    }
}

/// From some editor that differs from `e0` only in having `w` as current window,
/// `forward-delete` led to `e1`.
pub open spec fn deleted_after(e0: Editor, w: Window, e1: Editor, f: bool, n: usize, r: Result<()>) -> bool {
    exists|mid: Editor|
        mid.wf() && #[trigger] mid.only_cur_window_now(&e0, w) && forward_deleted(&mid, &e1, f, n, r)
}

/// One step back for `backward-delete`.
fn back_one(editor: &mut Editor) -> (r: BackStep)
    requires
        old(editor).wf(),
        old(editor).has_cur(),
    ensures
        final(editor).wf(),
        r == back_step(old(editor).cur_buf(), old(editor).cur_win()),
        r matches BackStep::Moved(w2) ==> final(editor).only_cur_window_now(&*old(editor), w2)
            && final(editor).cur() == Some(w2),
        !(r is Moved) ==> *final(editor) == *old(editor),
{
    let w = match editor.cur_checked() {
        Ok(w) => w,
        Err(_) => return BackStep::Fails,
    };
    let b = match editor.buffers.get(w.buffer_id) {
        Some(b) => b,
        None => return BackStep::Fails,
    };
    let o = w.dot_offset.0;
    if o == 0 {
        let prev = match b.prev_line(w.dot_line) {
            Some(p) => p,
            None => return BackStep::AtStart,
        };
        proof {
            let ids = b.ids();
            if w.dot_line.0 == 0 {
                assert(ids[ids.len() - 1] < b.lines@.len());
            } else {
                assert(ids[b.pos_of(w.dot_line.0) - 1] < b.lines@.len());
            }
        }
        let plen = match b.line_len(prev) {
            Some(pl) => pl,
            None => return BackStep::Fails,
        };
        let nw = Window { dot_line: prev, dot_offset: LineOffset(plen), ..w };
        editor.set_cur_window(nw);
        BackStep::Moved(nw)
    } else {
        let line = match b.line(w.dot_line) {
            Some(l) => l,
            None => return BackStep::Fails,
        };
        let len = line.text.len();
        if o - 1 >= len {
            return BackStep::Fails;
        }
        let mut new_offset = o - 1;
        while new_offset > 0
            invariant
                new_offset < len,
                len == line.text@.len(),
                crate::edit::commands::chars::prev_start(line.text@, o - 1)
                    == crate::edit::commands::chars::prev_start(line.text@, new_offset as int),
            ensures
                crate::edit::commands::chars::prev_start(line.text@, o - 1) == new_offset,
            decreases new_offset,
        {
            if crate::edit::commands::chars::is_utf8_start_byte(line.text[new_offset]) {
                break;
            }
            new_offset -= 1;
        }
        let nw = Window { dot_offset: LineOffset(new_offset), ..w };
        editor.set_cur_window(nw);
        BackStep::Moved(nw)
    }
}

/// Deletes `n` characters backward, joining lines at line starts.
pub struct BackwardDelete;

impl Command for BackwardDelete {
    fn execute(&self, editor: &mut Editor, f: bool, n: usize) -> (r: Result<()>)
        ensures
            backward_deleted(&*old(editor), &*final(editor), f, n, r),
    {
        if f {
            editor.this_flag = editor.this_flag.union(CmdFlags::kill());
        }
        if n == 0 {
            return ForwardDelete.execute(editor, f, n);
        }
        editor.cur_checked()?;
        let ghost e0f = *editor;
        let ghost b = e0f.cur_buf();
        proof {
            Editor::lemma_cur_refl(&e0f);
        }
        let mut k = n;
        while k > 0
            invariant
                editor.wf(),
                e0f.wf(),
                e0f.has_cur(),
                k <= n,
                e0f == (if f {
                    Editor {
                        this_flag: CmdFlags(old(editor).this_flag.0 | CmdFlags::kill().0),
                        ..*old(editor)
                    }
                } else {
                    *old(editor)
                }),
                b == e0f.cur_buf(),
                editor.has_cur(),
                editor.cur_buf() == b,
                editor.only_cur_window_now(&e0f, editor.cur_win()),
                back_steps(b, e0f.cur_win(), n as nat) == back_steps(b, editor.cur_win(), k as nat),
            decreases k,
        {
            let ghost e1 = *editor;
            match back_one(editor) {
                BackStep::Moved(_) => {
                    proof {
                        Editor::lemma_cur_chain(&e0f, &e1, &*editor, e1.cur_win(), editor.cur_win());
                        Editor::lemma_cur_after(&e1, &*editor, editor.cur_win());
                    }
                },
                BackStep::AtStart => return Ok(()),
                BackStep::Fails => return Err(Error::Abort),
            }
            k -= 1;
        }
        let ghost mid = *editor;
        let r = ForwardDelete.execute(editor, f, n);
        proof {
            assert(back_steps(b, e0f.cur_win(), n as nat) == (mid.cur_win(), 0int));
            assert(old(editor).cur_buf() == b);
            assert(old(editor).cur_win() == e0f.cur_win());
            assert(old(editor).has_cur());
            assert(mid.wf() && mid.only_cur_window_now(&e0f, mid.cur_win()) && forward_deleted(
                &mid,
                &*editor,
                f,
                n,
                r,
            ));
            assert(exists|m: Editor|
                m.wf() && #[trigger] m.only_cur_window_now(&e0f, mid.cur_win()) && forward_deleted(
                    &m,
                    &*editor,
                    f,
                    n,
                    r,
                ));
            let e0 = *old(editor);
            let (w2, st) = back_steps(e0.cur_buf(), e0.cur_win(), n as nat);
            assert(w2 == mid.cur_win());
            assert(st == 0);
            let e0fs = if f {
                Editor { this_flag: CmdFlags(e0.this_flag.0 | CmdFlags::kill().0), ..e0 }
            } else {
                e0
            };
            assert(e0fs == e0f);
            assert(mid.only_cur_window_now(&e0fs, w2));
            assert(deleted_after(e0fs, w2, *editor, f, n, r));
        }
        r
    }
}

} // verus!
