use crate::buffer::{Buffer, TextModel};
use crate::edit::commands::delete::same_meta;
use crate::edit::commands::undo_records::{actions_view, entry_holds, ActionView};
use crate::edit::{Command, Editor};
use crate::types::{BufferFlags, Error, LineId, LineOffset, Mode, Result, UndoAction, WindowFlags};
use crate::window::Window;
use vstd::prelude::*;

verus! {

/// Whether line `l` can be cut at `o`: it is the header or a text line, `o` is within it,
/// and the arena has room for one more line.
pub open spec fn can_split(m: TextModel, l: usize, o: usize) -> bool {
    &&& l == 0 || m.ids.contains(l)
    &&& l < m.arena.len()
    &&& o <= m.arena[l as int].len()
    &&& m.arena.len() < usize::MAX
}

/// Line `l` cut at `o`: the tail becomes a new line (the next arena index) right after it.
pub open spec fn split_model(m: TextModel, l: usize, o: usize) -> TextModel {
    let t = m.arena[l as int];
    let id = m.arena.len() as usize;
    TextModel {
        ids: if l == 0 {
            m.ids.insert(0, id)
        } else {
            m.ids.insert(m.ids.index_of(l) + 1, id)
        },
        arena: m.arena.update(l as int, t.take(o as int)).push(t.skip(o as int)),
    }
}

/// Cuts line `l` at `o` when that can be done, returning the new line.
pub(crate) fn split_in(b: &mut Buffer, l: LineId, o: usize) -> (r: Option<LineId>)
    requires
        old(b).wf(),
    ensures
        final(b).wf(),
        can_split(old(b).model(), l.0, o) ==> r == Some(LineId(old(b).lines@.len() as usize))
            && final(b).model() == split_model(old(b).model(), l.0, o) && same_meta(
            *final(b),
            *old(b),
        ) && final(b).flags == old(b).flags,
        !can_split(old(b).model(), l.0, o) ==> r is None && *final(b) == *old(b),
{
    if l.0 >= b.lines.len() || b.lines.len() == usize::MAX {
        return None;
    }
    if l.0 != 0 && !b.is_text_line(l) {
        return None;
    }
    if o > b.lines[l.0].text.len() {
        return None;
    }
    let ghost m = b.model();
    let id = b.split_line(l, o);
    proof {
        if l.0 != 0 {
            let k = m.ids.index_of(l.0);
            assert(m.ids[k] == l.0);
        }
        assert(b.model().arena =~= split_model(m, l.0, o).arena) by {
            assert forall|i: int| 0 <= i < b.lines@.len() implies #[trigger] b.model().arena[i]
                == split_model(m, l.0, o).arena[i] by {
                if i < m.arena.len() && i != l.0 {
                    assert(b.text_of(i as usize) == old(b).text_of(i as usize));
                }
            }
        }
    }
    Some(id)
}

/// `n` cuts: the first at (`l`, `o`), each next one at the start of the line just made.
/// Gives the text, the last new line, and whether all cuts could be made.
pub open spec fn open_steps(m: TextModel, l: usize, o: usize, n: nat) -> (TextModel, usize, bool)
    decreases n,
{
    if n == 0 {
        (m, l, true)
    } else if !can_split(m, l, o) {
        (m, l, false)
    } else {
        open_steps(split_model(m, l, o), m.arena.len() as usize, 0, (n - 1) as nat)
    }
}

/// The undo record of cut `i` of `open_steps` from (`l`, `o`) in a buffer of `len` arena
/// lines: the first cut at (`l`, `o`), each next one at the start of the line just made,
/// the new line taking the next arena index.
pub open spec fn open_record(l: usize, o: usize, len: nat, i: int) -> Seq<ActionView> {
    seq![ActionView::Split {
        line: if i == 0 {
            l
        } else {
            (len + i - 1) as usize
        },
        offset: if i == 0 {
            o
        } else {
            0
        },
        new_line: (len + i) as usize,
    }]
}

/// The `k` undo entries that `e1` has past those of `e0` hold, each, the buffer and the dot
/// of the current window of `e0` and the record of one cut from (`l`, `o`), in order (see
/// `open_record`).
pub open spec fn opens_recorded(e0: &Editor, e1: &Editor, l: usize, o: usize, k: nat) -> bool {
    forall|i: int|
        0 <= i < k ==> entry_holds(
            #[trigger] e1.undo_stack@[e0.undo_stack@.len() + i],
            e0.cur_win(),
            open_record(l, o, e0.cur_buf().lines@.len(), i),
        )
}

/// Opens `n` lines at the dot: the text after the dot moves down `n` lines, and the dot
/// stays; each cut is recorded for undo.
pub open spec fn lines_opened(e0: &Editor, e1: &Editor, n: usize, r: Result<()>) -> bool {
    let w = e0.cur_win();
    let b = e0.cur_buf();
    if !e0.has_cur() {
        r is Err && *e1 == *e0
    } else {
        let (m, last, ok) = open_steps(b.model(), w.dot_line.0, w.dot_offset.0, n as nat);
        let k = if ok {
            n as nat
        } else {
            (m.arena.len() - b.lines@.len()) as nat
        };
        &&& e1.cur_buf().model() == m
        &&& same_meta(e1.cur_buf(), b)
        &&& e1.cur_buf().flags == (if k > 0 {
            BufferFlags(b.flags.0 | BufferFlags::changed().0)
        } else {
            b.flags
        })
        &&& e1.undo_grown(e0, k)
        &&& opens_recorded(e0, e1, w.dot_line.0, w.dot_offset.0, k)
        &&& ok ==> r is Ok && e1.changed_cur(
            e0,
            Window { flags: WindowFlags(w.flags.0 | WindowFlags::hard().0), ..w },
            e1.cur_buf(),
        )
        &&& !ok ==> r is Err && e1.changed_cur(e0, w, e1.cur_buf())
    }
}

/// Cuts `n` times from (`l`, `o`), each time at the start of the new line, pushing an undo
/// record for each cut.  Returns the last line made and whether all cuts worked.
fn split_repeatedly(editor: &mut Editor, b: &mut Buffer, l: LineId, o: usize, n: usize) -> (r: (LineId, bool))
    requires
        old(editor).wf(),
        old(b).wf(),
        old(editor).cur() is Some,
    ensures
        forall|i: int|
            0 <= i < final(b).lines@.len() - old(b).lines@.len() ==> entry_holds(
                #[trigger] final(editor).undo_stack@[old(editor).undo_stack@.len() + i],
                old(editor).cur_win(),
                open_record(l.0, o, old(b).lines@.len() as nat, i),
            ),
        final(editor).wf(),
        final(b).wf(),
        ({
            let (m, last, ok) = open_steps(old(b).model(), l.0, o, n as nat);
            &&& final(b).model() == m
            &&& r.0.0 == last
            &&& r.1 == ok
            &&& final(b).lines@.len() - old(b).lines@.len() == m.arena.len() - old(b).model().arena.len()
            &&& final(b).lines@.len() >= old(b).lines@.len()
            &&& ok ==> final(b).lines@.len() == old(b).lines@.len() + n
        }),
        same_meta(*final(b), *old(b)),
        final(b).flags == old(b).flags,
        final(editor).undo_grown(&*old(editor), (final(b).lines@.len() - old(b).lines@.len()) as nat),
        *final(editor) == (Editor { undo_stack: final(editor).undo_stack, ..*old(editor) }),
{
    let mut cur = l;
    let mut off = o;
    let mut k: usize = 0;
    assert(editor.undo_stack@.take(old(editor).undo_stack@.len() as int) =~= editor.undo_stack@);
    while k < n
        invariant
            b.wf(),
            editor.wf(),
            k <= n,
            open_steps(old(b).model(), l.0, o, n as nat) == open_steps(b.model(), cur.0, off, (n - k) as nat),
            b.lines@.len() == old(b).lines@.len() + k,
            same_meta(*b, *old(b)),
            b.flags == old(b).flags,
            editor.undo_grown(&*old(editor), k as nat),
            *editor == (Editor { undo_stack: editor.undo_stack, ..*old(editor) }),
            old(editor).cur() is Some,
            cur.0 == (if k == 0 {
                l.0
            } else {
                (old(b).lines@.len() + k - 1) as usize
            }),
            off == (if k == 0 {
                o
            } else {
                0
            }),
            forall|i: int|
                0 <= i < k ==> entry_holds(
                    #[trigger] editor.undo_stack@[old(editor).undo_stack@.len() + i],
                    old(editor).cur_win(),
                    open_record(l.0, o, old(b).lines@.len() as nat, i),
                ),
        decreases n - k,
    {
        let ghost u0 = editor.undo_stack@;
        let ghost bm = b.model();
        match split_in(b, cur, off) {
            Some(nl) => {
                assert(b.model().arena.len() == bm.arena.len() + 1);
                let mut actions: Vec<UndoAction> = Vec::new();
                actions.push(UndoAction::Split { line: cur, offset: off, new_line: nl });
                proof {
                    assert(actions_view(actions@) =~= open_record(l.0, o, old(b).lines@.len() as nat, k as int));
                }
                editor.push_undo(actions);
                proof {
                    assert(editor.undo_stack@.take(old(editor).undo_stack@.len() as int) =~= u0.take(
                        old(editor).undo_stack@.len() as int,
                    ));
                    assert forall|i: int| 0 <= i < k + 1 implies entry_holds(
                        #[trigger] editor.undo_stack@[old(editor).undo_stack@.len() + i],
                        old(editor).cur_win(),
                        open_record(l.0, o, old(b).lines@.len() as nat, i),
                    ) by {
                        if i < k {
                            assert(editor.undo_stack@[old(editor).undo_stack@.len() + i] == u0[old(editor).undo_stack@.len() + i]);
                        }
                    }
                }
                cur = nl;
                off = 0;
            },
            None => {
                return (cur, false);
            },
        }
        k += 1;
    }
    (cur, true)
}

/// Opens `n` blank lines after the dot, which stays where it is.
pub struct OpenLine;

impl Command for OpenLine {
    fn execute(&self, editor: &mut Editor, f: bool, n: usize) -> (r: Result<()>)
        ensures
            lines_opened(&*old(editor), &*final(editor), n, r),
    {
        editor.cur_checked()?;
        let ghost e0 = *editor;
        let (w, mut b) = editor.take_cur();
        let before_len = b.lines.len();
        let (_last, ok) = split_repeatedly(editor, &mut b, w.dot_line, w.dot_offset.0, n);
        if b.lines.len() > before_len {
            b.flags = b.flags.union(BufferFlags::changed());
        }
        if !ok {
            editor.commit(w, b, Ghost(e0));
            return Err(Error::Abort);
        }
        let mut w2 = w;
        w2.set_flag(WindowFlags::hard());
        editor.commit(w2, b, Ghost(e0));
        Ok(())
    }
}

} // verus!

verus! {

/// `x + y`, held at `usize::MAX`.
pub open spec fn sat_add(x: nat, y: nat) -> nat {
    if x + y > usize::MAX {
        usize::MAX as nat
    } else {
        x + y
    }
}

/// The column reached by the leading blanks of `t` before offset `k` (tab stops every 8),
/// starting from column `col` at offset `i`.
pub open spec fn lead_col(t: Seq<u8>, i: int, k: int, col: nat) -> nat
    decreases k - i,
{
    if i >= k || i >= t.len() {
        col
    } else if t[i] == 32 {
        lead_col(t, i + 1, k, sat_add(col, 1))
    } else if t[i] == 9 {
        lead_col(t, i + 1, k, sat_add((col - col % 8) as nat, 8))
    } else {
        col
    }
}

/// `n` tabs.
pub open spec fn tabs(n: nat) -> Seq<u8> {
    Seq::new(n, |i: int| 9u8)
}

/// The indentation for column `c`: tabs, then spaces.
pub open spec fn indent_bytes(c: nat) -> Seq<u8> {
    tabs(c / 8) + crate::edit::commands::rewrite::spaces(c % 8)
}

/// `n` cuts at offset `o`, from line `l` then from each new line, with `ind` added to the
/// end of each new line.  Gives the text, the last new line, and whether all worked.
pub open spec fn indent_steps(m: TextModel, l: usize, o: usize, ind: Seq<u8>, n: nat) -> (TextModel, usize, bool)
    decreases n,
{
    if n == 0 {
        (m, l, true)
    } else if !can_split(m, l, o) {
        (m, l, false)
    } else {
        let m2 = split_model(m, l, o);
        let id = m.arena.len() as usize;
        let m3 = TextModel { arena: m2.arena.update(id as int, m2.arena[id as int] + ind), ..m2 };
        indent_steps(m3, id, o, ind, (n - 1) as nat)
    }
}

/// The undo records of the cuts of `indent_steps`, one list per cut: the cut itself and,
/// when `ind` is not empty, `ind` put in at the end of the new line.
pub open spec fn indent_records(m: TextModel, l: usize, o: usize, ind: Seq<u8>, n: nat) -> Seq<Seq<ActionView>>
    decreases n,
{
    if n == 0 || !can_split(m, l, o) {
        Seq::empty()
    } else {
        let m2 = split_model(m, l, o);
        let id = m.arena.len() as usize;
        let m3 = TextModel { arena: m2.arena.update(id as int, m2.arena[id as int] + ind), ..m2 };
        seq![seq![ActionView::Split { line: l, offset: o, new_line: id }] + (if ind.len() > 0 {
            seq![ActionView::Insert { line: id, offset: (m.arena[l as int].len() - o) as usize, data: ind }]
        } else {
            Seq::empty()
        })] + indent_records(m3, id, o, ind, (n - 1) as nat)
    }
}

/// The last line of a run of cuts is in the arena.
pub proof fn lemma_indent_steps_last(m: TextModel, l: usize, o: usize, ind: Seq<u8>, n: nat)
    requires
        l < m.arena.len(),
    ensures
        indent_steps(m, l, o, ind, n).1 < indent_steps(m, l, o, ind, n).0.arena.len(),
    decreases n,
{
    if n > 0 && can_split(m, l, o) {
        let m2 = split_model(m, l, o);
        let id = m.arena.len() as usize;
        let m3 = TextModel { arena: m2.arena.update(id as int, m2.arena[id as int] + ind), ..m2 };
        lemma_indent_steps_last(m3, id, o, ind, (n - 1) as nat);
    }
}

/// What `newline-and-indent` does: `n` times the line is cut at the dot offset and the
/// new line gets the indentation of the blanks before the dot, at its end; the dot ends at
/// the end of the last new line (at the start of its line when `n` is zero).
pub open spec fn newline_indented(e0: &Editor, e1: &Editor, n: usize, r: Result<()>) -> bool {
    let w = e0.cur_win();
    let b = e0.cur_buf();
    let l = w.dot_line.0;
    let o = w.dot_offset.0;
    if !e0.has_cur() || l >= b.lines@.len() {
        r is Err && *e1 == *e0
    } else {
        let ind = indent_bytes(lead_col(b.text_of(l), 0, o as int, 0));
        let (m, last, ok) = indent_steps(b.model(), l, o, ind, n as nat);
        let k = (m.arena.len() - b.lines@.len()) as nat;
        &&& e1.cur_buf().model() == m
        &&& same_meta(e1.cur_buf(), b)
        &&& e1.cur_buf().flags == (if k > 0 {
            BufferFlags(b.flags.0 | BufferFlags::changed().0)
        } else {
            b.flags
        })
        &&& e1.undo_grown(e0, k)
        &&& forall|i: int|
            0 <= i < k ==> entry_holds(
                #[trigger] e1.undo_stack@[e0.undo_stack@.len() + i],
                w,
                indent_records(b.model(), l, o, ind, n as nat)[i],
            )
        &&& ok ==> r is Ok && e1.changed_cur(
            e0,
            Window {
                dot_line: LineId(last),
                dot_offset: LineOffset(if n == 0 {
                    0
                } else {
                    m.arena[last as int].len() as usize
                }),
                flags: WindowFlags(w.flags.0 | WindowFlags::hard().0),
                ..w
            },
            e1.cur_buf(),
        )
        &&& !ok ==> r is Err && e1.changed_cur(e0, w, e1.cur_buf())
    }
}

/// Cuts `n` times at offset `o`, from `l` and then from each new line, adding `ind` to the
/// end of each new line and pushing an undo record for each cut.
fn indent_repeatedly(
    editor: &mut Editor,
    b: &mut Buffer,
    l: LineId,
    o: usize,
    ind: &Vec<u8>,
    n: usize,
) -> (r: (LineId, bool))
    requires
        old(editor).wf(),
        old(b).wf(),
        old(editor).cur() is Some,
    ensures
        forall|i: int|
            0 <= i < final(b).lines@.len() - old(b).lines@.len() ==> entry_holds(
                #[trigger] final(editor).undo_stack@[old(editor).undo_stack@.len() + i],
                old(editor).cur_win(),
                indent_records(old(b).model(), l.0, o, ind@, n as nat)[i],
            ),
        final(editor).wf(),
        final(b).wf(),
        ({
            let (m, last, ok) = indent_steps(old(b).model(), l.0, o, ind@, n as nat);
            &&& final(b).model() == m
            &&& r.0.0 == last
            &&& r.1 == ok
            &&& final(b).lines@.len() >= old(b).lines@.len()
        }),
        same_meta(*final(b), *old(b)),
        final(b).flags == old(b).flags,
        final(editor).undo_grown(&*old(editor), (final(b).lines@.len() - old(b).lines@.len()) as nat),
        *final(editor) == (Editor { undo_stack: final(editor).undo_stack, ..*old(editor) }),
{
    let mut cur = l;
    let mut k: usize = 0;
    assert(editor.undo_stack@.take(old(editor).undo_stack@.len() as int) =~= editor.undo_stack@);
    let ghost mut done: Seq<Seq<ActionView>> = Seq::empty();
    assert(done + indent_records(b.model(), l.0, o, ind@, n as nat) =~= indent_records(b.model(), l.0, o, ind@, n as nat));
    while k < n
        invariant
            b.wf(),
            editor.wf(),
            k <= n,
            indent_steps(old(b).model(), l.0, o, ind@, n as nat) == indent_steps(
                b.model(),
                cur.0,
                o,
                ind@,
                (n - k) as nat,
            ),
            b.lines@.len() == old(b).lines@.len() + k,
            same_meta(*b, *old(b)),
            b.flags == old(b).flags,
            editor.undo_grown(&*old(editor), k as nat),
            *editor == (Editor { undo_stack: editor.undo_stack, ..*old(editor) }),
            old(editor).cur() is Some,
            done.len() == k,
            indent_records(old(b).model(), l.0, o, ind@, n as nat) == done + indent_records(
                b.model(),
                cur.0,
                o,
                ind@,
                (n - k) as nat,
            ),
            forall|i: int|
                0 <= i < k ==> entry_holds(
                    #[trigger] editor.undo_stack@[old(editor).undo_stack@.len() + i],
                    old(editor).cur_win(),
                    done[i],
                ),
        decreases n - k,
    {
        let ghost u0 = editor.undo_stack@;
        let ghost bm = b.model();
        match split_in(b, cur, o) {
            Some(nl) => {
                assert(b.model().arena.len() == bm.arena.len() + 1);
                let tail_len = b.lines[nl.0].text.len();
                let ghost mid = *b;
                b.append_to_line(nl, ind.as_slice());
                proof {
                    let m2 = split_model(bm, cur.0, o);
                    assert(mid.model() == m2);
                    assert(b.model().arena =~= m2.arena.update(nl.0 as int, m2.arena[nl.0 as int] + ind@)) by {
                        assert forall|i: int| 0 <= i < b.lines@.len() implies #[trigger] b.model().arena[i]
                            == m2.arena.update(nl.0 as int, m2.arena[nl.0 as int] + ind@)[i] by {
                            if i != nl.0 {
                                assert(b.text_of(i as usize) == mid.text_of(i as usize));
                            }
                        }
                    }
                    assert(b.model().arena.len() == bm.arena.len() + 1);
                }
                let ghost recs = indent_records(bm, cur.0, o, ind@, (n - k) as nat)[0];
                let mut actions: Vec<UndoAction> = Vec::new();
                actions.push(UndoAction::Split { line: cur, offset: o, new_line: nl });
                if ind.len() > 0 {
                    let ghost a1 = actions_view(actions@);
                    let data = ind.clone();
                    assert(data@ == ind@);
                    actions.push(UndoAction::Insert { line: nl, offset: tail_len, data });
                    assert(actions_view(actions@) =~= a1.push(
                        ActionView::Insert { line: nl.0, offset: tail_len, data: ind@ },
                    ));
                }
                proof {
                    assert(tail_len == bm.arena[cur.0 as int].len() - o);
                    assert(actions_view(actions@) =~= recs);
                    let rest = indent_records(b.model(), nl.0, o, ind@, (n - k - 1) as nat);
                    assert(indent_records(bm, cur.0, o, ind@, (n - k) as nat) == seq![recs] + rest);
                    assert(done + (seq![recs] + rest) =~= done.push(recs) + rest);
                }
                editor.push_undo(actions);
                proof {
                    assert(editor.undo_stack@.take(old(editor).undo_stack@.len() as int) =~= u0.take(
                        old(editor).undo_stack@.len() as int,
                    ));
                    assert forall|i: int| 0 <= i < k + 1 implies entry_holds(
                        #[trigger] editor.undo_stack@[old(editor).undo_stack@.len() + i],
                        old(editor).cur_win(),
                        done.push(recs)[i],
                    ) by {
                        if i < k {
                            assert(editor.undo_stack@[old(editor).undo_stack@.len() + i] == u0[old(editor).undo_stack@.len() + i]);
                        }
                    }
                    done = done.push(recs);
                }
                cur = nl;
            },
            None => {
                return (cur, false);
            },
        }
        k += 1;
    }
    (cur, true)
}

/// Inserts a line break after the dot and indents the new line like the blanks before the
/// dot.
pub struct NewlineAndIndent;

impl Command for NewlineAndIndent {
    fn execute(&self, editor: &mut Editor, f: bool, n: usize) -> (r: Result<()>)
        ensures
            newline_indented(&*old(editor), &*final(editor), n, r),
    {
        let w0 = editor.cur_checked()?;
        let off = w0.dot_offset.0;
        let col: usize = match editor.buffers.get(w0.buffer_id) {
            Some(b) => match b.line(w0.dot_line) {
                Some(line) => {
                    let t = &line.text;
                    let mut col: usize = 0;
                    let mut i: usize = 0;
                    while i < off && i < t.len()
                        invariant
                            i <= t@.len(),
                            lead_col(t@, 0, off as int, 0) == lead_col(t@, i as int, off as int, col as nat),
                        ensures
                            lead_col(t@, 0, off as int, 0) == col,
                        decreases t@.len() - i,
                    {
                        if t[i] == 32 {
                            col = col.saturating_add(1);
                        } else if t[i] == 9 {
                            col = (col - col % 8).saturating_add(8);
                        } else {
                            break;
                        }
                        i += 1;
                    }
                    col
                },
                None => return Err(Error::Abort),
            },
            None => return Err(Error::Abort),
        };
        let mut ind: Vec<u8> = Vec::new();
        let mut j: usize = 0;
        while j < col / 8
            invariant
                j <= col / 8,
                ind@ == tabs(j as nat),
            decreases col / 8 - j,
        {
            ind.push(9);
            j += 1;
            assert(ind@ =~= tabs(j as nat));
        }
        let mut j2: usize = 0;
        while j2 < col % 8
            invariant
                j2 <= col % 8,
                ind@ == tabs((col / 8) as nat) + crate::edit::commands::rewrite::spaces(j2 as nat),
            decreases col % 8 - j2,
        {
            ind.push(32);
            j2 += 1;
            assert(ind@ =~= tabs((col / 8) as nat) + crate::edit::commands::rewrite::spaces(j2 as nat));
        }
        let ghost e0 = *editor;
        let (w, mut b) = editor.take_cur();
        let before_len = b.lines.len();
        let (last, ok) = indent_repeatedly(editor, &mut b, w.dot_line, off, &ind, n);
        if b.lines.len() > before_len {
            b.flags = b.flags.union(BufferFlags::changed());
        }
        if !ok {
            editor.commit(w, b, Ghost(e0));
            return Err(Error::Abort);
        }
        proof {
            lemma_indent_steps_last(e0.cur_buf().model(), w.dot_line.0, off, ind@, n as nat);
        }
        let dot_byte = if n == 0 {
            0
        } else {
            match b.line_len(last) {
                Some(x) => x,
                None => 0,
            }
        };
        let mut w2 = Window { dot_line: last, dot_offset: LineOffset(dot_byte), ..w };
        w2.set_flag(WindowFlags::hard());
        editor.commit(w2, b, Ghost(e0));
        Ok(())
    }
}

} // verus!

verus! {

/// What `newline` does: in C mode (off the header) a `newline-and-indent`; else `n` line
/// breaks (at least one) at the dot, which ends at the start of the last new line.
pub open spec fn newline_inserted(e0: &Editor, e1: &Editor, n: usize, r: Result<()>) -> bool {
    let w = e0.cur_win();
    let b = e0.cur_buf();
    let l = w.dot_line.0;
    if !e0.has_cur() {
        r is Err && *e1 == *e0
    } else if b.mode.0 & Mode::c_mode().0 != 0 && l != 0 {
        newline_indented(e0, e1, n, r)
    } else {
        let count: nat = if n == 0 {
            1
        } else {
            n as nat
        };
        let (m, last, ok) = open_steps(b.model(), l, w.dot_offset.0, count);
        let k = (m.arena.len() - b.lines@.len()) as nat;
        &&& e1.cur_buf().model() == m
        &&& same_meta(e1.cur_buf(), b)
        &&& e1.cur_buf().flags == (if k > 0 {
            BufferFlags(b.flags.0 | BufferFlags::changed().0)
        } else {
            b.flags
        })
        &&& e1.undo_grown(e0, k)
        &&& opens_recorded(e0, e1, l, w.dot_offset.0, k)
        &&& ok ==> r is Ok && e1.changed_cur(
            e0,
            Window {
                dot_line: LineId(last),
                dot_offset: LineOffset(0),
                flags: WindowFlags(w.flags.0 | WindowFlags::hard().0),
                ..w
            },
            e1.cur_buf(),
        )
        &&& !ok ==> r is Err && e1.changed_cur(e0, w, e1.cur_buf())
    }
}

/// Breaks the line at the dot `n` times (at least once); in C mode, indents as well.
pub struct InsertNewline;

impl Command for InsertNewline {
    fn execute(&self, editor: &mut Editor, f: bool, n: usize) -> (r: Result<()>)
        ensures
            newline_inserted(&*old(editor), &*final(editor), n, r),
    {
        let w0 = editor.cur_checked()?;
        let cmode = match editor.buffers.get(w0.buffer_id) {
            Some(b) => b.mode.intersects(Mode::c_mode()),
            None => return Err(Error::Abort),
        };
        if cmode && w0.dot_line.0 != 0 {
            return NewlineAndIndent.execute(editor, f, n);
        }
        let count = if n == 0 {
            1
        } else {
            n
        };
        let ghost e0 = *editor;
        let (w, mut b) = editor.take_cur();
        let before_len = b.lines.len();
        let (last, ok) = split_repeatedly(editor, &mut b, w.dot_line, w.dot_offset.0, count);
        if b.lines.len() > before_len {
            b.flags = b.flags.union(BufferFlags::changed());
        }
        if !ok {
            editor.commit(w, b, Ghost(e0));
            return Err(Error::Abort);
        }
        let mut w2 = Window { dot_line: last, dot_offset: LineOffset(0), ..w };
        w2.set_flag(WindowFlags::hard());
        editor.commit(w2, b, Ghost(e0));
        Ok(())
    }
}

} // verus!
