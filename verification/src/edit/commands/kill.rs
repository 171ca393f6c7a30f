use crate::buffer::{next_in, Buffer, TextModel};
use crate::line::cut_out;
use crate::edit::commands::delete::{char_width, delete_step, fdel_record, fdel_step, same_meta};
use crate::edit::commands::undo_records::{action_view, actions_view, recorded, ActionView};
use crate::edit::{Command, Editor};
use crate::flat::{
    joined, lemma_joined_byte, lemma_joined_merge, lemma_joined_newline, lemma_joined_remove_byte, lemma_line_end_bound,
    lemma_line_start_agree, line_start,
};
use crate::types::{BufferFlags, CmdFlags, Error, LineId, LineOffset, Result, UndoAction, WindowFlags};
use crate::window::Window;
use vstd::prelude::*;

verus! {

/// How one step of a kill goes.
pub enum KillStep {
    /// Something was deleted: the new text and the bytes taken (a newline for a join).
    Took(TextModel, Seq<u8>),
    /// The dot is at the end of the last line: nothing more to take.
    End,
    /// The dot is on no line, or on an incomplete character.
    Fails,
}

/// One step of a kill at (`l`, `o`): as a forward deletion, but stopping quietly at the
/// end of the buffer, and telling what was taken.
pub open spec fn kill_step(m: TextModel, l: usize, o: usize) -> KillStep {
    if l < m.arena.len() && o >= m.arena[l as int].len() && next_in(m.ids, l) is None {
        KillStep::End
    } else {
        match fdel_step(m, l, o) {
            Some((m2, c)) => KillStep::Took(
                m2,
                if c {
                    seq![10u8]
                } else {
                    m.arena[l as int].subrange(o as int, o + char_width(m.arena[l as int][o as int]))
                },
            ),
            None => KillStep::Fails,
        }
    }
}

/// The lines of `m` in ring order: the header, then the text lines.
pub open spec fn model_ring(m: TextModel) -> Seq<usize> {
    seq![0usize] + m.ids
}

/// The bytes of the lines of `m`, in ring order.
pub open spec fn model_texts(m: TextModel) -> Seq<Seq<u8>> {
    Seq::new(model_ring(m).len(), |k: int| m.arena[model_ring(m)[k] as int])
}

/// The text of `m` as one byte sequence, header line first, lines joined by newlines.
pub open spec fn model_flat(m: TextModel) -> Seq<u8> {
    joined(model_texts(m))
}

/// The text lines of `m` are distinct lines of its arena, none of them the header.
pub open spec fn model_ok(m: TextModel) -> bool {
    &&& m.arena.len() > 0
    &&& m.ids.no_duplicates()
    &&& forall|k: int| 0 <= k < m.ids.len() ==> 0 < #[trigger] m.ids[k] < m.arena.len()
}

/// In ring order, line `p` is the only one with its index.
proof fn lemma_ring_unique(m: TextModel, p: int, k: int)
    requires
        model_ok(m),
        0 <= p < model_ring(m).len(),
        0 <= k < model_ring(m).len(),
        k != p,
    ensures
        model_ring(m)[k] != model_ring(m)[p],
{
    let r = model_ring(m);
    if p > 0 && k > 0 {
        assert(r[p] == m.ids[p - 1] && r[k] == m.ids[k - 1]);
    } else if p == 0 {
        assert(r[k] == m.ids[k - 1]);
    } else {
        assert(r[p] == m.ids[p - 1]);
    }
}

/// One kill step at a single-byte character or a line end, at offset `o` of line `l`
/// (line `p` in ring order): it takes that byte, the byte at `line_start + o` of the flat
/// text, and only that one out of the flat text.
proof fn lemma_kill_step_flat(m: TextModel, l: usize, o: usize, p: int)
    requires
        model_ok(m),
        0 <= p < model_ring(m).len(),
        model_ring(m)[p] == l,
        o <= m.arena[l as int].len(),
        line_start(model_texts(m), p) + o < model_flat(m).len(),
        model_flat(m)[line_start(model_texts(m), p) + o] < 0x80,
    ensures
        ({
            let x = line_start(model_texts(m), p) + o;
            kill_step(m, l, o) matches KillStep::Took(m2, d) && d == seq![model_flat(m)[x]] && model_ok(m2)
                && p < model_ring(m2).len() && model_ring(m2)[p] == l && o <= m2.arena[l as int].len()
                && line_start(model_texts(m2), p) == line_start(model_texts(m), p) && model_flat(m2)
                == model_flat(m).remove(x)
        }),
{
    let ls = model_texts(m);
    let r = model_ring(m);
    let t = m.arena[l as int];
    let x = line_start(ls, p) + o;
    if p > 0 {
        assert(r[p] == m.ids[p - 1]);
    }
    assert(l < m.arena.len());
    assert(ls[p] == t);
    if o < t.len() {
        lemma_joined_byte(ls, p, o as int);
        assert(char_width(t[o as int]) == 1);
        let t2 = cut_out(t, o as int, 1);
        assert(t2 =~= t.remove(o as int));
        let m2 = TextModel { ids: m.ids, arena: m.arena.update(l as int, t2) };
        assert(fdel_step(m, l, o) == Some((m2, false)));
        assert(t.subrange(o as int, o + 1) =~= seq![t[o as int]]);
        let ls2 = model_texts(m2);
        assert forall|k: int| 0 <= k < ls.len() implies #[trigger] ls2[k] == ls.update(p, t.remove(o as int))[k] by {
            if k != p {
                lemma_ring_unique(m, p, k);
            }
        }
        assert(ls2 =~= ls.update(p, t.remove(o as int)));
        lemma_joined_remove_byte(ls, p, o as int);
        lemma_line_start_agree(ls2, ls, p);
    } else {
        lemma_line_end_bound(ls, p);
        assert(p < ls.len() - 1);
        lemma_joined_newline(ls, p);
        let nx = r[p + 1];
        assert(nx == m.ids[p]);
        if l != 0 {
            assert(m.ids[p - 1] == l);
            assert(m.ids.contains(l));
            assert(m.ids.index_of(l) == p - 1);
        }
        assert(next_in(m.ids, l) == Some(nx));
        assert(m.ids.contains(nx));
        assert(m.ids.index_of(nx) == p);
        let u = m.arena[nx as int];
        let m2 = TextModel { ids: m.ids.remove(p), arena: m.arena.update(l as int, t + u) };
        assert(fdel_step(m, l, o) == Some((m2, true)));
        let r2 = model_ring(m2);
        assert(r2 =~= r.remove(p + 1));
        let ls2 = model_texts(m2);
        let want = ls.update(p, ls[p] + ls[p + 1]).remove(p + 1);
        assert(ls[p + 1] == u);
        assert forall|k: int| 0 <= k < ls2.len() implies #[trigger] ls2[k] == want[k] by {
            if k < p {
                lemma_ring_unique(m, p, k);
            } else if k > p {
                lemma_ring_unique(m, p, k + 1);
            }
        }
        assert(ls2 =~= want);
        lemma_joined_merge(ls, p);
        lemma_line_start_agree(ls2, ls, p);
        assert forall|k: int| 0 <= k < m2.ids.len() implies 0 < #[trigger] m2.ids[k] < m2.arena.len() by {
            if k < p {
                assert(m2.ids[k] == m.ids[k]);
            } else {
                assert(m2.ids[k] == m.ids[k + 1]);
            }
        }
        assert(m2.ids.no_duplicates()) by {
            assert forall|i: int, j: int| 0 <= i < j < m2.ids.len() implies m2.ids[i] != m2.ids[j] by {
                let i2 = if i < p { i } else { i + 1 };
                let j2 = if j < p { j } else { j + 1 };
                assert(m2.ids[i] == m.ids[i2] && m2.ids[j] == m.ids[j2]);
            }
        }
    }
}

/// Kill steps over single-byte characters and line ends, `n` of them from offset `o` of
/// line `l` (line `p` in ring order), take out of the flat text exactly the `n` bytes from
/// `line_start + o` on, and give them.
pub(crate) proof fn lemma_kill_steps_flat(m: TextModel, l: usize, o: usize, p: int, n: nat)
    requires
        model_ok(m),
        0 <= p < model_ring(m).len(),
        model_ring(m)[p] == l,
        o <= m.arena[l as int].len(),
        line_start(model_texts(m), p) + o + n <= model_flat(m).len(),
        forall|i: int|
            line_start(model_texts(m), p) + o <= i < line_start(model_texts(m), p) + o + n ==> #[trigger] model_flat(
                m,
            )[i] < 0x80,
    ensures
        ({
            let f = model_flat(m);
            let x = line_start(model_texts(m), p) + o;
            let (m3, d3, k3, ok3) = kill_steps(m, l, o, n);
            &&& ok3
            &&& k3 == n
            &&& d3 == f.subrange(x, x + n)
            &&& model_flat(m3) == f.subrange(0, x) + f.subrange(x + n, f.len() as int)
        }),
    decreases n,
{
    let f = model_flat(m);
    let x = line_start(model_texts(m), p) + o;
    crate::flat::lemma_line_start_nonneg(model_texts(m), p);
    if n == 0 {
        assert(f.subrange(0, x) + f.subrange(x, f.len() as int) =~= f);
        assert(f.subrange(x, x) =~= Seq::<u8>::empty());
    } else {
        lemma_kill_step_flat(m, l, o, p);
        let m2 = match kill_step(m, l, o) {
            KillStep::Took(m2, d) => m2,
            _ => m,
        };
        let f2 = model_flat(m2);
        assert(f2 == f.remove(x));
        assert forall|i: int| x <= i < x + (n - 1) implies #[trigger] f2[i] < 0x80 by {
            assert(f2[i] == f[i + 1]);
        }
        lemma_kill_steps_flat(m2, l, o, p, (n - 1) as nat);
        assert(seq![f[x]] + f2.subrange(x, x + n - 1) =~= f.subrange(x, x + n));
        assert(f2.subrange(0, x) + f2.subrange(x + n - 1, f2.len() as int) =~= f.subrange(0, x) + f.subrange(
            x + n,
            f.len() as int,
        ));
    }
}

/// Up to `n` kill steps at the same place: the text reached, the bytes taken, the number
/// of steps that took something, and whether none failed.
pub open spec fn kill_steps(m: TextModel, l: usize, o: usize, n: nat) -> (TextModel, Seq<u8>, nat, bool)
    decreases n,
{
    if n == 0 {
        (m, Seq::empty(), 0, true)
    } else {
        match kill_step(m, l, o) {
            KillStep::Took(m2, d) => {
                let (m3, d3, k3, ok3) = kill_steps(m2, l, o, (n - 1) as nat);
                (m3, d + d3, k3 + 1, ok3)
            },
            KillStep::End => (m, Seq::empty(), 0, true),
            KillStep::Fails => (m, Seq::empty(), 0, false),
        }
    }
}

/// The undo records of up to `n` kill steps at (`l`, `o`) (see `kill_steps`), one per step
/// that took something.
pub open spec fn kill_records(m: TextModel, l: usize, o: usize, n: nat) -> Seq<ActionView>
    decreases n,
{
    if n == 0 {
        Seq::empty()
    } else {
        match kill_step(m, l, o) {
            KillStep::Took(m2, d) => seq![fdel_record(m, l, o)] + kill_records(m2, l, o, (n - 1) as nat),
            _ => Seq::empty(),
        }
    }
}

/// What killing `n` characters at the dot does: they are deleted (lines joined at line
/// ends, stopping at the end of the buffer) and appended to the kill buffer, and the steps
/// are recorded for undo in one entry (see `kill_records`).  When a step fails, the steps
/// before it stay done but nothing is recorded.
pub open spec fn killed_chars(e0: &Editor, e1: &Editor, n: usize, r: Result<()>) -> bool {
    if !e0.has_cur() {
        r is Err && *e1 == *e0
    } else {
        let w = e0.cur_win();
        let b = e0.cur_buf();
        let (m, d, k, ok) = kill_steps(b.model(), w.dot_line.0, w.dot_offset.0, n as nat);
        &&& e1.cur() == Some(w)
        &&& e1.cur_buf().model() == m
        &&& same_meta(e1.cur_buf(), b)
        &&& ok ==> {
            &&& r is Ok
            &&& e1.changed_cur(
                &Editor { kill_buffer: e1.kill_buffer, ..*e0 },
                w,
                e1.cur_buf(),
            )
            &&& e1.kill_buffer@ == e0.kill_buffer@ + d
            &&& e1.cur_buf().flags == BufferFlags(b.flags.0 | BufferFlags::changed().0)
            &&& e1.undo_grown(e0, if k > 0 {
                1
            } else {
                0
            })
            &&& k > 0 ==> recorded(e0, e1, kill_records(b.model(), w.dot_line.0, w.dot_offset.0, n as nat))
        }
        &&& !ok ==> {
            &&& r is Err
            &&& e1.changed_cur(e0, w, e1.cur_buf())
            &&& e1.cur_buf().flags == b.flags
            &&& e1.undo_stack@ == e0.undo_stack@
        }
    }
}

/// Deletes `n` characters at the dot into the kill buffer.
pub fn kill_n_chars(editor: &mut Editor, n: usize) -> (r: Result<()>)
    requires
        old(editor).wf(),
    ensures
        final(editor).wf(),
        killed_chars(&*old(editor), &*final(editor), n, r),
{
    editor.cur_checked()?;
    let ghost e0 = *editor;
    let ghost m0 = e0.cur_buf().model();
    let (w, mut b) = editor.take_cur();
    let ghost mid = *editor;
    let l = w.dot_line;
    let o = w.dot_offset.0;
    let mut deleted: Vec<u8> = Vec::new();
    let mut actions: Vec<UndoAction> = Vec::new();
    let mut k = n;
    loop
        invariant_except_break
            k <= n,
            ({
                let (mf, df, kf, okf) = kill_steps(m0, l.0, o, n as nat);
                let (mr, dr, kr, okr) = kill_steps(b.model(), l.0, o, k as nat);
                &&& mf == mr
                &&& okf == okr
                &&& df == deleted@ + dr
                &&& (kf > 0) == (actions@.len() > 0 || kr > 0)
            }),
            actions_view(actions@) + kill_records(b.model(), l.0, o, k as nat) == kill_records(m0, l.0, o, n as nat),
        invariant
            b.wf(),
            b.id == w.buffer_id,
            editor.wf(),
            *editor == mid,
            e0.wf(),
            e0.has_cur(),
            e0 == *old(editor),
            w == e0.cur_win(),
            l == w.dot_line,
            o == w.dot_offset.0,
            m0 == e0.cur_buf().model(),
            mid.buffers.seq() == e0.buffers.seq().update(
                w.buffer_id.0 as int,
                mid.buffers.seq()[w.buffer_id.0 as int],
            ),
            mid == (Editor { buffers: mid.buffers, ..e0 }),
            same_meta(b, e0.cur_buf()),
            b.flags == e0.cur_buf().flags,
        ensures
            ({
                let (mf, df, kf, okf) = kill_steps(m0, l.0, o, n as nat);
                &&& mf == b.model()
                &&& okf
                &&& df == deleted@
                &&& (kf > 0) == (actions@.len() > 0)
            }),
            actions_view(actions@) == kill_records(m0, l.0, o, n as nat),
        decreases k,
    {
        if k == 0 {
            assert(deleted@ + Seq::<u8>::empty() =~= deleted@);
            assert(actions_view(actions@) + Seq::<ActionView>::empty() =~= actions_view(actions@));
            break;
        }
        let ghost mb = b.model();
        let len = match b.line_len(l) {
            Some(len) => len,
            None => {
                editor.commit(w, b, Ghost(e0));
                return Err(Error::Abort);
            },
        };
        if o >= len && b.next_line(l).is_none() {
            assert(deleted@ + Seq::<u8>::empty() =~= deleted@);
            assert(actions_view(actions@) + Seq::<ActionView>::empty() =~= actions_view(actions@));
            break;
        }
        match delete_step(&mut b, l, o) {
            Some((action, c)) => {
                let ghost d0 = deleted@;
                if c {
                    deleted.push(10);
                } else {
                    match &action {
                        UndoAction::Delete { data, .. } => {
                            let mut j: usize = 0;
                            while j < data.len()
                                invariant
                                    j <= data@.len(),
                                    deleted@ == d0 + data@.take(j as int),
                                decreases data@.len() - j,
                            {
                                deleted.push(data[j]);
                                j += 1;
                                assert(deleted@ =~= d0 + data@.take(j as int));
                            }
                            assert(data@.take(data@.len() as int) =~= data@);
                        },
                        _ => {},
                    }
                }
                let ghost a0 = actions_view(actions@);
                let ghost av = action_view(action);
                actions.push(action);
                proof {
                    assert(actions_view(actions@) =~= a0.push(av));
                    let rest = kill_records(b.model(), l.0, o, (k - 1) as nat);
                    assert(kill_records(mb, l.0, o, k as nat) == seq![av] + rest);
                    assert(a0 + (seq![av] + rest) =~= a0.push(av) + rest);
                    let dk = if c {
                        seq![10u8]
                    } else {
                        mb.arena[l.0 as int].subrange(o as int, o + char_width(mb.arena[l.0 as int][o as int]))
                    };
                    assert(deleted@ == d0 + dk);
                    let (mr, dr, kr, okr) = kill_steps(b.model(), l.0, o, (k - 1) as nat);
                    assert(d0 + (dk + dr) =~= deleted@ + dr);
                }
            },
            None => {
                editor.commit(w, b, Ghost(e0));
                return Err(Error::Abort);
            },
        }
        k -= 1;
    }
    b.flags = b.flags.union(BufferFlags::changed());
    editor.commit(w, b, Ghost(e0));
    if actions.len() > 0 {
        editor.push_undo(actions);
    }
    assert(editor.undo_stack@.take(e0.undo_stack@.len() as int) =~= e0.undo_stack@);
    editor.kill_buffer.append(&mut deleted);
    Ok(())
}

} // verus!

verus! {

/// The bytes killed by `kill-line` with an argument of `n` lines from offset `off`:
/// the rest of the first line and each following line, with their line ends.
pub open spec fn span_total(b: Buffer, lines: Seq<usize>, off: usize) -> nat
    decreases lines.len(),
{
    if lines.len() == 0 {
        0
    } else {
        let t = b.text_of(lines.last()).len();
        if lines.len() == 1 {
            (if t > off {
                (t - off) as nat
            } else {
                0
            }) + 1
        } else {
            span_total(b, lines.drop_last(), off) + t + 1
        }
    }
}

/// How many characters `kill-line` takes, when it can start: without an argument to the
/// end of the line (or the line end itself); with zero, back to the start of the line;
/// with `n`, through the end of the `n`-th line.
pub open spec fn kill_chunk(b: Buffer, w: Window, f: bool, n: usize) -> Option<usize> {
    let l = w.dot_line.0;
    let off = w.dot_offset.0;
    if !f {
        if l >= b.lines@.len() {
            None
        } else {
            let len = b.text_of(l).len();
            Some(if len <= off {
                1
            } else {
                (len - off) as usize
            })
        }
    } else if n == 0 {
        Some(off)
    } else {
        let lines = crate::edit::commands::rewrite::span_lines(b, l, n as nat);
        if l >= b.lines@.len() || lines.len() < n {
            None
        } else {
            let t = span_total(b, lines, off);
            Some(if t > usize::MAX {
                usize::MAX
            } else {
                t as usize
            })
        }
    }
}

/// `e1` is `e0` at the start of a kill: the kill buffer emptied unless the last command
/// killed too, and this command marked as a kill.
pub open spec fn kill_started(e1: &Editor, e0: &Editor) -> bool {
    &&& *e1 == (Editor {
        kill_buffer: e1.kill_buffer,
        this_flag: CmdFlags(e0.this_flag.0 | CmdFlags::kill().0),
        windows: e1.windows,
        ..*e0
    })
    &&& e1.kill_buffer@ == (if e0.last_flag.0 & CmdFlags::kill().0 != 0 {
        e0.kill_buffer@
    } else {
        Seq::<u8>::empty()
    })
}

/// From a started kill `mid`, the chunk was killed and, when that worked, the window
/// marked for a full redraw.
pub open spec fn chunk_killed(mid: Editor, e1: Editor, chunk: usize, r: Result<()>) -> bool {
    exists|e2: Editor|
        #[trigger] killed_chars(&mid, &e2, chunk, r) && e2.wf() && (r is Ok ==> e1.only_cur_window_now(
            &e2,
            Window {
                flags: WindowFlags(e2.cur_win().flags.0 | WindowFlags::hard().0),
                ..e2.cur_win()
            },
        )) && (r is Err ==> e1 == e2)
}

/// What `kill-line` does.
pub open spec fn killed_text(e0: &Editor, e1: &Editor, f: bool, n: usize, r: Result<()>) -> bool {
    let w = e0.cur_win();
    let b = e0.cur_buf();
    if !e0.has_cur() || kill_chunk(b, w, f, n) is None {
        r is Err && kill_started(e1, e0) && e1.windows == e0.windows
    } else {
        let chunk = kill_chunk(b, w, f, n).unwrap();
        exists|mid: Editor|
            mid.wf() && #[trigger] kill_started(&mid, e0) && (if f && n == 0 {
                mid.windows_with_cur(e0, Window { dot_offset: LineOffset(0), ..w })
                    && mid.buffers == e0.buffers
            } else {
                mid.windows == e0.windows && mid.buffers == e0.buffers
            }) && chunk_killed(mid, *e1, chunk, r)
    }
}

/// Starts a kill: see `kill_started`.
pub(crate) fn start_kill(editor: &mut Editor)
    requires
        old(editor).wf(),
    ensures
        final(editor).wf(),
        kill_started(&*final(editor), &*old(editor)),
        final(editor).windows == old(editor).windows,
{
    if !editor.last_flag.intersects(CmdFlags::kill()) {
        editor.kdelete();
        assert(editor.kill_buffer@ =~= Seq::<u8>::empty());
    }
    editor.this_flag = editor.this_flag.union(CmdFlags::kill());
}

/// The bytes of `n` lines from the dot line, the first from offset `off`.
fn chunk_of_lines(b: &Buffer, l: LineId, off: usize, n: usize) -> (r: Option<usize>)
    requires
        b.wf(),
        n > 0,
        l.0 < b.lines@.len(),
    ensures
        ({
            let lines = crate::edit::commands::rewrite::span_lines(*b, l.0, n as nat);
            if lines.len() < n {
                r is None
            } else {
                r == Some(if span_total(*b, lines, off) > usize::MAX {
                    usize::MAX
                } else {
                    span_total(*b, lines, off) as usize
                })
            }
        }),
{
    let mut total: usize = 0;
    let mut cur = l;
    let mut i: usize = 0;
    let ghost mut exact: nat = 0;
    while i < n
        invariant
            b.wf(),
            0 < n,
            i <= n,
            l.0 < b.lines@.len(),
            cur.0 < b.lines@.len(),
            crate::edit::commands::rewrite::span_lines(*b, l.0, i as nat).len() == i,
            i > 0 ==> cur.0 == crate::edit::commands::rewrite::span_lines(*b, l.0, i as nat).last(),
            i == 0 ==> cur == l,
            exact == span_total(*b, crate::edit::commands::rewrite::span_lines(*b, l.0, i as nat), off),
            total == (if exact > usize::MAX {
                usize::MAX
            } else {
                exact as usize
            }),
        decreases n - i,
    {
        if i > 0 {
            proof {
                crate::edit::commands::rewrite::lemma_span_step(*b, l.0, i as nat);
            }
            match b.next_line(cur) {
                Some(x) => {
                    proof {
                        crate::edit::commands::rewrite::lemma_span_step(*b, l.0, (i + 1) as nat);
                        assert(crate::edit::commands::rewrite::span_lines(*b, l.0, (i + 1) as nat)[i as int] == x.0);
                    }
                    cur = x;
                },
                None => {
                    proof {
                        assert(crate::edit::commands::rewrite::span_lines(*b, l.0, n as nat)
                            == crate::edit::commands::rewrite::span_lines(*b, l.0, i as nat));
                    }
                    return None;
                },
            }
        } else {
            proof {
                if l.0 == 0 {
                    assert(crate::edit::commands::rewrite::span_lines(*b, l.0, 1) =~= seq![0usize]);
                } else if b.has_line(l.0) {
                    let p = b.pos_of(l.0);
                    assert(b.ids()[p] == l.0);
                    assert(crate::edit::commands::rewrite::span_lines(*b, l.0, 1) =~= seq![l.0]);
                } else {
                    assert(crate::edit::commands::rewrite::span_lines(*b, l.0, 1) =~= seq![l.0]);
                }
            }
        }
        let len = match b.line_len(cur) {
            Some(x) => x,
            None => return None,
        };
        let piece: usize = if i == 0 {
            if len > off {
                len - off
            } else {
                0
            }
        } else {
            len
        };
        proof {
            let s2 = crate::edit::commands::rewrite::span_lines(*b, l.0, (i + 1) as nat);
            assert(s2.drop_last() =~= crate::edit::commands::rewrite::span_lines(*b, l.0, i as nat));
            exact = (exact + piece + 1) as nat;
            assert(exact == span_total(*b, s2, off));
        }
        total = total.saturating_add(piece).saturating_add(1);
        i += 1;
    }
    Some(total)
}

/// Kills to the end of the line; with an argument, `n` whole lines (or, with zero, back
/// to the start of the line).  Successive kills add to the kill buffer.
pub struct KillText;

impl Command for KillText {
    fn execute(&self, editor: &mut Editor, f: bool, n: usize) -> (r: Result<()>)
        ensures
            killed_text(&*old(editor), &*final(editor), f, n, r),
    {
        start_kill(editor);
        let w = editor.cur_checked()?;
        let chunk = if !f {
            let len = match editor.buffers.get(w.buffer_id) {
                Some(b) => match b.line_len(w.dot_line) {
                    Some(len) => len,
                    None => return Err(Error::Abort),
                },
                None => return Err(Error::Abort),
            };
            if len <= w.dot_offset.0 {
                1
            } else {
                len - w.dot_offset.0
            }
        } else if n == 0 {
            editor.set_cur_window(Window { dot_offset: LineOffset(0), ..w });
            w.dot_offset.0
        } else {
            let r = match editor.buffers.get(w.buffer_id) {
                Some(b) => {
                    if w.dot_line.0 >= b.lines.len() {
                        return Err(Error::Abort);
                    }
                    chunk_of_lines(b, w.dot_line, w.dot_offset.0, n)
                },
                None => return Err(Error::Abort),
            };
            match r {
                Some(c) => c,
                None => return Err(Error::Abort),
            }
        };
        let ghost mid = *editor;
        let r = kill_n_chars(editor, chunk);
        let ghost e2 = *editor;
        if r.is_ok() {
            let mut w2 = editor.cur_window()?;
            w2.set_flag(WindowFlags::hard());
            editor.set_cur_window(w2);
        }
        proof {
            assert(chunk_killed(mid, *editor, chunk, r));
            let e0 = *old(editor);
            assert(e0.cur_win() == w);
            assert(kill_chunk(e0.cur_buf(), w, f, n) == Some(chunk));
            assert(kill_started(&mid, &e0));
            assert(mid.wf());
        }
        r
    }
}

/// Kills text like `KillText`.
pub struct KillLine;

impl Command for KillLine {
    fn execute(&self, editor: &mut Editor, f: bool, n: usize) -> (r: Result<()>)
        ensures
            killed_text(&*old(editor), &*final(editor), f, n, r),
    {
        KillText.execute(editor, f, n)
    }
}

} // verus!
