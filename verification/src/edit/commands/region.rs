use crate::buffer::{Buffer, TextModel};
use crate::edit::commands::delete::same_meta;
use crate::edit::commands::kill::{
    kill_n_chars, kill_started, kill_steps, killed_chars, lemma_kill_steps_flat, model_flat, model_ok, model_ring, model_texts,
};
use crate::edit::commands::undo_records::{actions_view, recorded, ActionView};
use crate::edit::{Command, Editor};
use crate::flat::{
    flat, flat_index, joined, lemma_joined_across, lemma_joined_within, lemma_line_start_nonneg, line_start, ring_ids,
    ring_texts,
};
use crate::types::{BufferFlags, CmdFlags, Error, LineId, LineOffset, Result, UndoAction, WindowFlags};
use crate::window::Window;
use vstd::prelude::*;

verus! {

/// The region between the dot and the mark of `w`, in text order, as start line, start
/// offset, end line and end offset; none without a mark or when either end is on no line.
pub open spec fn region_of(b: Buffer, w: Window) -> Option<(usize, usize, usize, usize)> {
    let dl = w.dot_line.0;
    let dof = w.dot_offset.0;
    match w.mark_line {
        None => None,
        Some(ml) => {
            let ml = ml.0;
            let mof = w.mark_offset.0;
            if !b.in_ring(dl) || !b.in_ring(ml) {
                None
            } else if dl == ml {
                if dof <= mof {
                    Some((dl, dof, dl, mof))
                } else {
                    Some((dl, mof, dl, dof))
                }
            } else if b.ring_pos(dl) < b.ring_pos(ml) {
                Some((dl, dof, ml, mof))
            } else {
                Some((ml, mof, dl, dof))
            }
        },
    }
}

/// The position of line `l` in the ring, walking from the header.
fn ring_index(b: &Buffer, l: LineId) -> (r: Option<usize>)
    requires
        b.wf(),
    ensures
        b.in_ring(l.0) ==> r == Some(b.ring_pos(l.0) as usize),
        !b.in_ring(l.0) ==> r is None,
{
    if l.0 == 0 {
        return Some(0);
    }
    if !b.is_text_line(l) {
        return None;
    }
    proof {
        b.lemma_ring_pos(l.0);
    }
    let mut cur = LineId(0);
    let mut k: usize = 0;
    while cur.0 != l.0
        invariant
            b.wf(),
            b.has_line(l.0),
            0 <= b.ring_pos(l.0) < b.ring().len(),
            b.ring()[b.ring_pos(l.0)] == l.0,
            k <= b.ring_pos(l.0),
            cur.0 == b.ring()[k as int],
        decreases b.ring().len() - k,
    {
        proof {
            b.lemma_ring_entry(k as int);
            if k > 0 {
                b.lemma_pos_of(k - 1);
            }
            if k == b.ring_pos(l.0) {
                assert(false);
            }
        }
        match b.next_line(cur) {
            Some(x) => {
                proof {
                    if k > 0 {
                        b.lemma_pos_of(k as int);
                    }
                }
                cur = x;
            },
            None => return None,
        }
        k += 1;
    }
    proof {
        b.lemma_ring_entry(k as int);
    }
    Some(k)
}

/// The region of the current window, ordered: start line, start offset, end line, end
/// offset.  Fails with no window, no buffer or no mark.
pub fn region_bounds(editor: &Editor) -> (r: Result<(LineId, usize, LineId, usize)>)
    requires
        editor.wf(),
    ensures
        editor.has_cur() && region_of(editor.cur_buf(), editor.cur_win()) is Some ==> {
            let (sl, so, el, eo) = region_of(editor.cur_buf(), editor.cur_win()).unwrap();
            r == Ok::<(LineId, usize, LineId, usize), Error>((LineId(sl), so, LineId(el), eo))
        },
        !(editor.has_cur() && region_of(editor.cur_buf(), editor.cur_win()) is Some) ==> r is Err,
{
    let w = editor.cur_checked()?;
    let b = match editor.buffers.get(w.buffer_id) {
        Some(b) => b,
        None => return Err(Error::Abort),
    };
    let ml = match w.mark_line {
        Some(ml) => ml,
        None => return Err(Error::Abort),
    };
    let mo = w.mark_offset.0;
    let dl = w.dot_line;
    let dof = w.dot_offset.0;
    let dp = match ring_index(b, dl) {
        Some(p) => p,
        None => return Err(Error::Abort),
    };
    let mp = match ring_index(b, ml) {
        Some(p) => p,
        None => return Err(Error::Abort),
    };
    if dl.0 == ml.0 {
        if dof <= mo {
            Ok((dl, dof, dl, mo))
        } else {
            Ok((dl, mo, dl, dof))
        }
    } else if dp < mp {
        Ok((dl, dof, ml, mo))
    } else {
        Ok((ml, mo, dl, dof))
    }
}

/// The lines of a region from `sl` to `el`, in order.
pub open spec fn region_lines(b: Buffer, sl: usize, el: usize) -> Seq<usize> {
    b.ring().subrange(b.ring_pos(sl), b.ring_pos(el) + 1)
}

/// The part of line `i` of `lines` inside the region: from `so` on the first line, to `eo`
/// on the last, whole lines between.
pub open spec fn part_from(i: int, so: usize) -> int {
    if i == 0 {
        so as int
    } else {
        0
    }
}

pub open spec fn part_to(b: Buffer, lines: Seq<usize>, i: int, eo: usize) -> int {
    if i == lines.len() - 1 {
        eo as int
    } else {
        b.text_of(lines[i]).len() as int
    }
}

/// Every part lies within its line.
pub open spec fn parts_ok(b: Buffer, lines: Seq<usize>, so: usize, eo: usize) -> bool {
    forall|i: int|
        0 <= i < lines.len() ==> part_from(i, so) <= #[trigger] part_to(b, lines, i, eo) <= b.text_of(
            lines[i],
        ).len()
}

/// The bytes of the first `k` parts, each after the first preceded by a newline.
pub open spec fn region_text(b: Buffer, lines: Seq<usize>, so: usize, eo: usize, k: int) -> Seq<u8>
    decreases k,
{
    if k <= 0 {
        Seq::empty()
    } else {
        let part = b.text_of(lines[k - 1]).subrange(part_from(k - 1, so), part_to(b, lines, k - 1, eo));
        if k == 1 {
            part
        } else {
            region_text(b, lines, so, eo, k - 1) + seq![10u8] + part
        }
    }
}

/// The region of the current window, when it exists and its parts lie within their lines.
pub open spec fn cur_region(e: &Editor) -> Option<(usize, usize, usize, usize)> {
    if !e.has_cur() {
        None
    } else {
        match region_of(e.cur_buf(), e.cur_win()) {
            Some((sl, so, el, eo)) => if parts_ok(e.cur_buf(), region_lines(e.cur_buf(), sl, el), so, eo) {
                Some((sl, so, el, eo))
            } else {
                None
            },
            None => None,
        }
    }
}

/// The bytes of the region of the current window.
pub open spec fn cur_region_text(e: &Editor) -> Seq<u8> {
    let (sl, so, el, eo) = cur_region(e).unwrap();
    let lines = region_lines(e.cur_buf(), sl, el);
    region_text(e.cur_buf(), lines, so, eo, lines.len() as int)
}

/// Facts about the lines of a region.
proof fn lemma_region_lines(b: Buffer, w: Window)
    requires
        b.wf(),
        region_of(b, w) is Some,
    ensures
        ({
            let (sl, so, el, eo) = region_of(b, w).unwrap();
            let lines = region_lines(b, sl, el);
            &&& b.in_ring(sl) && b.in_ring(el)
            &&& b.ring_pos(sl) <= b.ring_pos(el)
            &&& lines.len() >= 1
            &&& lines[0] == sl
            &&& lines.last() == el
            &&& forall|i: int| 0 <= i < lines.len() ==> #[trigger] lines[i] < b.lines@.len()
            &&& forall|i: int|
                0 <= i < lines.len() ==> b.ring_pos(#[trigger] lines[i]) == b.ring_pos(sl) + i
            &&& lines.no_duplicates()
        }),
{
    let (sl, so, el, eo) = region_of(b, w).unwrap();
    b.lemma_ring_pos(w.dot_line.0);
    b.lemma_ring_pos(w.mark_line.unwrap().0);
    b.lemma_ring_pos(sl);
    b.lemma_ring_pos(el);
    let lines = region_lines(b, sl, el);
    assert forall|i: int| 0 <= i < lines.len() implies #[trigger] lines[i] < b.lines@.len()
        && b.ring_pos(lines[i]) == b.ring_pos(sl) + i by {
        b.lemma_ring_entry(b.ring_pos(sl) + i);
    }
    assert forall|i: int, j: int| 0 <= i < j < lines.len() implies lines[i] != lines[j] by {
        b.lemma_ring_entry(b.ring_pos(sl) + i);
        b.lemma_ring_entry(b.ring_pos(sl) + j);
    }
}

/// Copies the bytes of the region, ordered, with newlines between lines.
fn copy_region_text(b: &Buffer, sl: LineId, so: usize, el: LineId, eo: usize) -> (r: Option<Vec<u8>>)
    requires
        b.wf(),
        b.in_ring(sl.0),
        b.in_ring(el.0),
        b.ring_pos(sl.0) <= b.ring_pos(el.0),
    ensures
        ({
            let lines = region_lines(*b, sl.0, el.0);
            if parts_ok(*b, lines, so, eo) {
                r is Some && r->0@ == region_text(*b, lines, so, eo, lines.len() as int)
            } else {
                r is None
            }
        }),
{
    let ghost lines = region_lines(*b, sl.0, el.0);
    proof {
        b.lemma_ring_pos(sl.0);
        b.lemma_ring_pos(el.0);
        assert(lines.len() >= 1);
        assert forall|i: int| 0 <= i < lines.len() implies #[trigger] lines[i] < b.lines@.len()
            && b.ring_pos(lines[i]) == b.ring_pos(sl.0) + i by {
            b.lemma_ring_entry(b.ring_pos(sl.0) + i);
        }
    }
    let mut out: Vec<u8> = Vec::new();
    let mut cur = sl;
    let mut i: usize = 0;
    loop
        invariant
            b.wf(),
            lines == region_lines(*b, sl.0, el.0),
            lines.len() >= 1,
            b.in_ring(sl.0),
            b.in_ring(el.0),
            b.ring_pos(sl.0) <= b.ring_pos(el.0),
            forall|k: int| 0 <= k < lines.len() ==> #[trigger] lines[k] < b.lines@.len()
                && b.ring_pos(lines[k]) == b.ring_pos(sl.0) + k,
            i < lines.len(),
            cur.0 == lines[i as int],
            out@ == (if i == 0 {
                Seq::<u8>::empty()
            } else {
                region_text(*b, lines, so, eo, i as int) + seq![10u8]
            }),
            forall|k: int|
                0 <= k < i ==> part_from(k, so) <= #[trigger] part_to(*b, lines, k, eo) <= b.text_of(
                    lines[k],
                ).len(),
        decreases lines.len() - i,
    {
        let line = match b.line(cur) {
            Some(l) => l,
            None => return None,
        };
        let len = line.text.len();
        let is_last = cur.0 == el.0;
        proof {
            b.lemma_ring_pos(el.0);
            if is_last {
                assert(b.ring_pos(cur.0) == b.ring_pos(el.0));
                assert(i == lines.len() - 1);
            } else {
                assert(i != lines.len() - 1);
            }
        }
        let from = if i == 0 {
            so
        } else {
            0
        };
        let to = if is_last {
            eo
        } else {
            len
        };
        if from > to || to > len {
            proof {
                assert(!(part_from(i as int, so) <= part_to(*b, lines, i as int, eo) <= b.text_of(lines[i as int]).len()));
            }
            return None;
        }
        let ghost before = out@;
        let mut j = from;
        while j < to
            invariant
                from <= j <= to,
                to <= len,
                len == line.text@.len(),
                out@ == before + line.text@.subrange(from as int, j as int),
            decreases to - j,
        {
            out.push(line.text[j]);
            j += 1;
            assert(out@ =~= before + line.text@.subrange(from as int, j as int));
        }
        proof {
            let part = b.text_of(lines[i as int]).subrange(part_from(i as int, so), part_to(*b, lines, i as int, eo));
            assert(line.text@ == b.text_of(lines[i as int]));
            if i == 0 {
                assert(out@ =~= region_text(*b, lines, so, eo, 1));
            } else {
                assert(out@ =~= region_text(*b, lines, so, eo, (i + 1) as int));
            }
        }
        if is_last {
            proof {
                assert(parts_ok(*b, lines, so, eo));
            }
            return Some(out);
        }
        out.push(10);
        proof {
            b.lemma_ring_entry(b.ring_pos(sl.0) + i + 1);
            b.lemma_ring_entry(b.ring_pos(sl.0) + i);
            if b.ring_pos(sl.0) + i > 0 {
                b.lemma_pos_of(b.ring_pos(sl.0) + i - 1);
            }
            b.lemma_pos_of(b.ring_pos(sl.0) + i);
        }
        match b.next_line(cur) {
            Some(x) => {
                cur = x;
            },
            None => return None,
        }
        i += 1;
    }
}

} // verus!

verus! {

/// The bytes of line `x` of a region are those of line `ring_pos(sl) + x` of the ring.
proof fn lemma_region_line_text(b: Buffer, sl: usize, el: usize, x: int)
    requires
        b.wf(),
        b.in_ring(sl),
        b.in_ring(el),
        b.ring_pos(sl) <= b.ring_pos(el),
        0 <= x < region_lines(b, sl, el).len(),
    ensures
        0 <= b.ring_pos(sl) + x < ring_texts(&b).len(),
        ring_texts(&b)[b.ring_pos(sl) + x] == b.text_of(region_lines(b, sl, el)[x]),
{
    b.lemma_ring_pos(sl);
    b.lemma_ring_pos(el);
    assert(ring_ids(&b) =~= b.ring());
}

/// The first `k` parts of a region, read off the buffer's flat text.
proof fn lemma_region_text_flat(b: Buffer, sl: usize, el: usize, so: usize, eo: usize, k: int)
    requires
        b.wf(),
        b.in_ring(sl),
        b.in_ring(el),
        b.ring_pos(sl) <= b.ring_pos(el),
        parts_ok(b, region_lines(b, sl, el), so, eo),
        1 <= k <= region_lines(b, sl, el).len(),
    ensures
        ({
            let lines = region_lines(b, sl, el);
            let ls = ring_texts(&b);
            let p = b.ring_pos(sl);
            &&& line_start(ls, p) + so <= line_start(ls, p + k - 1) + part_to(b, lines, k - 1, eo)
            &&& line_start(ls, p + k - 1) + part_to(b, lines, k - 1, eo) <= joined(ls).len()
            &&& region_text(b, lines, so, eo, k) == joined(ls).subrange(
                line_start(ls, p) + so,
                line_start(ls, p + k - 1) + part_to(b, lines, k - 1, eo),
            )
        }),
    decreases k,
{
    let lines = region_lines(b, sl, el);
    let ls = ring_texts(&b);
    let p = b.ring_pos(sl);
    lemma_region_line_text(b, sl, el, 0);
    lemma_region_line_text(b, sl, el, k - 1);
    assert(part_from(0, so) <= part_to(b, lines, 0, eo) <= b.text_of(lines[0]).len());
    assert(part_from(k - 1, so) <= part_to(b, lines, k - 1, eo) <= b.text_of(lines[k - 1]).len());
    if k == 1 {
        lemma_joined_within(ls, p, so as int, part_to(b, lines, 0, eo));
    } else {
        lemma_region_text_flat(b, sl, el, so, eo, k - 1);
        lemma_region_line_text(b, sl, el, k - 2);
        assert(part_to(b, lines, k - 2, eo) == ls[p + k - 2].len());
        lemma_joined_across(ls, p, so as int, p + k - 1, part_to(b, lines, k - 1, eo));
    }
}

/// Copying the region puts into the kill buffer exactly the bytes of the buffer's flat text
/// (its lines joined by newlines) from the region's start to its end, after the kill
/// buffer as it was when the last command killed, else alone.
pub proof fn lemma_copy_region_flat(e0: &Editor, e1: &Editor, r: Result<()>)
    requires
        e0.wf(),
        region_copied(e0, e1, r),
        cur_region(e0) is Some,
    ensures
        ({
            let (sl, so, el, eo) = cur_region(e0).unwrap();
            let b = e0.cur_buf();
            let start = flat_index(&b, b.ring_pos(sl), so as int);
            let end = flat_index(&b, b.ring_pos(el), eo as int);
            &&& r is Ok
            &&& 0 <= start <= end <= flat(&b).len()
            &&& e1.kill_buffer@ == (if e0.last_flag.0 & CmdFlags::kill().0 != 0 {
                e0.kill_buffer@
            } else {
                Seq::<u8>::empty()
            }) + flat(&b).subrange(start, end)
        }),
{
    let (sl, so, el, eo) = cur_region(e0).unwrap();
    let b = e0.cur_buf();
    lemma_region_lines(b, e0.cur_win());
    let lines = region_lines(b, sl, el);
    lemma_region_text_flat(b, sl, el, so, eo, lines.len() as int);
    lemma_line_start_nonneg(ring_texts(&b), b.ring_pos(sl));
    b.lemma_ring_pos(el);
}

/// The number of characters that killing the region kills is its byte count in the
/// buffer's flat text, from its start to its end, one for each byte of its lines and one
/// for each line end between them (held at `usize::MAX`).
pub proof fn lemma_region_size_flat(b: Buffer, w: Window)
    requires
        b.wf(),
        region_of(b, w) is Some,
        ({
            let (sl, so, el, eo) = region_of(b, w).unwrap();
            parts_ok(b, region_lines(b, sl, el), so, eo)
        }),
    ensures
        ({
            let (sl, so, el, eo) = region_of(b, w).unwrap();
            let lines = region_lines(b, sl, el);
            region_size(b, lines, so, eo, lines.len() as int) == sat(
                flat_index(&b, b.ring_pos(el), eo as int) - flat_index(&b, b.ring_pos(sl), so as int),
            )
        }),
{
    let (sl, so, el, eo) = region_of(b, w).unwrap();
    lemma_region_lines(b, w);
    lemma_region_size_steps(b, sl, el, so, eo, region_lines(b, sl, el).len() as int);
    b.lemma_ring_pos(el);
}

/// The byte count of the first `k` parts of a region, read off the flat text.
proof fn lemma_region_size_steps(b: Buffer, sl: usize, el: usize, so: usize, eo: usize, k: int)
    requires
        b.wf(),
        b.in_ring(sl),
        b.in_ring(el),
        b.ring_pos(sl) <= b.ring_pos(el),
        parts_ok(b, region_lines(b, sl, el), so, eo),
        1 <= k <= region_lines(b, sl, el).len(),
    ensures
        ({
            let lines = region_lines(b, sl, el);
            let ls = ring_texts(&b);
            let p = b.ring_pos(sl);
            &&& line_start(ls, p) + so <= line_start(ls, p + k - 1) + part_to(b, lines, k - 1, eo)
            &&& region_size(b, lines, so, eo, k) == sat(
                line_start(ls, p + k - 1) + part_to(b, lines, k - 1, eo) - (line_start(ls, p) + so),
            )
        }),
    decreases k,
{
    let lines = region_lines(b, sl, el);
    let ls = ring_texts(&b);
    let p = b.ring_pos(sl);
    lemma_region_text_flat(b, sl, el, so, eo, k);
    lemma_region_line_text(b, sl, el, k - 1);
    if k > 1 {
        lemma_region_size_steps(b, sl, el, so, eo, k - 1);
        lemma_region_line_text(b, sl, el, k - 2);
        assert(part_to(b, lines, k - 2, eo) == ls[p + k - 2].len());
        assert(line_start(ls, p + k - 1) == line_start(ls, p + k - 2) + ls[p + k - 2].len() + 1);
    }
}

/// What copying the region does: its bytes are added to the kill buffer (a fresh one
/// unless the last command killed), as a kill.
pub open spec fn region_copied(e0: &Editor, e1: &Editor, r: Result<()>) -> bool {
    if !e0.has_cur() || region_of(e0.cur_buf(), e0.cur_win()) is None {
        r is Err && *e1 == *e0
    } else {
        let (sl, so, el, eo) = region_of(e0.cur_buf(), e0.cur_win()).unwrap();
        let lines = region_lines(e0.cur_buf(), sl, el);
        let started = if e0.last_flag.0 & CmdFlags::kill().0 != 0 {
            e0.kill_buffer@
        } else {
            Seq::<u8>::empty()
        };
        &&& *e1 == (Editor {
            kill_buffer: e1.kill_buffer,
            this_flag: CmdFlags(e0.this_flag.0 | CmdFlags::kill().0),
            ..*e0
        })
        &&& parts_ok(e0.cur_buf(), lines, so, eo) ==> r is Ok && e1.kill_buffer@ == started
            + region_text(e0.cur_buf(), lines, so, eo, lines.len() as int)
        &&& !parts_ok(e0.cur_buf(), lines, so, eo) ==> r is Err && e1.kill_buffer@ == started
    }
}

/// Copies the region into the kill buffer.
pub struct CopyRegion;

impl Command for CopyRegion {
    fn execute(&self, editor: &mut Editor, f: bool, n: usize) -> (r: Result<()>)
        ensures
            region_copied(&*old(editor), &*final(editor), r),
    {
        let (sl, so, el, eo) = region_bounds(editor)?;
        proof {
            lemma_region_lines(editor.cur_buf(), editor.cur_win());
        }
        if !editor.last_flag.intersects(CmdFlags::kill()) {
            editor.kdelete();
            assert(editor.kill_buffer@ =~= Seq::<u8>::empty());
        }
        editor.this_flag = editor.this_flag.union(CmdFlags::kill());
        let w = editor.cur_window()?;
        let copied = match editor.buffers.get(w.buffer_id) {
            Some(b) => copy_region_text(b, sl, so, el, eo),
            None => None,
        };
        match copied {
            Some(mut c) => {
                editor.kill_buffer.append(&mut c);
                Ok(())
            },
            None => Err(Error::Abort),
        }
    }
}

} // verus!

verus! {

/// `x + y`, held at `usize::MAX`.
pub open spec fn sat(x: int) -> nat {
    if x > usize::MAX {
        usize::MAX as nat
    } else if x < 0 {
        0
    } else {
        x as nat
    }
}

/// The number of bytes of the first `k` parts of a region, counting a byte for each line
/// end between them, the first part counted from `so` to its end (or to `eo` on a single
/// line).
pub open spec fn region_size(b: Buffer, lines: Seq<usize>, so: usize, eo: usize, k: int) -> nat
    decreases k,
{
    if k <= 0 {
        0
    } else if k == 1 {
        if lines.len() == 1 {
            sat(eo - so)
        } else {
            sat(b.text_of(lines[0]).len() - so)
        }
    } else {
        sat(
            region_size(b, lines, so, eo, k - 1) + 1 + (if k - 1 == lines.len() - 1 {
                eo as int
            } else {
                b.text_of(lines[k - 1]).len() as int
            }),
        )
    }
}

/// Killing the region puts the dot at its start and kills from there as many characters
/// as the region has bytes in the buffer's flat text (its lines joined by newlines), from
/// its start to its end: one for each byte of its lines and one for each line end between
/// them.
pub proof fn lemma_kill_region_flat(e0: &Editor, e1: &Editor, r: Result<()>)
    requires
        e0.wf(),
        region_killed(e0, e1, r),
        cur_region(e0) is Some,
    ensures
        ({
            let (sl, so, el, eo) = cur_region(e0).unwrap();
            let b = e0.cur_buf();
            let start = flat_index(&b, b.ring_pos(sl), so as int);
            let end = flat_index(&b, b.ring_pos(el), eo as int);
            &&& 0 <= start <= end <= flat(&b).len()
            &&& exists|mid: Editor|
                mid.wf() && #[trigger] kill_started(&mid, e0) && mid.windows_with_cur(
                    e0,
                    Window { dot_line: LineId(sl), dot_offset: LineOffset(so), ..e0.cur_win() },
                ) && mid.buffers == e0.buffers && region_killed_after(mid, *e1, sat(end - start) as usize, r)
        }),
{
    let (sl, so, el, eo) = cur_region(e0).unwrap();
    let b = e0.cur_buf();
    lemma_region_size_flat(b, e0.cur_win());
    lemma_region_lines(b, e0.cur_win());
    lemma_region_text_flat(b, sl, el, so, eo, region_lines(b, sl, el).len() as int);
    lemma_line_start_nonneg(ring_texts(&b), b.ring_pos(sl));
    b.lemma_ring_pos(el);
}

/// A buffer's flat text is that of its text model.
proof fn lemma_flat_of_model(b: Buffer)
    requires
        b.wf(),
    ensures
        model_ok(b.model()),
        model_ring(b.model()) == b.ring(),
        model_texts(b.model()) == ring_texts(&b),
        flat(&b) == model_flat(b.model()),
{
    let m = b.model();
    assert(model_ring(m) =~= b.ring());
    assert(ring_ids(&b) =~= b.ring());
    assert forall|k: int| 0 <= k < b.ring().len() implies #[trigger] model_texts(m)[k] == ring_texts(&b)[k] by {
        b.lemma_ring_entry(k);
    }
    assert(model_texts(m) =~= ring_texts(&b));
    assert forall|k: int| 0 <= k < m.ids.len() implies 0 < #[trigger] m.ids[k] < m.arena.len() by {
        b.lemma_pos_of(k);
    }
}

/// Killing a region whose bytes are all single-byte characters and line ends removes
/// exactly those bytes: afterwards the flat text of the buffer (its lines joined by
/// newlines) is the old one with the slice from the region's start to its end taken out,
/// and the kill buffer has gained that slice (after itself when the last command killed,
/// alone otherwise).
pub proof fn lemma_kill_region_removes_slice(e0: &Editor, e1: &Editor, r: Result<()>)
    requires
        e0.wf(),
        region_killed(e0, e1, r),
        cur_region(e0) is Some,
        ({
            let (sl, so, el, eo) = cur_region(e0).unwrap();
            let b = e0.cur_buf();
            let start = flat_index(&b, b.ring_pos(sl), so as int);
            let end = flat_index(&b, b.ring_pos(el), eo as int);
            &&& end - start <= usize::MAX
            &&& forall|i: int| start <= i < end ==> #[trigger] flat(&b)[i] < 0x80
        }),
    ensures
        ({
            let (sl, so, el, eo) = cur_region(e0).unwrap();
            let b = e0.cur_buf();
            let b1 = e1.buffers.seq()[e0.cur_win().buffer_id.0 as int];
            let f = flat(&b);
            let start = flat_index(&b, b.ring_pos(sl), so as int);
            let end = flat_index(&b, b.ring_pos(el), eo as int);
            &&& r is Ok
            &&& e1.buffers.seq().len() == e0.buffers.seq().len()
            &&& flat(&b1) == f.subrange(0, start) + f.subrange(end, f.len() as int)
            &&& e1.kill_buffer@ == (if e0.last_flag.0 & CmdFlags::kill().0 != 0 {
                e0.kill_buffer@
            } else {
                Seq::<u8>::empty()
            }) + f.subrange(start, end)
        }),
{
    let (sl, so, el, eo) = cur_region(e0).unwrap();
    let b = e0.cur_buf();
    let w0 = e0.cur_win();
    let f = flat(&b);
    let p = b.ring_pos(sl);
    let start = flat_index(&b, p, so as int);
    let end = flat_index(&b, b.ring_pos(el), eo as int);
    lemma_kill_region_flat(e0, e1, r);
    lemma_region_size_flat(b, w0);
    lemma_region_lines(b, w0);
    lemma_flat_of_model(b);
    b.lemma_ring_pos(sl);
    let lines = region_lines(b, sl, el);
    assert(part_from(0, so) <= part_to(b, lines, 0, eo) <= b.text_of(lines[0]).len());
    let n = (end - start) as nat;
    let mid = choose|mid: Editor|
        mid.wf() && #[trigger] kill_started(&mid, e0) && mid.windows_with_cur(
            e0,
            Window { dot_line: LineId(sl), dot_offset: LineOffset(so), ..e0.cur_win() },
        ) && mid.buffers == e0.buffers && region_killed_after(mid, *e1, n as usize, r);
    let wm = Window { dot_line: LineId(sl), dot_offset: LineOffset(so), ..w0 };
    e0.windows.lemma_current_exists();
    let i = e0.windows.cur_index().unwrap();
    mid.windows.lemma_index_of(i);
    assert(mid.cur() == Some(wm));
    let e2 = choose|e2: Editor|
        #[trigger] killed_chars(&mid, &e2, n as usize, r) && e2.wf() && (r is Ok ==> e1.only_cur_window_now(
            &e2,
            Window {
                mark_line: None,
                mark_offset: LineOffset(0),
                flags: WindowFlags(e2.cur_win().flags.0 | WindowFlags::hard().0),
                ..e2.cur_win()
            },
        )) && (r is Err ==> *e1 == e2);
    lemma_kill_steps_flat(b.model(), sl, so, p, n);
    assert(mid.cur_buf() == b);
    let bid = w0.buffer_id.0 as int;
    assert(e2.cur_win() == wm);
    assert(e2.buffers.seq()[bid].wf());
    lemma_flat_of_model(e2.buffers.seq()[bid]);
}

/// From the editor `mid`, where the dot is at the start of the region, `size` characters
/// were killed and, when that worked, the mark cleared and the window marked for a redraw.
pub open spec fn region_killed_after(mid: Editor, e1: Editor, size: usize, r: Result<()>) -> bool {
    exists|e2: Editor|
        #[trigger] killed_chars(&mid, &e2, size, r) && e2.wf() && (r is Ok ==> e1.only_cur_window_now(
            &e2,
            Window {
                mark_line: None,
                mark_offset: LineOffset(0),
                flags: WindowFlags(e2.cur_win().flags.0 | WindowFlags::hard().0),
                ..e2.cur_win()
            },
        )) && (r is Err ==> e1 == e2)
}

/// What killing the region does: the dot goes to its start and its characters are killed.
pub open spec fn region_killed(e0: &Editor, e1: &Editor, r: Result<()>) -> bool {
    if !e0.has_cur() || region_of(e0.cur_buf(), e0.cur_win()) is None {
        r is Err && *e1 == *e0
    } else {
        let (sl, so, el, eo) = region_of(e0.cur_buf(), e0.cur_win()).unwrap();
        let lines = region_lines(e0.cur_buf(), sl, el);
        let size = region_size(e0.cur_buf(), lines, so, eo, lines.len() as int) as usize;
        exists|mid: Editor|
            mid.wf() && #[trigger] kill_started(&mid, e0) && mid.windows_with_cur(
                e0,
                Window { dot_line: LineId(sl), dot_offset: LineOffset(so), ..e0.cur_win() },
            ) && mid.buffers == e0.buffers && region_killed_after(mid, *e1, size, r)
    }
}

/// The byte count of the region, as `region_size` says.
fn region_byte_count(b: &Buffer, sl: LineId, so: usize, el: LineId, eo: usize) -> (r: usize)
    requires
        b.wf(),
        b.in_ring(sl.0),
        b.in_ring(el.0),
        b.ring_pos(sl.0) <= b.ring_pos(el.0),
        sl.0 == el.0 ==> so <= eo,
    ensures
        r == region_size(*b, region_lines(*b, sl.0, el.0), so, eo, region_lines(*b, sl.0, el.0).len() as int),
{
    let ghost lines = region_lines(*b, sl.0, el.0);
    proof {
        b.lemma_ring_pos(sl.0);
        b.lemma_ring_pos(el.0);
        assert forall|i: int| 0 <= i < lines.len() implies #[trigger] lines[i] < b.lines@.len()
            && b.ring_pos(lines[i]) == b.ring_pos(sl.0) + i by {
            b.lemma_ring_entry(b.ring_pos(sl.0) + i);
        }
    }
    if sl.0 == el.0 {
        proof {
            assert(lines.len() == 1);
        }
        return eo - so;
    }
    let len0 = match b.line_len(sl) {
        Some(x) => x,
        None => 0,
    };
    let mut size: usize = if len0 > so {
        len0 - so
    } else {
        0
    };
    let ps = match ring_index(b, sl) {
        Some(x) => x,
        None => 0,
    };
    let pe = match ring_index(b, el) {
        Some(x) => x,
        None => 0,
    };
    let count = pe - ps + 1;
    let mut cur = sl;
    let mut i: usize = 1;
    proof {
        assert(lines.len() > 1) by {
            if lines.len() == 1 {
                assert(lines.last() == el.0);
            }
        }
    }
    while i < count
        invariant
            b.wf(),
            lines == region_lines(*b, sl.0, el.0),
            lines.len() > 1,
            b.in_ring(sl.0),
            b.ring_pos(sl.0) <= b.ring_pos(el.0),
            lines.len() == b.ring_pos(el.0) - b.ring_pos(sl.0) + 1,
            forall|k: int| 0 <= k < lines.len() ==> #[trigger] lines[k] < b.lines@.len()
                && b.ring_pos(lines[k]) == b.ring_pos(sl.0) + k,
            1 <= i <= lines.len(),
            count == lines.len(),
            b.ring_pos(el.0) < b.ring().len(),
            0 <= b.ring_pos(sl.0),
            cur.0 == lines[i - 1],
            size == region_size(*b, lines, so, eo, i as int),
        decreases lines.len() - i,
    {
        proof {
            b.lemma_ring_entry(b.ring_pos(sl.0) + i);
            b.lemma_ring_entry(b.ring_pos(sl.0) + i - 1);
            if b.ring_pos(sl.0) + i - 1 > 0 {
                b.lemma_pos_of(b.ring_pos(sl.0) + i - 2);
            }
            b.lemma_pos_of(b.ring_pos(sl.0) + i - 1);
        }
        let next = match b.next_line(cur) {
            Some(x) => x,
            None => return size,
        };
        let add = if i == count - 1 {
            eo
        } else {
            match b.line_len(next) {
                Some(x) => x,
                None => 0,
            }
        };
        size = size.saturating_add(1).saturating_add(add);
        cur = next;
        i += 1;
    }
    size
}

/// Kills the region; the dot goes to its start and the mark is cleared.
pub struct KillRegion;

impl Command for KillRegion {
    fn execute(&self, editor: &mut Editor, f: bool, n: usize) -> (r: Result<()>)
        ensures
            region_killed(&*old(editor), &*final(editor), r),
    {
        let (sl, so, el, eo) = region_bounds(editor)?;
        proof {
            lemma_region_lines(editor.cur_buf(), editor.cur_win());
        }
        let ghost e0 = *editor;
        if !editor.last_flag.intersects(CmdFlags::kill()) {
            editor.kdelete();
            assert(editor.kill_buffer@ =~= Seq::<u8>::empty());
        }
        editor.this_flag = editor.this_flag.union(CmdFlags::kill());
        let w = editor.cur_window()?;
        let size = match editor.buffers.get(w.buffer_id) {
            Some(b) => region_byte_count(b, sl, so, el, eo),
            None => return Err(Error::Abort),
        };
        editor.set_cur_window(Window { dot_line: sl, dot_offset: LineOffset(so), ..w });
        let ghost mid = *editor;
        let r = kill_n_chars(editor, size);
        if r.is_ok() {
            let mut w2 = editor.cur_window()?;
            w2.clear_mark();
            w2.set_flag(WindowFlags::hard());
            editor.set_cur_window(w2);
        }
        proof {
            assert(region_killed_after(mid, *editor, size, r));
            assert(kill_started(&mid, &e0));
        }
        r
    }
}

} // verus!

verus! {

/// Which way `transform_region` changes letters.
#[derive(Clone, Copy, PartialEq, Eq, Structural)]
pub enum CaseChange {
    Lower,
    Upper,
}

/// The byte `c` changed as `k` says (ASCII letters only).
pub open spec fn case_of(k: CaseChange, c: u8) -> u8 {
    match k {
        CaseChange::Lower => if 65 <= c <= 90 {
            (c + 32) as u8
        } else {
            c
        },
        CaseChange::Upper => if 97 <= c <= 122 {
            (c - 32) as u8
        } else {
            c
        },
    }
}

/// `t` with the bytes from `from` to `to` changed as `k` says.
pub open spec fn case_span(t: Seq<u8>, from: int, to: int, k: CaseChange) -> Seq<u8> {
    Seq::new(t.len(), |i: int| if from <= i < to { case_of(k, t[i]) } else { t[i] })
}

/// The index of line `x` among the lines of the region that starts at `sl`.
pub open spec fn region_index(b: Buffer, sl: usize, x: usize) -> int {
    b.ring_pos(x) - b.ring_pos(sl)
}

/// The arena with the parts of the first `k` lines of the region changed.
pub open spec fn cased_arena(b: Buffer, lines: Seq<usize>, so: usize, eo: usize, kind: CaseChange, k: int) -> Seq<Seq<u8>> {
    Seq::new(
        b.lines@.len(),
        |x: int|
            if b.in_ring(x as usize) && 0 <= region_index(b, lines[0], x as usize) < k {
                case_span(
                    b.text_of(x as usize),
                    part_from(region_index(b, lines[0], x as usize), so),
                    part_to(b, lines, region_index(b, lines[0], x as usize), eo),
                    kind,
                )
            } else {
                b.text_of(x as usize)
            },
    )
}

/// Some part of the first `k` lines of the region changes.
pub open spec fn some_cased(b: Buffer, lines: Seq<usize>, so: usize, eo: usize, kind: CaseChange, k: int) -> bool {
    exists|i: int|
        0 <= i < k && #[trigger] case_span(
            b.text_of(lines[i]),
            part_from(i, so),
            part_to(b, lines, i, eo),
            kind,
        ) != b.text_of(lines[i])
}

/// `t2` is `t` with each byte from `from` to `to` replaced by what `f` may give for it.
pub open spec fn span_mapped<F: Fn(u8) -> u8>(f: F, t: Seq<u8>, from: int, to: int, t2: Seq<u8>) -> bool {
    &&& t2.len() == t.len()
    &&& forall|i: int|
        0 <= i < t.len() ==> if from <= i < to {
            call_ensures(f, (t[i],), #[trigger] t2[i])
        } else {
            t2[i] == t[i]
        }
}

/// `a` is the arena of `b` with the parts of the first `k` lines of the region mapped by `f`.
pub open spec fn arena_mapped<F: Fn(u8) -> u8>(b: Buffer, lines: Seq<usize>, so: usize, eo: usize, f: F, k: int, a: Seq<Seq<u8>>) -> bool {
    &&& a.len() == b.lines@.len()
    &&& forall|x: int|
        0 <= x < a.len() ==> if b.in_ring(x as usize) && 0 <= region_index(b, lines[0], x as usize) < k {
            span_mapped(
                f,
                b.text_of(x as usize),
                part_from(region_index(b, lines[0], x as usize), so),
                part_to(b, lines, region_index(b, lines[0], x as usize), eo),
                #[trigger] a[x],
            )
        } else {
            a[x] == b.text_of(x as usize)
        }
}

/// One of the first `k` lines of the region reads otherwise in `a` than in `b`.
pub open spec fn arena_changed(b: Buffer, lines: Seq<usize>, a: Seq<Seq<u8>>, k: int) -> bool {
    exists|i: int| 0 <= i < k && #[trigger] a[lines[i] as int] != b.text_of(lines[i])
}

/// The undo records of the first `i` lines of the region `lines` (parts from `so` on the
/// first line to `eo` on the last) whose bytes differ in `a` from those of `b`: for each,
/// in turn, the old bytes of its part taken out and the new ones put in.
pub open spec fn region_records(b: Buffer, lines: Seq<usize>, so: usize, eo: usize, a: Seq<Seq<u8>>, i: int) -> Seq<ActionView>
    decreases i,
{
    if i <= 0 {
        Seq::empty()
    } else {
        let k = i - 1;
        let l = lines[k];
        let t = b.text_of(l);
        let t2 = a[l as int];
        let from = part_from(k, so);
        let to = part_to(b, lines, k, eo);
        region_records(b, lines, so, eo, a, k) + (if t2 != t {
            seq![
                ActionView::Delete { line: l, offset: from as usize, data: t.subrange(from, to) },
                ActionView::Insert { line: l, offset: from as usize, data: t2.subrange(from, to) },
            ]
        } else {
            Seq::empty()
        })
    }
}

/// The records of the first `i` lines do not depend on the bytes of the other lines.
proof fn lemma_region_records_frame(
    b: Buffer,
    lines: Seq<usize>,
    so: usize,
    eo: usize,
    a1: Seq<Seq<u8>>,
    a2: Seq<Seq<u8>>,
    i: int,
)
    requires
        0 <= i <= lines.len(),
        forall|k: int| 0 <= k < i ==> a1[#[trigger] lines[k] as int] == a2[lines[k] as int],
    ensures
        region_records(b, lines, so, eo, a1, i) == region_records(b, lines, so, eo, a2, i),
    decreases i,
{
    if i > 0 {
        lemma_region_records_frame(b, lines, so, eo, a1, a2, i - 1);
        assert(a1[lines[i - 1] as int] == a2[lines[i - 1] as int]);
    }
}

/// What mapping the bytes of the region with `f` does; a change is recorded for undo (see
/// `region_records`).
pub open spec fn region_mapped<F: Fn(u8) -> u8>(e0: &Editor, e1: &Editor, f: F, r: Result<()>) -> bool {
    if cur_region(e0) is None {
        r is Err && *e1 == *e0
    } else {
        let (sl, so, el, eo) = cur_region(e0).unwrap();
        let b = e0.cur_buf();
        let w = e0.cur_win();
        let lines = region_lines(b, sl, el);
        let a = e1.cur_buf().model().arena;
        let changed = arena_changed(b, lines, a, lines.len() as int);
        &&& r is Ok
        &&& e1.changed_cur(
            e0,
            Window {
                mark_line: None,
                mark_offset: LineOffset(0),
                flags: WindowFlags(
                    w.flags.0 | (if sl != el {
                        WindowFlags::hard()
                    } else {
                        WindowFlags::edited()
                    }).0,
                ),
                ..w
            },
            e1.cur_buf(),
        )
        &&& e1.cur_buf().ids() == b.ids()
        &&& arena_mapped(b, lines, so, eo, f, lines.len() as int, a)
        &&& same_meta(e1.cur_buf(), b)
        &&& e1.cur_buf().flags == (if changed {
            BufferFlags(b.flags.0 | BufferFlags::changed().0)
        } else {
            b.flags
        })
        &&& e1.undo_grown(e0, if changed {
            1
        } else {
            0
        })
        &&& changed ==> recorded(e0, e1, region_records(b, lines, so, eo, a, lines.len() as int))
    }
}

/// What changing the case of the region does.
pub open spec fn region_cased(e0: &Editor, e1: &Editor, kind: CaseChange, r: Result<()>) -> bool {
    if cur_region(e0) is None {
        r is Err && *e1 == *e0
    } else {
        let (sl, so, el, eo) = cur_region(e0).unwrap();
        let b = e0.cur_buf();
        let w = e0.cur_win();
        let lines = region_lines(b, sl, el);
        let changed = some_cased(b, lines, so, eo, kind, lines.len() as int);
        &&& r is Ok
        &&& e1.changed_cur(
            e0,
            Window {
                mark_line: None,
                mark_offset: LineOffset(0),
                flags: WindowFlags(
                    w.flags.0 | (if sl != el {
                        WindowFlags::hard()
                    } else {
                        WindowFlags::edited()
                    }).0,
                ),
                ..w
            },
            e1.cur_buf(),
        )
        &&& e1.cur_buf().model() == (TextModel {
            ids: b.ids(),
            arena: cased_arena(b, lines, so, eo, kind, lines.len() as int),
        })
        &&& same_meta(e1.cur_buf(), b)
        &&& e1.cur_buf().flags == (if changed {
            BufferFlags(b.flags.0 | BufferFlags::changed().0)
        } else {
            b.flags
        })
        &&& e1.undo_grown(e0, if changed {
            1
        } else {
            0
        })
        &&& changed ==> recorded(
            e0,
            e1,
            region_records(b, lines, so, eo, cased_arena(b, lines, so, eo, kind, lines.len() as int), lines.len() as int),
        )
    }
}

/// The bytes of `t` with those from `from` to `to` mapped by `f`.
fn map_bytes<F: Fn(u8) -> u8>(t: &Vec<u8>, from: usize, to: usize, f: &F) -> (r: Vec<u8>)
    requires
        from <= to <= t@.len(),
        forall|x: u8| call_requires(*f, (x,)),
    ensures
        span_mapped(*f, t@, from as int, to as int, r@),
{
    let mut out: Vec<u8> = Vec::new();
    let mut i: usize = 0;
    while i < t.len()
        invariant
            i <= t@.len(),
            from <= to <= t@.len(),
            forall|x: u8| call_requires(*f, (x,)),
            out@.len() == i,
            forall|j: int|
                0 <= j < i ==> if from <= j < to {
                    call_ensures(*f, (t@[j],), #[trigger] out@[j])
                } else {
                    out@[j] == t@[j]
                },
        decreases t@.len() - i,
    {
        let c = t[i];
        let d = if from <= i && i < to {
            f(c)
        } else {
            c
        };
        out.push(d);
        i += 1;
    }
    out
}

/// One more line of the region mapped.
proof fn lemma_mapped_step<F: Fn(u8) -> u8>(
    b0: Buffer,
    lines: Seq<usize>,
    so: usize,
    eo: usize,
    f: F,
    i: int,
    pre: Seq<Seq<u8>>,
    nt: Seq<u8>,
)
    requires
        b0.wf(),
        0 <= i < lines.len(),
        forall|k: int| 0 <= k < lines.len() ==> #[trigger] lines[k] < b0.lines@.len()
            && b0.ring_pos(lines[k]) == b0.ring_pos(lines[0]) + k && b0.in_ring(lines[k]),
        arena_mapped(b0, lines, so, eo, f, i, pre),
        span_mapped(f, b0.text_of(lines[i]), part_from(i, so), part_to(b0, lines, i, eo), nt),
    ensures
        arena_mapped(b0, lines, so, eo, f, i + 1, pre.update(lines[i] as int, nt)),
        arena_changed(b0, lines, pre.update(lines[i] as int, nt), i + 1) == (arena_changed(
            b0,
            lines,
            pre,
            i,
        ) || nt != b0.text_of(lines[i])),
{
    let cur = lines[i];
    let post = pre.update(cur as int, nt);
    b0.lemma_ring_pos(cur);
    assert forall|x: int| 0 <= x < post.len() implies if b0.in_ring(x as usize) && 0 <= region_index(
        b0,
        lines[0],
        x as usize,
    ) < i + 1 {
        span_mapped(
            f,
            b0.text_of(x as usize),
            part_from(region_index(b0, lines[0], x as usize), so),
            part_to(b0, lines, region_index(b0, lines[0], x as usize), eo),
            #[trigger] post[x],
        )
    } else {
        post[x] == b0.text_of(x as usize)
    } by {
        if x == cur {
            assert(region_index(b0, lines[0], cur) == i);
        } else if b0.in_ring(x as usize) && region_index(b0, lines[0], x as usize) == i {
            b0.lemma_ring_pos(x as usize);
            assert(x == cur);
        }
    }
    assert forall|j: int| 0 <= j < i implies #[trigger] post[lines[j] as int] == pre[lines[j] as int] by {
        assert(b0.ring_pos(lines[j]) != b0.ring_pos(cur));
    }
    if arena_changed(b0, lines, post, i + 1) && !arena_changed(b0, lines, pre, i) {
        let j = choose|j: int| 0 <= j < i + 1 && #[trigger] post[lines[j] as int] != b0.text_of(lines[j]);
        if j < i {
            assert(post[lines[j] as int] == pre[lines[j] as int]);
        }
    }
    if arena_changed(b0, lines, pre, i) {
        let j = choose|j: int| 0 <= j < i && #[trigger] pre[lines[j] as int] != b0.text_of(lines[j]);
        assert(post[lines[j] as int] == pre[lines[j] as int]);
    }
    if nt != b0.text_of(lines[i]) {
        assert(post[lines[i] as int] == nt);
    }
}

/// Mapping the region with a function that changes case as `kind` says is changing its case.
proof fn lemma_mapped_is_cased<F: Fn(u8) -> u8>(
    b: Buffer,
    lines: Seq<usize>,
    so: usize,
    eo: usize,
    f: F,
    kind: CaseChange,
    a: Seq<Seq<u8>>,
)
    requires
        b.wf(),
        lines.len() >= 1,
        forall|k: int| 0 <= k < lines.len() ==> #[trigger] lines[k] < b.lines@.len()
            && b.ring_pos(lines[k]) == b.ring_pos(lines[0]) + k && b.in_ring(lines[k]),
        arena_mapped(b, lines, so, eo, f, lines.len() as int, a),
        forall|x: u8, y: u8| call_ensures(f, (x,), y) ==> y == case_of(kind, x),
    ensures
        a == cased_arena(b, lines, so, eo, kind, lines.len() as int),
        arena_changed(b, lines, a, lines.len() as int) == some_cased(b, lines, so, eo, kind, lines.len() as int),
{
    let n = lines.len() as int;
    let ca = cased_arena(b, lines, so, eo, kind, n);
    assert forall|x: int| 0 <= x < a.len() implies #[trigger] a[x] == ca[x] by {
        if b.in_ring(x as usize) && 0 <= region_index(b, lines[0], x as usize) < n {
            let k = region_index(b, lines[0], x as usize);
            let t = b.text_of(x as usize);
            assert(span_mapped(f, t, part_from(k, so), part_to(b, lines, k, eo), a[x]));
            assert(a[x] =~= case_span(t, part_from(k, so), part_to(b, lines, k, eo), kind)) by {
                assert forall|i: int| 0 <= i < t.len() implies a[x][i] == case_span(
                    t,
                    part_from(k, so),
                    part_to(b, lines, k, eo),
                    kind,
                )[i] by {
                    if part_from(k, so) <= i < part_to(b, lines, k, eo) {
                        assert(call_ensures(f, (t[i],), a[x][i]));
                    }
                }
            }
        }
    }
    assert(a =~= ca);
    assert forall|i: int| 0 <= i < n implies #[trigger] a[lines[i] as int] == case_span(
        b.text_of(lines[i]),
        part_from(i, so),
        part_to(b, lines, i, eo),
        kind,
    ) by {
        assert(region_index(b, lines[0], lines[i]) == i);
        assert(ca[lines[i] as int] == case_span(b.text_of(lines[i]), part_from(i, so), part_to(b, lines, i, eo), kind));
    }
    if arena_changed(b, lines, a, n) {
        let j = choose|j: int| 0 <= j < n && #[trigger] a[lines[j] as int] != b.text_of(lines[j]);
        assert(a[lines[j] as int] == case_span(b.text_of(lines[j]), part_from(j, so), part_to(b, lines, j, eo), kind));
    }
    if some_cased(b, lines, so, eo, kind, n) {
        let j = choose|j: int| 0 <= j < n && #[trigger] case_span(
            b.text_of(lines[j]),
            part_from(j, so),
            part_to(b, lines, j, eo),
            kind,
        ) != b.text_of(lines[j]);
        assert(a[lines[j] as int] == case_span(b.text_of(lines[j]), part_from(j, so), part_to(b, lines, j, eo), kind));
    }
}

/// Replaces each byte of the region by what `transform` gives for it; clears the mark.
#[verifier::rlimit(50)]
pub fn transform_region<F: Fn(u8) -> u8>(editor: &mut Editor, transform: F) -> (r: Result<()>)
    requires
        old(editor).wf(),
        forall|x: u8| call_requires(transform, (x,)),
    ensures
        final(editor).wf(),
        region_mapped(&*old(editor), &*final(editor), transform, r),
{
    let (sl, so, el, eo) = region_bounds(editor)?;
    proof {
        lemma_region_lines(editor.cur_buf(), editor.cur_win());
    }
    let w0 = editor.cur_window()?;
    let ok = match editor.buffers.get(w0.buffer_id) {
        Some(b) => copy_region_text(b, sl, so, el, eo).is_some(),
        None => false,
    };
    if !ok {
        return Err(Error::Abort);
    }
    let ghost e0 = *editor;
    let ghost lines = region_lines(e0.cur_buf(), sl.0, el.0);
    let (w, mut b) = editor.take_cur();
    let ghost b0 = b;
    proof {
        assert forall|i: int| 0 <= i < lines.len() implies #[trigger] lines[i] < b0.lines@.len()
            && b0.ring_pos(lines[i]) == b0.ring_pos(sl.0) + i && b0.in_ring(lines[i]) by {
            b0.lemma_ring_entry(b0.ring_pos(sl.0) + i);
        }
        assert(arena_mapped(b0, lines, so, eo, transform, 0, b0.model().arena));
    }
    let mut actions: Vec<UndoAction> = Vec::new();
    let mut changed = false;
    let mut cur = sl;
    let mut i: usize = 0;
    loop
        invariant_except_break
            i < lines.len(),
            cur.0 == lines[i as int],
        invariant
            b0.wf(),
            b.wf(),
            lines == region_lines(b0, sl.0, el.0),
            lines.len() >= 1,
            lines[0] == sl.0,
            lines.last() == el.0,
            lines.no_duplicates(),
            b0.in_ring(sl.0),
            b0.in_ring(el.0),
            b0.ring_pos(sl.0) <= b0.ring_pos(el.0),
            parts_ok(b0, lines, so, eo),
            forall|k: int| 0 <= k < lines.len() ==> #[trigger] lines[k] < b0.lines@.len()
                && b0.ring_pos(lines[k]) == b0.ring_pos(sl.0) + k && b0.in_ring(lines[k]),
            b.ids() == b0.ids(),
            b.lines@.len() == b0.lines@.len(),
            forall|x: u8| call_requires(transform, (x,)),
            arena_mapped(b0, lines, so, eo, transform, i as int, b.model().arena),
            changed == arena_changed(b0, lines, b.model().arena, i as int),
            actions_view(actions@) == region_records(b0, lines, so, eo, b.model().arena, i as int),
            same_meta(b, b0),
            b.flags == b0.flags,
        ensures
            i == lines.len(),
        decreases lines.len() - i,
    {
        let is_last = cur.0 == el.0;
        proof {
            b0.lemma_ring_pos(el.0);
            if is_last {
                assert(i == lines.len() - 1);
            } else {
                assert(i != lines.len() - 1) by {
                    if i == lines.len() - 1 {
                        assert(lines.last() == el.0);
                    }
                }
            }
        }
        let old_text = match b.line(cur) {
            Some(l) => l.text.clone(),
            None => Vec::new(),
        };
        proof {
            assert(region_index(b0, lines[0], cur.0) == i);
            assert(b.model().arena[cur.0 as int] == b0.text_of(cur.0));
            assert(old_text@ == b.lines@[cur.0 as int].text@);
            assert(old_text@ == b0.text_of(cur.0));
        }
        let from = if i == 0 {
            so
        } else {
            0
        };
        let to = if is_last {
            eo
        } else {
            old_text.len()
        };
        proof {
            assert(part_from(i as int, so) <= part_to(b0, lines, i as int, eo) <= b0.text_of(lines[i as int]).len());
        }
        let new_text = map_bytes(&old_text, from, to, &transform);
        let ghost pre = b.model().arena;
        let ghost nt = new_text@;
        let ghost a0 = actions_view(actions@);
        let ghost ot = old_text@;
        if !crate::edit::commands::rewrite::bytes_equal(&new_text, &old_text) {
            let old_part = crate::edit::commands::searching::bytes_between(&old_text, from, to);
            let new_part = crate::edit::commands::searching::bytes_between(&new_text, from, to);
            let ghost bb = b;
            b.set_line_text(cur, new_text);
            proof {
                assert(b.model().arena =~= pre.update(cur.0 as int, nt)) by {
                    assert forall|k: int| 0 <= k < b.lines@.len() implies #[trigger] b.model().arena[k]
                        == pre.update(cur.0 as int, nt)[k] by {
                        if k != cur.0 {
                            assert(b.text_of(k as usize) == bb.text_of(k as usize));
                        }
                    }
                }
            }
            let ghost opv = old_part@;
            let ghost npv = new_part@;
            actions.push(UndoAction::Delete { line: cur, offset: from, data: old_part });
            actions.push(UndoAction::Insert { line: cur, offset: from, data: new_part });
            proof {
                assert(actions_view(actions@) =~= a0 + seq![
                    ActionView::Delete { line: cur.0, offset: from, data: opv },
                    ActionView::Insert { line: cur.0, offset: from, data: npv },
                ]);
            }
            changed = true;
        } else {
            assert(pre.update(cur.0 as int, nt) =~= pre);
            assert(actions_view(actions@) =~= a0 + Seq::<ActionView>::empty());
        }
        proof {
            lemma_mapped_step(b0, lines, so, eo, transform, i as int, pre, nt);
            assert(b.model().arena == pre.update(cur.0 as int, nt));
            let a2 = pre.update(cur.0 as int, nt);
            assert forall|k: int| 0 <= k < i implies a2[#[trigger] lines[k] as int] == pre[lines[k] as int] by {
                assert(lines[k] != lines[i as int]);
            }
            lemma_region_records_frame(b0, lines, so, eo, a2, pre, i as int);
            assert(a2[cur.0 as int] == nt);
            assert(ot == b0.text_of(lines[i as int]));
        }
        i += 1;
        if is_last {
            break;
        }
        proof {
            b0.lemma_ring_entry(b0.ring_pos(sl.0) + i);
            b0.lemma_ring_entry(b0.ring_pos(sl.0) + i - 1);
            if b0.ring_pos(sl.0) + i - 1 > 0 {
                b0.lemma_pos_of(b0.ring_pos(sl.0) + i - 2);
            }
            b0.lemma_pos_of(b0.ring_pos(sl.0) + i - 1);
            b0.lemma_ring_pos(el.0);
        }
        match b.next_line(cur) {
            Some(x) => {
                cur = x;
            },
            None => {
                proof {
                    assert(false);
                }
                break;
            },
        }
    }
    if changed {
        b.flags = b.flags.union(BufferFlags::changed());
    }
    let mut w1 = w;
    w1.clear_mark();
    if sl.0 != el.0 {
        w1.set_flag(WindowFlags::hard());
    } else {
        w1.set_flag(WindowFlags::edited());
    }
    editor.commit(w1, b, Ghost(e0));
    if changed {
        editor.push_undo(actions);
    }
    assert(editor.undo_stack@.take(e0.undo_stack@.len() as int) =~= e0.undo_stack@);
    Ok(())
}

/// Mapping the region with a function that changes case as `kind` says changes the case
/// of the region.
proof fn lemma_region_cased<F: Fn(u8) -> u8>(e0: &Editor, e1: &Editor, f: F, kind: CaseChange, r: Result<()>)
    requires
        e0.wf(),
        region_mapped(e0, e1, f, r),
        forall|x: u8, y: u8| call_ensures(f, (x,), y) ==> y == case_of(kind, x),
    ensures
        region_cased(e0, e1, kind, r),
{
    if cur_region(e0) is Some {
        let (sl, so, el, eo) = cur_region(e0).unwrap();
        let b = e0.cur_buf();
        let lines = region_lines(b, sl, el);
        lemma_region_lines(b, e0.cur_win());
        assert forall|k: int| 0 <= k < lines.len() implies #[trigger] lines[k] < b.lines@.len()
            && b.ring_pos(lines[k]) == b.ring_pos(lines[0]) + k && b.in_ring(lines[k]) by {
            b.lemma_ring_entry(b.ring_pos(sl) + k);
        }
        lemma_mapped_is_cased(b, lines, so, eo, f, kind, e1.cur_buf().model().arena);
    }
}

/// Lower-cases the region.
pub struct LowerRegion;

impl Command for LowerRegion {
    fn execute(&self, editor: &mut Editor, f: bool, n: usize) -> (r: Result<()>)
        ensures
            region_cased(&*old(editor), &*final(editor), CaseChange::Lower, r),
    {
        let ghost e0 = *editor;
        let lower = |c: u8| -> (d: u8)
            ensures
                d == case_of(CaseChange::Lower, c),
            {
                if c >= 65 && c <= 90 {
                    c + 32
                } else {
                    c
                }
            };
        let r = transform_region(editor, lower);
        proof {
            lemma_region_cased(&e0, &*editor, lower, CaseChange::Lower, r);
        }
        r
    }
}

/// Upper-cases the region.
pub struct UpperRegion;

impl Command for UpperRegion {
    fn execute(&self, editor: &mut Editor, f: bool, n: usize) -> (r: Result<()>)
        ensures
            region_cased(&*old(editor), &*final(editor), CaseChange::Upper, r),
    {
        let ghost e0 = *editor;
        let upper = |c: u8| -> (d: u8)
            ensures
                d == case_of(CaseChange::Upper, c),
            {
                if c >= 97 && c <= 122 {
                    c - 32
                } else {
                    c
                }
            };
        let r = transform_region(editor, upper);
        proof {
            lemma_region_cased(&e0, &*editor, upper, CaseChange::Upper, r);
        }
        r
    }
}

} // verus!
