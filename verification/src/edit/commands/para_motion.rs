use crate::buffer::Buffer;
use crate::edit::helpers::{in_word, is_para_boundary, letter};
use crate::edit::{Command, Editor};
use crate::types::{Error, LineId, LineOffset, Result, WindowFlags};
use crate::window::Window;
use vstd::prelude::*;

verus! {

/// Whether the byte at `o` of line `l` is a letter.
pub open spec fn word_at(b: Buffer, l: usize, o: usize) -> bool {
    l < b.lines@.len() && o < b.text_of(l).len() && letter(b.text_of(l)[o as int])
}

/// Whether line `l` bounds a paragraph: missing, empty, or not starting with a letter.
pub open spec fn para_edge(b: Buffer, l: usize) -> bool {
    !(l < b.lines@.len() && b.text_of(l).len() > 0 && letter(b.text_of(l)[0]))
}

/// The length of line `l`, zero when there is none.
pub open spec fn len_or_zero(b: Buffer, l: usize) -> usize {
    if l < b.lines@.len() {
        b.text_of(l).len() as usize
    } else {
        0
    }
}

/// Backward from (`l`, `o`) byte by byte (across line starts) to a letter, or to the start
/// of the buffer; at most `fuel` steps.
pub open spec fn back_to_word(b: Buffer, l: usize, o: usize, fuel: nat) -> (usize, usize)
    decreases fuel,
{
    if fuel == 0 || word_at(b, l, o) {
        (l, o)
    } else if o == 0 {
        match b.prev_of(l) {
            Some(p) => back_to_word(b, p, len_or_zero(b, p), (fuel - 1) as nat),
            None => (l, o),
        }
    } else {
        back_to_word(b, l, (o - 1) as usize, (fuel - 1) as nat)
    }
}

/// Back over the lines before `l` that do not bound a paragraph; at most `fuel` steps.
pub open spec fn back_over_para(b: Buffer, l: usize, fuel: nat) -> usize
    decreases fuel,
{
    if fuel == 0 {
        l
    } else {
        match b.prev_of(l) {
            Some(p) => if para_edge(b, p) {
                l
            } else {
                back_over_para(b, p, (fuel - 1) as nat)
            },
            None => l,
        }
    }
}

/// Forward from (`l`, `o`) byte by byte (across line ends) to a letter, or to the end of
/// the buffer; at most `fuel` steps.
pub open spec fn fwd_to_word(b: Buffer, l: usize, o: usize, fuel: nat) -> (usize, usize)
    decreases fuel,
{
    if fuel == 0 || word_at(b, l, o) {
        (l, o)
    } else if o >= len_or_zero(b, l) {
        match b.next_of(l) {
            Some(x) => fwd_to_word(b, x, 0, (fuel - 1) as nat),
            None => (l, o),
        }
    } else {
        fwd_to_word(b, l, (o + 1) as usize, (fuel - 1) as nat)
    }
}

/// One move to the beginning of a paragraph: back to a letter, back over the lines of its
/// paragraph, then forward to its first letter.
pub open spec fn bop_once(b: Buffer, l: usize, o: usize) -> (usize, usize) {
    let f = usize::MAX as nat;
    let (l1, o1) = back_to_word(b, l, o, f);
    let l2 = back_over_para(b, l1, f);
    fwd_to_word(b, l2, 0, f)
}

/// `n` moves to the beginning of a paragraph.
pub open spec fn bop_n(b: Buffer, l: usize, o: usize, n: nat) -> (usize, usize)
    decreases n,
{
    if n == 0 {
        (l, o)
    } else {
        let (l2, o2) = bop_once(b, l, o);
        bop_n(b, l2, o2, (n - 1) as nat)
    }
}

/// Forward over the lines that do not bound a paragraph, to the first that does (or the
/// last line); at most `fuel` steps.
pub open spec fn fwd_to_edge(b: Buffer, l: usize, fuel: nat) -> usize
    decreases fuel,
{
    if fuel == 0 || para_edge(b, l) {
        l
    } else {
        match b.next_of(l) {
            Some(x) => fwd_to_edge(b, x, (fuel - 1) as nat),
            None => l,
        }
    }
}

/// The line after `l` is the next one in the ring, none after the last.
proof fn lemma_next_of_ring(b: Buffer, l: usize)
    requires
        b.wf(),
        b.in_ring(l),
    ensures
        b.next_of(l) == (if b.ring_pos(l) + 1 < b.ring().len() {
            Some(b.ring()[b.ring_pos(l) + 1])
        } else {
            None::<usize>
        }),
{
    b.lemma_ring_pos(l);
    if l != 0 {
        let k = b.pos_of(l);
        assert(b.ids()[k] == l);
        assert(b.ids().contains(l));
    }
}

/// See `lemma_eop_stops_at_edge`; with `fuel` enough to reach the last line.
proof fn lemma_fwd_to_edge(b: Buffer, l: usize, fuel: nat)
    requires
        b.wf(),
        b.in_ring(l),
        fuel + b.ring_pos(l) >= b.ring().len() - 1,
    ensures
        ({
            let r = fwd_to_edge(b, l, fuel);
            &&& b.in_ring(r)
            &&& b.ring_pos(l) <= b.ring_pos(r)
            &&& para_edge(b, r) || b.next_of(r) is None
            &&& forall|k: int| b.ring_pos(l) <= k < b.ring_pos(r) ==> !para_edge(b, #[trigger] b.ring()[k])
        }),
    decreases fuel,
{
    lemma_next_of_ring(b, l);
    b.lemma_ring_pos(l);
    if fuel == 0 || para_edge(b, l) {
    } else {
        match b.next_of(l) {
            Some(x) => {
                let p = b.ring_pos(l);
                b.lemma_ring_entry(p + 1);
                lemma_fwd_to_edge(b, x, (fuel - 1) as nat);
            },
            None => {},
        }
    }
}

/// Moving to the end of a paragraph from a line of the buffer stops at the first line, from
/// that one on, that bounds a paragraph (one that is empty or does not start with a letter),
/// or at the last line when none does: the line reached is such a line or the last, it is
/// not before the start, and every line walked over before it does not bound a paragraph.
pub proof fn lemma_eop_stops_at_edge(b: Buffer, l: usize)
    requires
        b.wf(),
        b.in_ring(l),
    ensures
        ({
            let r = fwd_to_edge(b, l, usize::MAX as nat);
            &&& b.in_ring(r)
            &&& b.ring_pos(l) <= b.ring_pos(r)
            &&& para_edge(b, r) || b.next_of(r) is None
            &&& forall|k: int| b.ring_pos(l) <= k < b.ring_pos(r) ==> !para_edge(b, #[trigger] b.ring()[k])
        }),
{
    b.lemma_ring_pos(l);
    lemma_fwd_to_edge(b, l, usize::MAX as nat);
}

/// `n` moves to the end of a paragraph.
pub open spec fn eop_n(b: Buffer, l: usize, n: nat) -> usize
    decreases n,
{
    if n == 0 {
        l
    } else {
        eop_n(b, fwd_to_edge(b, l, usize::MAX as nat), (n - 1) as nat)
    }
}

/// Any number of moves to the end of a paragraph, from a line of the buffer, ends on a
/// line of the buffer at or after the start; after at least one, that line bounds a
/// paragraph (it is empty or does not start with a letter) or is the last line.
pub proof fn lemma_eop_n_stops_at_edge(b: Buffer, l: usize, n: nat)
    requires
        b.wf(),
        b.in_ring(l),
    ensures
        b.in_ring(eop_n(b, l, n)),
        b.ring_pos(l) <= b.ring_pos(eop_n(b, l, n)),
        n > 0 ==> para_edge(b, eop_n(b, l, n)) || b.next_of(eop_n(b, l, n)) is None,
    decreases n,
{
    if n > 0 {
        let l2 = fwd_to_edge(b, l, usize::MAX as nat);
        lemma_eop_stops_at_edge(b, l);
        lemma_eop_n_stops_at_edge(b, l2, (n - 1) as nat);
        if n > 1 {
        } else {
            assert(eop_n(b, l2, 0) == l2);
        }
    }
}

/// What a paragraph motion does: with no window an error; with no buffer an error unless
/// `n` is zero; else the dot goes to `(l, o)` (when `n` is not zero) and the window is
/// marked as moved.
pub open spec fn para_moved(e0: &Editor, e1: &Editor, n: usize, l: usize, o: usize, r: Result<()>) -> bool {
    let w = e0.cur_win();
    if e0.cur() is None || (n > 0 && !e0.has_cur()) {
        r is Err && *e1 == *e0
    } else {
        r is Ok && e1.only_cur_window_now(
            e0,
            Window {
                dot_line: if n > 0 {
                    LineId(l)
                } else {
                    w.dot_line
                },
                dot_offset: if n > 0 {
                    LineOffset(o)
                } else {
                    w.dot_offset
                },
                flags: WindowFlags(w.flags.0 | WindowFlags::moved().0),
                ..w
            },
        )
    }
}

fn back_to_word_exec(b: &Buffer, l: LineId, o: usize) -> (r: (LineId, usize))
    requires
        b.wf(),
    ensures
        (r.0.0, r.1) == back_to_word(*b, l.0, o, usize::MAX as nat),
{
    let mut fuel: usize = usize::MAX;
    let mut cl = l;
    let mut co = o;
    while fuel > 0
        invariant
            b.wf(),
            back_to_word(*b, l.0, o, usize::MAX as nat) == back_to_word(*b, cl.0, co, fuel as nat),
        decreases fuel,
    {
        if in_word(b, cl, co) {
            return (cl, co);
        }
        if co == 0 {
            match b.prev_line(cl) {
                Some(p) => {
                    let len = match b.line_len(p) {
                        Some(x) => x,
                        None => 0,
                    };
                    cl = p;
                    co = len;
                },
                None => return (cl, co),
            }
        } else {
            co = co - 1;
        }
        fuel -= 1;
    }
    (cl, co)
}

fn back_over_para_exec(b: &Buffer, l: LineId) -> (r: LineId)
    requires
        b.wf(),
    ensures
        r.0 == back_over_para(*b, l.0, usize::MAX as nat),
{
    let mut fuel: usize = usize::MAX;
    let mut cl = l;
    while fuel > 0
        invariant
            b.wf(),
            back_over_para(*b, l.0, usize::MAX as nat) == back_over_para(*b, cl.0, fuel as nat),
        decreases fuel,
    {
        match b.prev_line(cl) {
            Some(p) => {
                if is_para_boundary(b, p) {
                    return cl;
                }
                cl = p;
            },
            None => return cl,
        }
        fuel -= 1;
    }
    cl
}

fn fwd_to_word_exec(b: &Buffer, l: LineId, o: usize) -> (r: (LineId, usize))
    requires
        b.wf(),
    ensures
        (r.0.0, r.1) == fwd_to_word(*b, l.0, o, usize::MAX as nat),
{
    let mut fuel: usize = usize::MAX;
    let mut cl = l;
    let mut co = o;
    while fuel > 0
        invariant
            b.wf(),
            fwd_to_word(*b, l.0, o, usize::MAX as nat) == fwd_to_word(*b, cl.0, co, fuel as nat),
        decreases fuel,
    {
        if in_word(b, cl, co) {
            return (cl, co);
        }
        let len = match b.line_len(cl) {
            Some(x) => x,
            None => 0,
        };
        if co >= len {
            match b.next_line(cl) {
                Some(x) => {
                    cl = x;
                    co = 0;
                },
                None => return (cl, co),
            }
        } else {
            co = co + 1;
        }
        fuel -= 1;
    }
    (cl, co)
}

fn fwd_to_edge_exec(b: &Buffer, l: LineId) -> (r: LineId)
    requires
        b.wf(),
    ensures
        r.0 == fwd_to_edge(*b, l.0, usize::MAX as nat),
{
    let mut fuel: usize = usize::MAX;
    let mut cl = l;
    while fuel > 0
        invariant
            b.wf(),
            fwd_to_edge(*b, l.0, usize::MAX as nat) == fwd_to_edge(*b, cl.0, fuel as nat),
        decreases fuel,
    {
        if is_para_boundary(b, cl) {
            return cl;
        }
        match b.next_line(cl) {
            Some(x) => cl = x,
            None => return cl,
        }
        fuel -= 1;
    }
    cl
}

/// Moves the dot to the beginning of the paragraph (`n` times).
pub struct GotoBop;

impl Command for GotoBop {
    fn execute(&self, editor: &mut Editor, f: bool, n: usize) -> (r: Result<()>)
        ensures
            ({
                let (l, o) = bop_n(
                    old(editor).cur_buf(),
                    old(editor).cur_win().dot_line.0,
                    old(editor).cur_win().dot_offset.0,
                    n as nat,
                );
                para_moved(&*old(editor), &*final(editor), n, l, o, r)
            }),
    {
        let w = editor.cur_window()?;
        let mut l = w.dot_line;
        let mut o = w.dot_offset.0;
        if n > 0 {
            let b = match editor.buffers.get(w.buffer_id) {
                Some(b) => b,
                None => return Err(Error::Abort),
            };
            let mut k = n;
            while k > 0
                invariant
                    b.wf(),
                    bop_n(*b, w.dot_line.0, w.dot_offset.0, n as nat) == bop_n(*b, l.0, o, k as nat),
                decreases k,
            {
                let (l1, _o1) = back_to_word_exec(b, l, o);
                let l2 = back_over_para_exec(b, l1);
                let (l3, o3) = fwd_to_word_exec(b, l2, 0);
                l = l3;
                o = o3;
                k -= 1;
            }
        }
        let mut w2 = Window { dot_line: l, dot_offset: LineOffset(o), ..w };
        w2.set_flag(WindowFlags::moved());
        editor.set_cur_window(w2);
        Ok(())
    }
}

/// Moves the dot to the end of the paragraph (`n` times).
pub struct GotoEop;

impl Command for GotoEop {
    fn execute(&self, editor: &mut Editor, f: bool, n: usize) -> (r: Result<()>)
        ensures
            para_moved(
                &*old(editor),
                &*final(editor),
                n,
                eop_n(old(editor).cur_buf(), old(editor).cur_win().dot_line.0, n as nat),
                0,
                r,
            ),
    {
        let w = editor.cur_window()?;
        let mut l = w.dot_line;
        if n > 0 {
            let b = match editor.buffers.get(w.buffer_id) {
                Some(b) => b,
                None => return Err(Error::Abort),
            };
            let mut k = n;
            while k > 0
                invariant
                    b.wf(),
                    eop_n(*b, w.dot_line.0, n as nat) == eop_n(*b, l.0, k as nat),
                decreases k,
            {
                l = fwd_to_edge_exec(b, l);
                k -= 1;
            }
        }
        let mut w2 = if n > 0 {
            Window { dot_line: l, dot_offset: LineOffset(0), ..w }
        } else {
            w
        };
        w2.set_flag(WindowFlags::moved());
        editor.set_cur_window(w2);
        Ok(())
    }
}

} // verus!
