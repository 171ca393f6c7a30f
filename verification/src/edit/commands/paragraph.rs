use crate::buffer::{next_in, prev_in, Buffer, TextModel};
use crate::edit::commands::delete::{after_in, same_meta};
use crate::edit::commands::undo_records::{actions_view, recorded_with, ActionView};
use crate::edit::helpers::blank;
use crate::edit::{Command, Editor};
use crate::types::{BufferFlags, Error, LineId, LineOffset, Result, UndoAction, WindowFlags};
use crate::window::Window;
use vstd::prelude::*;

verus! {

/// No line at `l`, or one holding only spaces and tabs.
pub open spec fn blank_in(m: TextModel, l: usize) -> bool {
    l >= m.arena.len() || forall|i: int| 0 <= i < m.arena[l as int].len() ==> blank(#[trigger] m.arena[l as int][i])
}

/// Going back from `l` over the non-blank text lines before it (at most `fuel` steps).
pub open spec fn para_first(m: TextModel, l: usize, fuel: nat) -> usize
    decreases fuel,
{
    if fuel == 0 {
        l
    } else {
        match prev_in(m.ids, l) {
            Some(p) => if p != 0 && !blank_in(m, p) {
                para_first(m, p, (fuel - 1) as nat)
            } else {
                l
            },
            None => l,
        }
    }
}

/// Going forward from `l` over the non-blank text lines after it (at most `fuel` steps).
pub open spec fn para_last(m: TextModel, l: usize, fuel: nat) -> usize
    decreases fuel,
{
    if fuel == 0 {
        l
    } else {
        match next_in(m.ids, l) {
            Some(x) => if x != 0 && !blank_in(m, x) {
                para_last(m, x, (fuel - 1) as nat)
            } else {
                l
            },
            None => l,
        }
    }
}

/// The line after `l`, the header after the last one.
pub open spec fn after_of(m: TextModel, l: usize) -> usize {
    match next_in(m.ids, l) {
        Some(x) => x,
        None => 0,
    }
}

/// The lines from `s` to `e` in text order (the header counting as first).
pub open spec fn chain(m: TextModel, s: usize, e: usize) -> Seq<usize> {
    if s == 0 {
        seq![0usize] + (if e == 0 {
            Seq::empty()
        } else {
            m.ids.take(m.ids.index_of(e) + 1)
        })
    } else if m.ids.contains(s) {
        m.ids.subrange(m.ids.index_of(s), m.ids.index_of(e) + 1)
    } else {
        seq![s]
    }
}

/// The bytes of the lines of `c`, each followed by a newline.
pub open spec fn chain_text(m: TextModel, c: Seq<usize>) -> Seq<u8>
    decreases c.len(),
{
    if c.len() == 0 {
        Seq::empty()
    } else {
        chain_text(m, c.drop_last()) + m.arena[c.last() as int] + seq![10u8]
    }
}

/// The text lines left when the lines from `s` to `e` go (the header never goes).
pub open spec fn cut_ids(m: TextModel, s: usize, e: usize) -> Seq<usize> {
    if s == 0 {
        if e == 0 {
            m.ids
        } else {
            m.ids.skip(m.ids.index_of(e) + 1)
        }
    } else if m.ids.contains(s) {
        m.ids.take(m.ids.index_of(s)) + m.ids.skip(m.ids.index_of(e) + 1)
    } else {
        m.ids
    }
}

/// One paragraph kill from line `l`: the paragraph around it (its first line, its last
/// line and the line after), or none when there is nothing to kill.
pub open spec fn para_bounds(m: TextModel, l: usize) -> (usize, usize, usize) {
    let fuel = (m.ids.len() + 1) as nat;
    let s = para_first(m, l, fuel);
    let e = para_last(m, s, fuel);
    (s, e, after_of(m, e))
}

/// `count` paragraph kills from line `l`: the text, the line reached, the bytes killed,
/// and how many kills were made.
pub open spec fn para_kills(m: TextModel, l: usize, count: nat) -> (TextModel, usize, Seq<u8>, nat)
    decreases count,
{
    if count == 0 {
        (m, l, Seq::empty(), 0)
    } else {
        let (s, e, a) = para_bounds(m, l);
        if s == a {
            (m, l, Seq::empty(), 0)
        } else {
            let c = chain(m, s, e);
            let m2 = TextModel { ids: cut_ids(m, s, e), arena: m.arena };
            let (m3, l3, k3, n3) = para_kills(m2, a, (count - 1) as nat);
            (m3, l3, chain_text(m, c) + k3, n3 + 1)
        }
    }
}

/// The text of two runs of lines is the text of each.
pub proof fn lemma_chain_text_add(m: TextModel, a: Seq<usize>, c: Seq<usize>)
    ensures
        chain_text(m, a + c) == chain_text(m, a) + chain_text(m, c),
    decreases c.len(),
{
    if c.len() == 0 {
        assert(a + c =~= a);
        assert(chain_text(m, a) + Seq::<u8>::empty() =~= chain_text(m, a));
    } else {
        assert((a + c).drop_last() =~= a + c.drop_last());
        lemma_chain_text_add(m, a, c.drop_last());
        assert(chain_text(m, a) + chain_text(m, c.drop_last()) + m.arena[c.last() as int] + seq![10u8]
            =~= chain_text(m, a) + (chain_text(m, c.drop_last()) + m.arena[c.last() as int] + seq![10u8]));
    }
}

/// Where the forward walk of a paragraph ends.
pub proof fn lemma_para_last(b: Buffer, s: usize, fuel: nat)
    requires
        b.wf(),
    ensures
        ({
            let m = b.model();
            let e = para_last(m, s, fuel);
            &&& b.has_line(s) ==> b.has_line(e) && b.pos_of(e) >= b.pos_of(s)
            &&& s == 0 ==> e == 0 || b.has_line(e)
            &&& !b.in_ring(s) ==> e == s
        }),
    decreases fuel,
{
    let m = b.model();
    if fuel > 0 {
        match next_in(m.ids, s) {
            Some(x) => {
                if x != 0 && !blank_in(m, x) {
                    lemma_para_last(b, x, (fuel - 1) as nat);
                    if s == 0 {
                        b.lemma_pos_of(0);
                    } else {
                        let k = b.pos_of(s);
                        assert(b.ids()[k] == s);
                        b.lemma_pos_of(k + 1);
                    }
                }
            },
            None => {},
        }
    }
}

/// `blank_in` on a buffer's text says what `is_blank_line` says.
pub proof fn lemma_blank_in(b: Buffer, l: usize)
    ensures
        blank_in(b.model(), l) == (l >= b.lines@.len() || forall|i: int|
            0 <= i < b.text_of(l).len() ==> blank(#[trigger] b.text_of(l)[i])),
{
    if l < b.lines@.len() {
        assert(b.model().arena[l as int] == b.text_of(l));
    }
}

/// Going back over the non-blank lines before `l`.
pub(crate) fn first_of_para(b: &Buffer, l: LineId) -> (r: LineId)
    requires
        b.wf(),
    ensures
        r.0 == para_first(b.model(), l.0, (b.ids().len() + 1) as nat),
{
    let fuel0 = b.line_count() + 1;
    let mut fuel = fuel0;
    let mut cur = l;
    while fuel > 0
        invariant
            b.wf(),
            fuel0 == b.ids().len() + 1,
            para_first(b.model(), l.0, fuel0 as nat) == para_first(b.model(), cur.0, fuel as nat),
        decreases fuel,
    {
        match b.prev_line(cur) {
            Some(p) => {
                let bl = crate::edit::helpers::is_blank_line(b, p);
                proof {
                    lemma_blank_in(*b, p.0);
                }
                if p.0 != 0 && !bl {
                    cur = p;
                } else {
                    return cur;
                }
            },
            None => return cur,
        }
        fuel -= 1;
    }
    cur
}

/// Going forward over the non-blank lines after `l`.
pub(crate) fn last_of_para(b: &Buffer, l: LineId) -> (r: LineId)
    requires
        b.wf(),
    ensures
        r.0 == para_last(b.model(), l.0, (b.ids().len() + 1) as nat),
{
    let fuel0 = b.line_count() + 1;
    let mut fuel = fuel0;
    let mut cur = l;
    while fuel > 0
        invariant
            b.wf(),
            fuel0 == b.ids().len() + 1,
            para_last(b.model(), l.0, fuel0 as nat) == para_last(b.model(), cur.0, fuel as nat),
        decreases fuel,
    {
        match b.next_line(cur) {
            Some(x) => {
                let bl = crate::edit::helpers::is_blank_line(b, x);
                proof {
                    lemma_blank_in(*b, x.0);
                }
                if x.0 != 0 && !bl {
                    cur = x;
                } else {
                    return cur;
                }
            },
            None => return cur,
        }
        fuel -= 1;
    }
    cur
}

/// Appends the bytes of line `l` and a newline.
fn push_line_text(out: &mut Vec<u8>, b: &Buffer, l: LineId) -> (t: Vec<u8>)
    requires
        l.0 < b.lines@.len(),
    ensures
        final(out)@ == old(out)@ + b.text_of(l.0) + seq![10u8],
        t@ == b.text_of(l.0),
{
    let t = b.lines[l.0].text.clone();
    let ghost o0 = out@;
    let mut j: usize = 0;
    while j < t.len()
        invariant
            j <= t@.len(),
            t@ == b.text_of(l.0),
            out@ == o0 + t@.take(j as int),
        decreases t@.len() - j,
    {
        out.push(t[j]);
        j += 1;
        assert(out@ =~= o0 + t@.take(j as int));
    }
    assert(t@.take(t@.len() as int) =~= t@);
    out.push(10);
    t
}

/// The undo records of removing the lines `c` of `m` one by one after `anchor`, whose end
/// is at `off`: each names the line removed, its bytes and the line after it.
pub open spec fn chain_records(m: TextModel, c: Seq<usize>, anchor: usize, off: usize) -> Seq<ActionView> {
    Seq::new(
        c.len(),
        |k: int|
            ActionView::Merge {
                line: anchor,
                offset: off,
                next_line: c[k],
                next_data: m.arena[c[k] as int],
                after_next: after_in(m.ids, c[k]),
            },
    )
}

/// Removes the lines from `s` to `e` (the header stays), returning their bytes, each with
/// a newline, and an undo record per line (see `chain_records`, when `s` is a text line).
fn kill_chain(b: &mut Buffer, s: LineId, e: LineId, a: LineId, anchor: LineId, anchor_off: usize) -> (r: (
    Vec<u8>,
    Vec<UndoAction>,
))
    requires
        old(b).wf(),
        s.0 < old(b).lines@.len(),
        old(b).has_line(s.0) ==> old(b).has_line(e.0) && old(b).pos_of(e.0) >= old(b).pos_of(s.0),
        s.0 == 0 ==> e.0 == 0 || old(b).has_line(e.0),
        !old(b).in_ring(s.0) ==> e.0 == s.0,
        a.0 == after_of(old(b).model(), e.0),
    ensures
        final(b).wf(),
        final(b).model() == (TextModel {
            ids: cut_ids(old(b).model(), s.0, e.0),
            arena: old(b).model().arena,
        }),
        r.0@ == chain_text(old(b).model(), chain(old(b).model(), s.0, e.0)),
        r.1@.len() > 0,
        old(b).has_line(s.0) ==> actions_view(r.1@) == chain_records(
            old(b).model(),
            chain(old(b).model(), s.0, e.0),
            anchor.0,
            anchor_off,
        ),
        same_meta(*final(b), *old(b)),
        final(b).flags == old(b).flags,
{
    let ghost m0 = b.model();
    let ghost ids0 = b.ids();
    let mut killed: Vec<u8> = Vec::new();
    let mut actions: Vec<UndoAction> = Vec::new();
    let mut cur = s;
    let ghost mut p0: int = 0;
    let ghost q: int = if e.0 == 0 || !b.in_ring(s.0) {
        0
    } else {
        ids0.index_of(e.0) + 1
    };
    proof {
        if e.0 != 0 && b.in_ring(s.0) {
            let k = ids0.index_of(e.0);
            assert(ids0[k] == e.0);
            b.lemma_pos_of(k);
        }
    }
    let ghost pre_count: int = 0;
    if s.0 == 0 || !b.is_text_line(s) {
        let t = push_line_text(&mut killed, b, s);
        let nxt = match b.next_line(s) {
            Some(x) => x,
            None => LineId(0),
        };
        actions.push(UndoAction::Merge { line: anchor, offset: anchor_off, next_line: s, next_data: t, after_next: nxt });
        let ghost bb = *b;
        b.remove(s);
        proof {
            assert(b.ids() == ids0);
            assert(b.model().arena =~= m0.arena) by {
                assert forall|i: int| 0 <= i < b.lines@.len() implies #[trigger] b.model().arena[i] == m0.arena[i] by {
                    assert(b.text_of(i as usize) == bb.text_of(i as usize));
                }
            }
            assert(m0.arena[s.0 as int] == bb.text_of(s.0));
            assert(seq![s.0].drop_last() =~= Seq::<usize>::empty());
            assert(chain_text(m0, Seq::<usize>::empty()) == Seq::<u8>::empty());
            assert(killed@ =~= chain_text(m0, seq![s.0]));
            p0 = 0;
            pre_count = 1;
            if q > 0 {
                bb.lemma_pos_of(0);
            }
            if s.0 == 0 && e.0 != 0 && ids0.index_of(e.0) + 1 < ids0.len() {
                bb.lemma_pos_of(ids0.index_of(e.0) + 1);
            }
        }
        cur = nxt;
    } else {
        proof {
            p0 = ids0.index_of(s.0);
            assert(ids0[p0] == s.0);
            assert(killed@ =~= chain_text(m0, Seq::<usize>::empty()));
            if q < ids0.len() {
                b.lemma_pos_of(q);
            }
        }
    }
    let ghost pre = killed@;
    proof {
        assert(ids0.take(p0) + ids0.skip(p0) =~= ids0);
        assert(ids0.subrange(p0, p0) =~= Seq::<usize>::empty());
        assert(pre + chain_text(m0, Seq::<usize>::empty()) =~= pre);
        assert(forall|k: int| 0 <= k < ids0.len() ==> #[trigger] ids0[k] > 0);
    }
    let ghost mut j: int = 0;
    while cur.0 != a.0
        invariant
            b.wf(),
            ids0 == old(b).ids(),
            m0 == old(b).model(),
            old(b).wf(),
            0 <= p0 <= p0 + j <= q <= ids0.len(),
            p0 < q || pre_count > 0,
            forall|k: int| 0 <= k < ids0.len() ==> #[trigger] ids0[k] > 0,
            ids0.no_duplicates(),
            a.0 == (if q < ids0.len() && q > 0 {
                ids0[q]
            } else {
                a.0
            }),
            q > 0 ==> a.0 == after_of(m0, ids0[q - 1]),
            q > 0 ==> a.0 == (if q < ids0.len() {
                ids0[q]
            } else {
                0
            }),
            b.ids() == ids0.take(p0) + ids0.skip(p0 + j),
            b.model().arena == m0.arena,
            b.lines@.len() == old(b).lines@.len(),
            cur.0 == (if p0 + j < q {
                ids0[p0 + j]
            } else {
                a.0
            }),
            killed@ == pre + chain_text(m0, ids0.subrange(p0, p0 + j)),
            actions@.len() == pre_count + j,
            old(b).has_line(s.0) ==> pre_count == 0 && actions_view(actions@) == chain_records(
                m0,
                ids0.subrange(p0, p0 + j),
                anchor.0,
                anchor_off,
            ),
            same_meta(*b, *old(b)),
            b.flags == old(b).flags,
        decreases q - j,
    {
        proof {
            if p0 + j >= q {
                assert(cur.0 == a.0);
            }
            let cids = b.ids();
            assert(cids[p0] == ids0[p0 + j]);
            b.lemma_pos_of(p0);
            if p0 + 1 < cids.len() {
                b.lemma_pos_of(p0 + 1);
                assert(cids[p0 + 1] == ids0[p0 + j + 1]);
            }
            assert(cur.0 < b.lines@.len());
        }
        let t = push_line_text(&mut killed, b, cur);
        let nxt = match b.next_line(cur) {
            Some(x) => x,
            None => LineId(0),
        };
        proof {
            if old(b).has_line(s.0) {
                let cids = b.ids();
                assert(cids[p0] == cur.0);
                assert(ids0.index_of(cur.0) == p0 + j) by {
                    assert(ids0[p0 + j] == cur.0);
                }
                assert(nxt.0 == after_in(ids0, cur.0)) by {
                    if p0 + j + 1 < ids0.len() {
                        assert(cids[p0 + 1] == ids0[p0 + j + 1]);
                    }
                }
            }
        }
        let ghost a0 = actions_view(actions@);
        let ghost tv = t@;
        actions.push(UndoAction::Merge { line: anchor, offset: anchor_off, next_line: cur, next_data: t, after_next: nxt });
        proof {
            if old(b).has_line(s.0) {
                assert(tv == m0.arena[cur.0 as int]);
                let mv = ActionView::Merge {
                    line: anchor.0,
                    offset: anchor_off,
                    next_line: cur.0,
                    next_data: tv,
                    after_next: nxt.0,
                };
                assert(actions_view(actions@) =~= a0.push(mv));
                let sub = ids0.subrange(p0, p0 + j + 1);
                assert(sub[j] == cur.0);
                assert(chain_records(m0, sub, anchor.0, anchor_off) =~= chain_records(
                    m0,
                    ids0.subrange(p0, p0 + j),
                    anchor.0,
                    anchor_off,
                ).push(mv));
            }
        }
        let ghost bb = *b;
        let ghost cj = j;
        b.remove(cur);
        proof {
            let cids = bb.ids();
            assert(cids[p0] == cur.0);
            assert(b.ids() =~= ids0.take(p0) + ids0.skip(p0 + j + 1));
            assert(b.model().arena =~= m0.arena) by {
                assert forall|i: int| 0 <= i < b.lines@.len() implies #[trigger] b.model().arena[i] == m0.arena[i] by {
                    assert(b.text_of(i as usize) == bb.text_of(i as usize));
                    assert(bb.model().arena[i] == m0.arena[i]);
                }
            }
            assert(bb.text_of(cur.0) == m0.arena[cur.0 as int]);
            assert(ids0.subrange(p0, p0 + j + 1).drop_last() =~= ids0.subrange(p0, p0 + j));
            assert(killed@ =~= pre + chain_text(m0, ids0.subrange(p0, p0 + j + 1)));
            j = j + 1;
        }
        cur = nxt;
    }
    proof {
        if p0 + j < q {
            assert(ids0[p0 + j] != a.0) by {
                if q < ids0.len() {
                    assert(a.0 == ids0[q]);
                } else {
                    assert(ids0[p0 + j] > 0);
                }
            }
        }
        assert(p0 + j == q);
        let c = chain(m0, s.0, e.0);
        if s.0 != 0 && old(b).has_line(s.0) {
            assert(c == ids0.subrange(p0, q));
            assert(pre =~= Seq::<u8>::empty());
            assert(killed@ =~= chain_text(m0, c));
        } else if s.0 == 0 {
            if e.0 == 0 {
                assert(c =~= seq![0usize] + ids0.subrange(0, 0));
            } else {
                assert(c =~= seq![0usize] + ids0.subrange(0, q));
            }
            lemma_chain_text_add(m0, seq![0usize], ids0.subrange(0, q));
        } else {
            assert(c =~= seq![s.0] + ids0.subrange(0, 0));
            lemma_chain_text_add(m0, seq![s.0], ids0.subrange(0, 0));
        }
        assert(b.ids() =~= cut_ids(m0, s.0, e.0));
        assert(b.model().arena =~= m0.arena);
    }
    (killed, actions)
}

} // verus!

verus! {

/// Where the backward walk of a paragraph ends.
pub proof fn lemma_para_first(b: Buffer, l: usize, fuel: nat)
    requires
        b.wf(),
        l < b.lines@.len(),
    ensures
        para_first(b.model(), l, fuel) == l || b.has_line(para_first(b.model(), l, fuel)),
        para_first(b.model(), l, fuel) < b.lines@.len(),
    decreases fuel,
{
    let m = b.model();
    if fuel > 0 {
        match prev_in(m.ids, l) {
            Some(p) => {
                if p != 0 && !blank_in(m, p) {
                    let ids = b.ids();
                    if l == 0 {
                        b.lemma_pos_of(ids.len() - 1);
                    } else {
                        let k = b.pos_of(l);
                        assert(ids[k] == l);
                        b.lemma_pos_of(k - 1);
                    }
                    lemma_para_first(b, p, (fuel - 1) as nat);
                }
            },
            None => {},
        }
    }
}

/// What killing paragraphs does: `n` of them with an argument, else one, each from the
/// line the last one ended at; their lines (each with a newline) replace the kill buffer,
/// and the dot ends at the start of the line after the last one.
pub open spec fn paragraphs_killed(e0: &Editor, e1: &Editor, f: bool, n: usize, r: Result<()>) -> bool {
    let count: nat = if f {
        n as nat
    } else {
        1
    };
    let w = e0.cur_win();
    let b = e0.cur_buf();
    let l = w.dot_line.0;
    if !e0.has_cur() || (count > 0 && l >= b.lines@.len()) {
        r is Err && *e1 == *e0
    } else {
        let (m, lend, killed, k) = para_kills(b.model(), l, count);
        &&& r is Ok
        &&& k == 0 ==> *e1 == *e0
        &&& k > 0 ==> {
            &&& e1.changed_cur(
                &Editor { kill_buffer: e1.kill_buffer, ..*e0 },
                Window {
                    dot_line: LineId(lend),
                    dot_offset: LineOffset(0),
                    flags: WindowFlags(w.flags.0 | WindowFlags::hard().0 | WindowFlags::moved().0),
                    ..w
                },
                e1.cur_buf(),
            )
            &&& e1.cur_buf().model() == m
            &&& same_meta(e1.cur_buf(), b)
            &&& e1.cur_buf().flags == BufferFlags(b.flags.0 | BufferFlags::changed().0)
            &&& e1.kill_buffer@ == killed
            &&& e1.undo_grown(e0, 1)
        }
    }
}

/// The paragraph around line `l`: its first line, last line and the line after it.
fn bounds_of_para(b: &Buffer, l: LineId) -> (r: (LineId, LineId, LineId))
    requires
        b.wf(),
        l.0 < b.lines@.len(),
    ensures
        (r.0.0, r.1.0, r.2.0) == para_bounds(b.model(), l.0),
        r.0.0 < b.lines@.len(),
        b.has_line(r.0.0) ==> b.has_line(r.1.0) && b.pos_of(r.1.0) >= b.pos_of(r.0.0),
        r.0.0 == 0 ==> r.1.0 == 0 || b.has_line(r.1.0),
        !b.in_ring(r.0.0) ==> r.1.0 == r.0.0,
        r.2.0 == 0 || b.has_line(r.2.0),
{
    let s = first_of_para(b, l);
    let e = last_of_para(b, s);
    let a = match b.next_line(e) {
        Some(x) => x,
        None => LineId(0),
    };
    proof {
        lemma_para_first(*b, l.0, (b.ids().len() + 1) as nat);
        lemma_para_last(*b, s.0, (b.ids().len() + 1) as nat);
        if a.0 != 0 {
            let ids = b.ids();
            if e.0 == 0 {
                assert(ids.contains(ids[0]));
            } else {
                let k = b.pos_of(e.0);
                assert(ids[k] == e.0);
                assert(ids.contains(ids[k + 1]));
            }
        }
    }
    (s, e, a)
}

/// Kills the paragraph at the dot (`n` paragraphs with an argument) into the kill buffer.
pub struct KillParagraph;

impl Command for KillParagraph {
    #[verifier::rlimit(50)]
    fn execute(&self, editor: &mut Editor, f: bool, n: usize) -> (r: Result<()>)
        ensures
            paragraphs_killed(&*old(editor), &*final(editor), f, n, r),
    {
        let count: usize = if f {
            n
        } else {
            1
        };
        let w0 = editor.cur_checked()?;
        if count == 0 {
            return Ok(());
        }
        let first = match editor.buffers.get(w0.buffer_id) {
            Some(b) => {
                if w0.dot_line.0 >= b.lines.len() {
                    return Err(Error::Abort);
                }
                bounds_of_para(b, w0.dot_line)
            },
            None => return Err(Error::Abort),
        };
        if first.0.0 == first.2.0 {
            return Ok(());
        }
        let ghost e0 = *editor;
        let ghost m0 = e0.cur_buf().model();
        let ghost l0 = w0.dot_line.0;
        let (w, mut b) = editor.take_cur();
        let mut dot = w.dot_line;
        let mut total: Vec<u8> = Vec::new();
        let mut actions: Vec<UndoAction> = Vec::new();
        let mut i: usize = 0;
        while i < count
            invariant
                b.wf(),
                b.id == w.buffer_id,
                e0.has_cur(),
                w == e0.cur_win(),
                m0 == e0.cur_buf().model(),
                l0 == w.dot_line.0,
                count > 0,
                i <= count,
                dot.0 < b.lines@.len(),
                i == 0 ==> dot.0 == l0 && b.model() == m0,
                i == 0 ==> para_bounds(b.model(), dot.0).0 != para_bounds(b.model(), dot.0).2,
                i > 0 ==> total@.len() > 0 && actions@.len() > 0,
                b.lines@.len() == e0.cur_buf().lines@.len(),
                same_meta(b, e0.cur_buf()),
                b.flags == e0.cur_buf().flags,
                ({
                    let (mf, lf, kf, nf) = para_kills(m0, l0, count as nat);
                    let (mr, lr, kr, nr) = para_kills(b.model(), dot.0, (count - i) as nat);
                    &&& mf == mr
                    &&& lf == lr
                    &&& kf == total@ + kr
                    &&& nf == i + nr
                }),
            ensures
                i == count || para_bounds(b.model(), dot.0).0 == para_bounds(b.model(), dot.0).2,
            decreases count - i,
        {
            let (s, e, a) = bounds_of_para(&b, dot);
            if s.0 == a.0 {
                break;
            }
            let anchor = match b.prev_line(s) {
                Some(p) => p,
                None => LineId(0),
            };
            proof {
                if anchor.0 != 0 {
                    let ids = b.ids();
                    if s.0 == 0 {
                        assert(ids.contains(ids[ids.len() - 1]));
                    } else {
                        let k = b.pos_of(s.0);
                        assert(ids[k] == s.0);
                        assert(ids.contains(ids[k - 1]));
                    }
                }
            }
            let anchor_off = match b.line_len(anchor) {
                Some(x) => x,
                None => 0,
            };
            let ghost mb = b.model();
            let (mut killed, mut acts) = kill_chain(&mut b, s, e, a, anchor, anchor_off);
            proof {
                let c = chain(mb, s.0, e.0);
                let (mr, lr, kr, nr) = para_kills(b.model(), a.0, (count - i - 1) as nat);
                assert(chain_text(mb, c) + kr =~= killed@ + kr);
                assert((total@ + killed@) + kr =~= total@ + (killed@ + kr));
                assert(killed@.len() > 0) by {
                    assert(c.len() > 0);
                }
                assert(a.0 < b.lines@.len()) by {
                    if a.0 != 0 {
                        let k = mb.ids.index_of(a.0);
                        assert(mb.ids[k] == a.0);
                    }
                }
            }
            total.append(&mut killed);
            actions.append(&mut acts);
            dot = a;
            i += 1;
        }
        proof {
            let (mr, lr, kr, nr) = para_kills(b.model(), dot.0, (count - i) as nat);
            assert(kr == Seq::<u8>::empty());
            assert(nr == 0);
            assert(total@ + kr =~= total@);
            assert(i > 0);
        }
        b.flags = b.flags.union(BufferFlags::changed());
        let mut w2 = Window { dot_line: dot, dot_offset: LineOffset(0), ..w };
        w2.set_flag(WindowFlags::hard());
        w2.set_flag(WindowFlags::moved());
        editor.commit(w2, b, Ghost(e0));
        editor.push_undo(actions);
        editor.kill_buffer = total;
        proof {
            assert(editor.undo_stack@.take(e0.undo_stack@.len() as int) =~= e0.undo_stack@);
        }
        Ok(())
    }
}

} // verus!

verus! {

/// A line that exists and holds only spaces and tabs.
pub open spec fn blank_line_in(m: TextModel, l: usize) -> bool {
    l < m.arena.len() && forall|i: int| 0 <= i < m.arena[l as int].len() ==> blank(#[trigger] m.arena[l as int][i])
}

/// Back from `l` over blank lines, to the nearest line that is not blank (or the first).
pub open spec fn blank_first(m: TextModel, l: usize, fuel: nat) -> usize
    decreases fuel,
{
    if fuel == 0 || !blank_line_in(m, l) {
        l
    } else {
        match prev_in(m.ids, l) {
            Some(p) => if p != 0 {
                blank_first(m, p, (fuel - 1) as nat)
            } else {
                l
            },
            None => l,
        }
    }
}

/// Forward from `l` over the blank lines after it, to the last of them.
pub open spec fn blank_last(m: TextModel, l: usize, fuel: nat) -> usize
    decreases fuel,
{
    if fuel == 0 {
        l
    } else {
        match next_in(m.ids, l) {
            Some(x) => if x != 0 && blank_line_in(m, x) {
                blank_last(m, x, (fuel - 1) as nat)
            } else {
                l
            },
            None => l,
        }
    }
}

/// Where the forward walk over blank lines ends.
pub proof fn lemma_blank_last(b: Buffer, s: usize, fuel: nat)
    requires
        b.wf(),
        b.has_line(s),
    ensures
        b.has_line(blank_last(b.model(), s, fuel)),
        b.pos_of(blank_last(b.model(), s, fuel)) >= b.pos_of(s),
    decreases fuel,
{
    let m = b.model();
    if fuel > 0 {
        match next_in(m.ids, s) {
            Some(x) => {
                if x != 0 && blank_line_in(m, x) {
                    let k = b.pos_of(s);
                    assert(b.ids()[k] == s);
                    b.lemma_pos_of(k + 1);
                    lemma_blank_last(b, x, (fuel - 1) as nat);
                }
            },
            None => {},
        }
    }
}

/// What deleting blank lines does: from the dot back over blank lines to the nearest
/// non-blank one, the blank lines right after it go; the dot goes to the start of the line
/// after it (or its end when it is last), and the removal is recorded for undo (see
/// `chain_records`).  With no blank line after it, nothing changes.
pub open spec fn blanks_deleted(e0: &Editor, e1: &Editor, r: Result<()>) -> bool {
    let w = e0.cur_win();
    let b = e0.cur_buf();
    let m = b.model();
    let f = usize::MAX as nat;
    let lp1 = blank_first(m, w.dot_line.0, f);
    let s = next_in(m.ids, lp1);
    if !e0.has_cur() {
        r is Err && *e1 == *e0
    } else if s is None || !blank_line_in(m, s.unwrap()) {
        r is Ok && *e1 == *e0
    } else {
        let e = blank_last(m, s.unwrap(), f);
        let m2 = TextModel { ids: cut_ids(m, s.unwrap(), e), arena: m.arena };
        let w2 = match next_in(m2.ids, lp1) {
            Some(nx) => Window {
                dot_line: LineId(nx),
                dot_offset: LineOffset(0),
                flags: WindowFlags(w.flags.0 | WindowFlags::hard().0),
                ..w
            },
            None => Window {
                dot_line: LineId(lp1),
                dot_offset: LineOffset(m.arena[lp1 as int].len() as usize),
                flags: WindowFlags(w.flags.0 | WindowFlags::hard().0),
                ..w
            },
        };
        &&& r is Ok
        &&& e1.changed_cur(e0, w2, e1.cur_buf())
        &&& e1.cur_buf().model() == m2
        &&& same_meta(e1.cur_buf(), b)
        &&& e1.cur_buf().flags == BufferFlags(b.flags.0 | BufferFlags::changed().0)
        &&& e1.undo_grown(e0, 1)
        &&& recorded_with(e1, w2, chain_records(m, chain(m, s.unwrap(), e), lp1, m.arena[lp1 as int].len() as usize))
    }
}

/// Whether line `l` exists and holds only blanks.
fn line_is_blank(b: &Buffer, l: LineId) -> (r: bool)
    ensures
        r == blank_line_in(b.model(), l.0),
{
    proof {
        lemma_blank_in(*b, l.0);
    }
    l.0 < b.lines.len() && crate::edit::helpers::is_blank_line(b, l)
}

/// Deletes the blank lines around the dot.
pub struct DeleteBlankLines;

impl Command for DeleteBlankLines {
    #[verifier::rlimit(80)]
    fn execute(&self, editor: &mut Editor, f: bool, n: usize) -> (r: Result<()>)
        ensures
            blanks_deleted(&*old(editor), &*final(editor), r),
    {
        let w0 = editor.cur_checked()?;
        let (lp1, s, e, a) = match editor.buffers.get(w0.buffer_id) {
            Some(b) => {
                let mut fuel: usize = usize::MAX;
                let mut cur = w0.dot_line;
                while fuel > 0
                    invariant
                        b.wf(),
                        blank_first(b.model(), w0.dot_line.0, usize::MAX as nat) == blank_first(
                            b.model(),
                            cur.0,
                            fuel as nat,
                        ),
                    ensures
                        blank_first(b.model(), w0.dot_line.0, usize::MAX as nat) == cur.0,
                    decreases fuel,
                {
                    if !line_is_blank(b, cur) {
                        break;
                    }
                    match b.prev_line(cur) {
                        Some(p) => {
                            if p.0 == 0 {
                                break;
                            }
                            cur = p;
                        },
                        None => break,
                    }
                    fuel -= 1;
                }
                let lp1 = cur;
                let s = match b.next_line(lp1) {
                    Some(x) => x,
                    None => return Ok(()),
                };
                if !line_is_blank(b, s) {
                    return Ok(());
                }
                let mut fuel2: usize = usize::MAX;
                let mut e = s;
                while fuel2 > 0
                    invariant
                        b.wf(),
                        blank_last(b.model(), s.0, usize::MAX as nat) == blank_last(b.model(), e.0, fuel2 as nat),
                    ensures
                        blank_last(b.model(), s.0, usize::MAX as nat) == e.0,
                    decreases fuel2,
                {
                    match b.next_line(e) {
                        Some(x) => {
                            if x.0 != 0 && line_is_blank(b, x) {
                                e = x;
                            } else {
                                break;
                            }
                        },
                        None => break,
                    }
                    fuel2 -= 1;
                }
                let a = match b.next_line(e) {
                    Some(x) => x,
                    None => LineId(0),
                };
                proof {
                    let ids = b.ids();
                    if lp1.0 == 0 {
                        assert(ids.contains(ids[0]));
                    } else {
                        let k = b.pos_of(lp1.0);
                        assert(ids[k] == lp1.0);
                        assert(ids.contains(ids[k + 1]));
                    }
                    lemma_blank_last(*b, s.0, usize::MAX as nat);
                }
                (lp1, s, e, a)
            },
            None => return Err(Error::Abort),
        };
        let ghost e0 = *editor;
        let (w, mut b) = editor.take_cur();
        proof {
            if lp1.0 != 0 {
                let ids = b.ids();
                if b.has_line(lp1.0) {
                    let k = b.pos_of(lp1.0);
                    assert(ids[k] == lp1.0);
                }
            }
        }
        let anchor_off = match b.line_len(lp1) {
            Some(x) => x,
            None => 0,
        };
        let (_killed, actions) = kill_chain(&mut b, s, e, a, lp1, anchor_off);
        b.flags = b.flags.union(BufferFlags::changed());
        let nx = b.next_line(lp1);
        let mut w2 = match nx {
            Some(x) => Window { dot_line: x, dot_offset: LineOffset(0), ..w },
            None => Window { dot_line: lp1, dot_offset: LineOffset(anchor_off), ..w },
        };
        w2.set_flag(WindowFlags::hard());
        editor.commit(w2, b, Ghost(e0));
        editor.push_undo(actions);
        proof {
            assert(editor.undo_stack@.take(e0.undo_stack@.len() as int) =~= e0.undo_stack@);
        }
        Ok(())
    }
}

} // verus!
