use crate::buffer::{Buffer, TextModel};
use crate::edit::commands::delete::same_meta;
use crate::edit::commands::paragraph::{chain, para_bounds};
use crate::edit::commands::region::sat;
use crate::edit::commands::undo_records::{
    actions_view, fill_records, fill_records_from, fill_word_actions, merge_actions, merge_records, ActionView,
};
use crate::edit::helpers::blank;
use crate::edit::{with_dot, Command, Editor};
use crate::types::{BufferFlags, BufferId, Error, LineId, Result, UndoAction, WindowFlags};
use vstd::prelude::*;

verus! {

/// The words of `t` from position `i` on, `cur` being the part of a word already read:
/// maximal runs of bytes other than spaces and tabs.
pub open spec fn words_from(t: Seq<u8>, i: int, cur: Seq<u8>) -> Seq<Seq<u8>>
    decreases t.len() - i,
{
    if i >= t.len() {
        if cur.len() > 0 {
            seq![cur]
        } else {
            Seq::empty()
        }
    } else if blank(t[i]) {
        (if cur.len() > 0 {
            seq![cur]
        } else {
            Seq::empty()
        }) + words_from(t, i + 1, Seq::empty())
    } else {
        words_from(t, i + 1, cur.push(t[i]))
    }
}

/// The words of `t`.
pub open spec fn words_of(t: Seq<u8>) -> Seq<Seq<u8>> {
    words_from(t, 0, Seq::empty())
}

/// The words of the lines `c` of `m`, in order.
pub open spec fn words_of_lines(m: TextModel, c: Seq<usize>) -> Seq<Seq<u8>>
    decreases c.len(),
{
    if c.len() == 0 {
        Seq::empty()
    } else {
        words_of_lines(m, c.drop_last()) + words_of(m.arena[c.last() as int])
    }
}

/// Appends the words of `t` to `out`.
pub fn push_words(out: &mut Vec<Vec<u8>>, t: &Vec<u8>)
    ensures
        final(out)@.map_values(|v: Vec<u8>| v@) == old(out)@.map_values(|v: Vec<u8>| v@) + words_of(t@),
{
    let mut cur: Vec<u8> = Vec::new();
    let mut i: usize = 0;
    while i < t.len()
        invariant
            i <= t@.len(),
            out@.map_values(|v: Vec<u8>| v@) + words_from(t@, i as int, cur@) == old(out)@.map_values(
                |v: Vec<u8>| v@,
            ) + words_of(t@),
        decreases t@.len() - i,
    {
        let ghost o0 = out@.map_values(|v: Vec<u8>| v@);
        let ghost c0 = cur@;
        if t[i] == 32 || t[i] == 9 {
            if cur.len() > 0 {
                let w = cur;
                out.push(w);
                cur = Vec::new();
                proof {
                    assert(out@.map_values(|v: Vec<u8>| v@) =~= o0 + seq![c0]);
                    assert(o0 + (seq![c0] + words_from(t@, i + 1, Seq::empty())) =~= o0 + seq![c0]
                        + words_from(t@, i + 1, Seq::empty()));
                }
            } else {
                proof {
                    assert(Seq::<Seq<u8>>::empty() + words_from(t@, i + 1, Seq::empty()) =~= words_from(
                        t@,
                        i + 1,
                        Seq::empty(),
                    ));
                }
                cur = Vec::new();
                assert(cur@ =~= Seq::<u8>::empty());
            }
        } else {
            cur.push(t[i]);
        }
        i += 1;
    }
    if cur.len() > 0 {
        let ghost o0 = out@.map_values(|v: Vec<u8>| v@);
        let ghost c0 = cur@;
        out.push(cur);
        assert(out@.map_values(|v: Vec<u8>| v@) =~= o0 + seq![c0]);
    } else {
        assert(out@.map_values(|v: Vec<u8>| v@) + Seq::<Seq<u8>>::empty() =~= out@.map_values(
            |v: Vec<u8>| v@,
        ));
    }
}

} // verus!

verus! {

/// Laying out words `k..` greedily in lines of at most `fc` columns: `done` are the full
/// lines, `cur` the line being filled and `len` its length.  A word that does not fit
/// starts a new line (unless the line is empty); words are joined by one space.
pub open spec fn fill_from(
    words: Seq<Seq<u8>>,
    fc: nat,
    k: int,
    done: Seq<Seq<u8>>,
    cur: Seq<u8>,
    len: nat,
) -> Seq<Seq<u8>>
    decreases words.len() - k,
{
    if k >= words.len() || k < 0 {
        done.push(cur)
    } else {
        let w = words[k];
        let nl = sat(sat(len as int + (if k != 0 {
            1int
        } else {
            0int
        })) as int + w.len());
        let brk = nl > fc && len > 0;
        let done2 = if brk {
            done.push(cur)
        } else {
            done
        };
        let cur2 = if brk {
            Seq::<u8>::empty()
        } else {
            cur
        };
        let len2: nat = if brk {
            0
        } else {
            len
        };
        let cur3 = if len2 > 0 {
            cur2.push(32u8)
        } else {
            cur2
        };
        let len3: nat = if len2 > 0 {
            sat(len2 as int + 1)
        } else {
            len2
        };
        fill_from(words, fc, k + 1, done2, cur3 + w, sat(len3 as int + w.len()))
    }
}

/// The lines of a filled paragraph.
pub open spec fn fill_layout(words: Seq<Seq<u8>>, fc: nat) -> Seq<Seq<u8>> {
    fill_from(words, fc, 0, Seq::empty(), Seq::empty(), 0)
}

/// A filled paragraph has at least one line.
pub proof fn lemma_fill_nonempty(words: Seq<Seq<u8>>, fc: nat, k: int, done: Seq<Seq<u8>>, cur: Seq<u8>, len: nat)
    ensures
        fill_from(words, fc, k, done, cur, len).len() >= done.len() + 1,
    decreases words.len() - k,
{
    if k < words.len() && k >= 0 {
        let w = words[k];
        let nl = sat(sat(len as int + (if k != 0 {
            1int
        } else {
            0int
        })) as int + w.len());
        let brk = nl > fc && len > 0;
        let done2 = if brk {
            done.push(cur)
        } else {
            done
        };
        let cur2 = if brk {
            Seq::<u8>::empty()
        } else {
            cur
        };
        let len2: nat = if brk {
            0
        } else {
            len
        };
        let cur3 = if len2 > 0 {
            cur2.push(32u8)
        } else {
            cur2
        };
        let len3: nat = if len2 > 0 {
            sat(len2 as int + 1)
        } else {
            len2
        };
        lemma_fill_nonempty(words, fc, k + 1, done2, cur3 + w, sat(len3 as int + w.len()));
    }
}

pub(crate) fn sat_add(a: usize, b: usize) -> (r: usize)
    ensures
        r == sat(a + b),
{
    a.saturating_add(b)
}

/// Appends `w` to `cur`.
pub(crate) fn extend_bytes(cur: &mut Vec<u8>, w: &Vec<u8>)
    ensures
        final(cur)@ == old(cur)@ + w@,
{
    let mut j: usize = 0;
    while j < w.len()
        invariant
            j <= w@.len(),
            cur@ == old(cur)@ + w@.take(j as int),
        decreases w@.len() - j,
    {
        cur.push(w[j]);
        j += 1;
        assert(cur@ =~= old(cur)@ + w@.take(j as int));
    }
    assert(w@.take(w@.len() as int) =~= w@);
}

/// Lays out `words` in lines of at most `fillcol` columns; see `fill_layout`.
pub fn fill_lines_of(words: &Vec<Vec<u8>>, fillcol: usize) -> (r: Vec<Vec<u8>>)
    ensures
        r@.map_values(|v: Vec<u8>| v@) == fill_layout(words@.map_values(|v: Vec<u8>| v@), fillcol as nat),
{
    let ghost ws = words@.map_values(|v: Vec<u8>| v@);
    let mut done: Vec<Vec<u8>> = Vec::new();
    let mut cur: Vec<u8> = Vec::new();
    let mut len: usize = 0;
    let mut k: usize = 0;
    assert(done@.map_values(|v: Vec<u8>| v@) =~= Seq::<Seq<u8>>::empty());
    assert(cur@ =~= Seq::<u8>::empty());
    while k < words.len()
        invariant
            k <= words@.len(),
            ws == words@.map_values(|v: Vec<u8>| v@),
            fill_from(ws, fillcol as nat, k as int, done@.map_values(|v: Vec<u8>| v@), cur@, len as nat)
                == fill_layout(ws, fillcol as nat),
        decreases words@.len() - k,
    {
        let w = &words[k];
        let sp: usize = if k != 0 {
            1
        } else {
            0
        };
        let nl = sat_add(sat_add(len, sp), w.len());
        if nl > fillcol && len > 0 {
            let full = cur;
            let ghost d0 = done@.map_values(|v: Vec<u8>| v@);
            let ghost f0 = full@;
            done.push(full);
            assert(done@.map_values(|v: Vec<u8>| v@) =~= d0.push(f0));
            cur = Vec::new();
            len = 0;
        }
        if len > 0 {
            cur.push(32);
            len = sat_add(len, 1);
        }
        extend_bytes(&mut cur, w);
        len = sat_add(len, w.len());
        k += 1;
    }
    let ghost d0 = done@.map_values(|v: Vec<u8>| v@);
    let ghost c0 = cur@;
    done.push(cur);
    assert(done@.map_values(|v: Vec<u8>| v@) =~= d0.push(c0));
    done
}

} // verus!

verus! {

/// `m` with the first `lm` bytes of line `s` left out.
pub open spec fn trimmed(m: TextModel, s: usize, lm: usize) -> TextModel {
    if s < m.arena.len() {
        TextModel {
            ids: m.ids,
            arena: m.arena.update(
                s as int,
                if lm < m.arena[s as int].len() {
                    m.arena[s as int].skip(lm as int)
                } else {
                    Seq::empty()
                },
            ),
        }
    } else {
        m
    }
}

/// The words of the paragraph from `s` to `e`, the first `lm` bytes of its first line left
/// out (none when it starts at the header or on no line).
pub open spec fn para_words_at(m: TextModel, s: usize, e: usize, lm: usize) -> Seq<Seq<u8>> {
    if s == 0 || s >= m.arena.len() {
        Seq::empty()
    } else {
        words_of_lines(trimmed(m, s, lm), chain(m, s, e))
    }
}

/// The words of the paragraph from `s` to `e` (none when it starts at the header or on no
/// line).
pub open spec fn para_words(m: TextModel, s: usize, e: usize) -> Seq<Seq<u8>> {
    para_words_at(m, s, e, 0)
}

/// The bytes of `t` from `k` on (none when `k` is past its end).
fn suffix_from(t: &Vec<u8>, k: usize) -> (r: Vec<u8>)
    ensures
        r@ == (if k < t@.len() {
            t@.skip(k as int)
        } else {
            Seq::empty()
        }),
{
    let mut r: Vec<u8> = Vec::new();
    let mut i: usize = k;
    while i < t.len()
        invariant
            k <= i,
            k < t@.len() ==> i <= t@.len() && r@ == t@.subrange(k as int, i as int),
            k >= t@.len() ==> i == k && r@.len() == 0,
        decreases t@.len() - i,
    {
        r.push(t[i]);
        i += 1;
        proof {
            if k < t@.len() {
                assert(r@ =~= t@.subrange(k as int, i as int));
            }
        }
    }
    proof {
        if k < t@.len() {
            assert(t@.subrange(k as int, t@.len() as int) =~= t@.skip(k as int));
        } else {
            assert(r@ =~= Seq::<u8>::empty());
        }
    }
    r
}

/// The words of the paragraph that starts at text line or detached line `s` and ends at
/// `e`, `a` being the line after it; the first `lm` bytes of `s` are left out.
fn words_of_para(b: &Buffer, s: LineId, e: LineId, a: LineId, lm: usize) -> (r: Vec<Vec<u8>>)
    requires
        b.wf(),
        s.0 != 0,
        s.0 < b.lines@.len(),
        e.0 == crate::edit::commands::paragraph::para_last(b.model(), s.0, (b.ids().len() + 1) as nat),
        a.0 == crate::edit::commands::paragraph::after_of(b.model(), e.0),
    ensures
        r@.map_values(|v: Vec<u8>| v@) == para_words_at(b.model(), s.0, e.0, lm),
{
    let ghost m = b.model();
    let ghost mt = trimmed(m, s.0, lm);
    let mut words: Vec<Vec<u8>> = Vec::new();
    let first = suffix_from(&b.lines[s.0].text, lm);
    assert(first@ == mt.arena[s.0 as int]);
    if !b.is_text_line(s) {
        push_words(&mut words, &first);
        proof {
            let c = chain(m, s.0, e.0);
            crate::edit::commands::paragraph::lemma_para_last(*b, s.0, (b.ids().len() + 1) as nat);
            assert(c == seq![s.0]);
            assert(c.drop_last() =~= Seq::<usize>::empty());
            assert(words_of_lines(mt, Seq::<usize>::empty()) == Seq::<Seq<u8>>::empty());
            assert(Seq::<Seq<u8>>::empty() + words_of(mt.arena[s.0 as int]) =~= words_of(mt.arena[s.0 as int]));
            assert(words@.map_values(|v: Vec<u8>| v@) =~= Seq::<Seq<u8>>::empty() + words_of(first@));
        }
        return words;
    }
    proof {
        crate::edit::commands::paragraph::lemma_para_last(*b, s.0, (b.ids().len() + 1) as nat);
        assert(words@.map_values(|v: Vec<u8>| v@) =~= Seq::<Seq<u8>>::empty());
    }
    let ghost ids = b.ids();
    let ghost ps = b.pos_of(s.0);
    let ghost pe = b.pos_of(e.0);
    proof {
        assert(ids[ps] == s.0);
        assert(ids[pe] == e.0);
        b.lemma_pos_of(pe);
        if pe + 1 < ids.len() {
            b.lemma_pos_of(pe + 1);
        }
        assert(words_of_lines(mt, ids.subrange(ps, ps)) == Seq::<Seq<u8>>::empty()) by {
            assert(ids.subrange(ps, ps) =~= Seq::<usize>::empty());
        }
        assert(forall|k: int| 0 <= k < ids.len() ==> #[trigger] ids[k] > 0);
    }
    let mut cur = s;
    let ghost mut j: int = ps;
    while cur.0 != a.0 && cur.0 != 0
        invariant
            b.wf(),
            m == b.model(),
            mt == trimmed(m, s.0, lm),
            s.0 < m.arena.len(),
            first@ == mt.arena[s.0 as int],
            ids == b.ids(),
            0 <= ps <= j <= pe + 1,
            pe < ids.len(),
            forall|k: int| 0 <= k < ids.len() ==> #[trigger] ids[k] > 0,
            ids.no_duplicates(),
            a.0 == (if pe + 1 < ids.len() {
                ids[pe + 1]
            } else {
                0
            }),
            cur.0 == (if j <= pe {
                ids[j]
            } else {
                a.0
            }),
            words@.map_values(|v: Vec<u8>| v@) == words_of_lines(mt, ids.subrange(ps, j)),
        decreases pe + 1 - j,
    {
        proof {
            if j > pe {
                assert(cur.0 == a.0);
            }
            b.lemma_pos_of(j);
            if j + 1 < ids.len() {
                b.lemma_pos_of(j + 1);
            }
        }
        if cur.0 == s.0 {
            push_words(&mut words, &first);
        } else {
            push_words(&mut words, &b.lines[cur.0].text);
        }
        proof {
            assert(ids.subrange(ps, j + 1).drop_last() =~= ids.subrange(ps, j));
            j = j + 1;
        }
        cur = match b.next_line(cur) {
            Some(x) => x,
            None => LineId(0),
        };
    }
    proof {
        if j <= pe {
            assert(ids[j] != a.0 && ids[j] != 0) by {
                if pe + 1 < ids.len() {
                    assert(j != pe + 1);
                }
            }
        }
        assert(j == pe + 1);
        assert(chain(m, s.0, e.0) == ids.subrange(ps, pe + 1));
    }
    words
}

/// The paragraph around `dot_line`: the header, its first line, the line after it, and the
/// words of its lines, the first `lm` bytes of the first left out.
fn para_and_words(b: &Buffer, dot_line: LineId, lm: usize) -> (r: (LineId, LineId, LineId, Vec<Vec<u8>>))
    requires
        b.wf(),
    ensures
        ({
            let (s, e, a) = para_bounds(b.model(), dot_line.0);
            &&& r.0 == LineId(0)
            &&& r.1 == LineId(s)
            &&& r.2 == LineId(a)
            &&& r.3@.map_values(|v: Vec<u8>| v@) == para_words_at(b.model(), s, e, lm)
        }),
{
    let s = crate::edit::commands::paragraph::first_of_para(b, dot_line);
    let e = crate::edit::commands::paragraph::last_of_para(b, s);
    let a = match b.next_line(e) {
        Some(x) => x,
        None => LineId(0),
    };
    if s.0 == 0 || s.0 >= b.lines.len() {
        let words: Vec<Vec<u8>> = Vec::new();
        assert(words@.map_values(|v: Vec<u8>| v@) =~= Seq::<Seq<u8>>::empty());
        return (LineId(0), s, a, words);
    }
    let words = words_of_para(b, s, e, a, lm);
    (LineId(0), s, a, words)
}

/// The paragraph around `dot_line`: the header, its first line, the line after it, and its
/// words.
pub fn collect_paragraph(editor: &Editor, buf_id: BufferId, dot_line: LineId) -> (r: Result<(LineId, LineId, LineId, Vec<Vec<u8>>)>)
    requires
        editor.wf(),
    ensures
        buf_id.0 >= editor.buffers.seq().len() ==> r is Err,
        buf_id.0 < editor.buffers.seq().len() ==> {
            let b = editor.buffers.seq()[buf_id.0 as int];
            let (s, e, a) = para_bounds(b.model(), dot_line.0);
            &&& r is Ok
            &&& (r->Ok_0).0 == LineId(0)
            &&& (r->Ok_0).1 == LineId(s)
            &&& (r->Ok_0).2 == LineId(a)
            &&& (r->Ok_0).3@.map_values(|v: Vec<u8>| v@) == para_words(b.model(), s, e)
        },
{
    match editor.buffers.get(buf_id) {
        Some(b) => Ok(para_and_words(b, dot_line, 0)),
        None => Err(Error::Abort),
    }
}

/// The paragraph around the dot of the current window in buffer `buf_id`, as
/// `collect_paragraph` finds it, but with the first `leftmarg` bytes of its first line
/// left out of the words.
pub fn collect_justify_para(editor: &Editor, buf_id: BufferId, leftmarg: usize) -> (r: Result<(LineId, LineId, LineId, Vec<Vec<u8>>)>)
    requires
        editor.wf(),
    ensures
        editor.cur() is None || buf_id.0 >= editor.buffers.seq().len() ==> r is Err,
        editor.cur() is Some && buf_id.0 < editor.buffers.seq().len() ==> {
            let b = editor.buffers.seq()[buf_id.0 as int];
            let (s, e, a) = para_bounds(b.model(), editor.cur_win().dot_line.0);
            &&& r is Ok
            &&& (r->Ok_0).0 == LineId(0)
            &&& (r->Ok_0).1 == LineId(s)
            &&& (r->Ok_0).2 == LineId(a)
            &&& (r->Ok_0).3@.map_values(|v: Vec<u8>| v@) == para_words_at(b.model(), s, e, leftmarg)
        },
{
    let w = editor.cur_window()?;
    match editor.buffers.get(buf_id) {
        Some(b) => Ok(para_and_words(b, w.dot_line, leftmarg)),
        None => Err(Error::Abort),
    }
}

} // verus!

verus! {

/// Where the lines merged into `s` stop: at `end` when it is a text line after `s`, else at
/// the end of the buffer (as a position among the text lines).
pub open spec fn merge_stop(m: TextModel, s: usize, end: usize) -> int {
    if m.ids.contains(end) && m.ids.index_of(end) > m.ids.index_of(s) {
        m.ids.index_of(end)
    } else {
        m.ids.len() as int
    }
}

/// `n` arena indices from `base` on.
pub open spec fn fresh_run(base: nat, n: nat) -> Seq<usize> {
    Seq::new(n, |i: int| (base + i) as usize)
}

/// The text after the lines from `s` up to `end` are replaced by `lines`, the first going
/// into `s` and the others into new lines after it.
pub open spec fn replaced_by(m: TextModel, s: usize, end: usize, lines: Seq<Seq<u8>>) -> TextModel {
    let ps = m.ids.index_of(s);
    TextModel {
        ids: m.ids.take(ps + 1) + fresh_run(m.arena.len(), (lines.len() - 1) as nat) + m.ids.skip(
            merge_stop(m, s, end),
        ),
        arena: m.arena.update(s as int, lines[0]) + lines.skip(1),
    }
}

/// Replaces the lines from `s` up to `end` by `lines` (see `replaced_by`).
pub(crate) fn replace_lines(b: &mut Buffer, s: LineId, end: LineId, lines: &Vec<Vec<u8>>)
    requires
        old(b).wf(),
        old(b).has_line(s.0),
        lines@.len() >= 1,
        old(b).lines@.len() + lines@.len() < usize::MAX,
    ensures
        final(b).wf(),
        final(b).model() == replaced_by(old(b).model(), s.0, end.0, lines@.map_values(|v: Vec<u8>| v@)),
        same_meta(*final(b), *old(b)),
        final(b).flags == old(b).flags,
{
    let ghost m0 = b.model();
    let ghost ids0 = b.ids();
    let ghost ps = b.pos_of(s.0);
    let ghost stop = merge_stop(m0, s.0, end.0);
    proof {
        assert(ids0[ps] == s.0);
        b.lemma_pos_of(ps);
        if ids0.contains(end.0) {
            let k = ids0.index_of(end.0);
            assert(ids0[k] == end.0);
            b.lemma_pos_of(k);
        }
        assert(forall|k: int| 0 <= k < ids0.len() ==> #[trigger] ids0[k] > 0);
        assert(ids0.take(ps + 1) + ids0.skip(ps + 1) =~= ids0);
        assert(ids0.len() < usize::MAX);
    }
    let mut j: usize = 0;
    loop
        invariant
            b.wf(),
            ids0 == m0.ids,
            0 <= ps < ids0.len(),
            ids0[ps] == s.0,
            ps < stop <= ids0.len(),
            stop == merge_stop(m0, s.0, end.0),
            stop < ids0.len() ==> ids0[stop] == end.0,
            forall|k: int| 0 <= k < ids0.len() ==> #[trigger] ids0[k] > 0,
            ids0.no_duplicates(),
            ids0.len() < usize::MAX,
            ps + 1 + j <= stop,
            b.ids() == ids0.take(ps + 1) + ids0.skip(ps + 1 + j),
            b.model().arena == m0.arena,
            same_meta(*b, *old(b)),
            b.flags == old(b).flags,
        ensures
            b.ids() == ids0.take(ps + 1) + ids0.skip(stop),
            b.model().arena == m0.arena,
            b.wf(),
            same_meta(*b, *old(b)),
            b.flags == old(b).flags,
        decreases stop - j,
    {
        proof {
            b.lemma_pos_of(ps);
            assert(b.ids()[ps] == s.0);
            if ps + 1 < b.ids().len() {
                b.lemma_pos_of(ps + 1);
                assert(b.ids()[ps + 1] == ids0[ps + 1 + j]);
            }
        }
        let next = match b.next_line(s) {
            Some(x) => x,
            None => LineId(0),
        };
        if next.0 == end.0 || next.0 == 0 {
            proof {
                if ps + 1 + j < stop {
                    assert(next.0 == ids0[ps + 1 + j]);
                    assert(ids0[ps + 1 + j] != end.0) by {
                        if ids0.contains(end.0) {
                            let k = ids0.index_of(end.0);
                            if k > ps && k < stop {
                                assert(false);
                            }
                        }
                    }
                }
                assert(ps + 1 + j == stop);
            }
            break;
        }
        proof {
            if ps + 1 + j == stop {
                if stop < ids0.len() {
                    assert(next.0 == end.0);
                } else {
                    assert(next.0 == 0);
                }
            }
        }
        let ghost bb = *b;
        b.remove(next);
        proof {
            assert(bb.ids()[ps + 1] == next.0);
            assert(b.ids() =~= ids0.take(ps + 1) + ids0.skip(ps + 1 + j + 1));
            assert(b.model().arena =~= m0.arena) by {
                assert forall|k: int| 0 <= k < b.lines@.len() implies #[trigger] b.model().arena[k] == m0.arena[k] by {
                    assert(b.text_of(k as usize) == bb.text_of(k as usize));
                    assert(bb.model().arena[k] == m0.arena[k]);
                }
            }
            if ps + 1 + j + 1 > stop {
                assert(ids0[stop] == end.0);
            }
        }
        j += 1;
    }
    let ghost mid = b.model();
    let ghost bm = *b;
    b.set_line_text(s, lines[0].clone());
    proof {
        assert(b.model().arena =~= m0.arena.update(s.0 as int, lines@[0]@)) by {
            assert forall|k: int| 0 <= k < b.lines@.len() implies #[trigger] b.model().arena[k]
                == m0.arena.update(s.0 as int, lines@[0]@)[k] by {
                if k != s.0 {
                    assert(b.text_of(k as usize) == bm.text_of(k as usize));
                }
            }
        }
    }
    let mut cur = s;
    let mut i: usize = 1;
    let ghost ls = lines@.map_values(|v: Vec<u8>| v@);
    proof {
        assert(ls.skip(1).take(0) =~= Seq::<Seq<u8>>::empty());
        assert(m0.arena.update(s.0 as int, ls[0]) + Seq::<Seq<u8>>::empty() =~= m0.arena.update(s.0 as int, ls[0]));
        assert(fresh_run(m0.arena.len(), 0) =~= Seq::<usize>::empty());
        assert(ids0.take(ps + 1) + Seq::<usize>::empty() + ids0.skip(stop) =~= ids0.take(ps + 1) + ids0.skip(stop));
    }
    while i < lines.len()
        invariant
            b.wf(),
            ls == lines@.map_values(|v: Vec<u8>| v@),
            ls.len() == lines@.len(),
            s.0 < m0.arena.len(),
            1 <= i <= lines@.len(),
            old(b).lines@.len() + lines@.len() < usize::MAX,
            m0 == old(b).model(),
            ids0 == m0.ids,
            0 <= ps < ids0.len(),
            ids0[ps] == s.0,
            ps < stop <= ids0.len(),
            b.ids() == ids0.take(ps + 1) + fresh_run(m0.arena.len(), (i - 1) as nat) + ids0.skip(stop),
            b.model().arena == m0.arena.update(s.0 as int, ls[0]) + ls.skip(1).take(i - 1),
            b.lines@.len() == m0.arena.len() + i - 1,
            cur.0 == (if i == 1 {
                s.0
            } else {
                (m0.arena.len() + i - 2) as usize
            }),
            same_meta(*b, *old(b)),
            b.flags == old(b).flags,
        decreases lines@.len() - i,
    {
        proof {
            let k = ps + (i - 1);
            assert(b.ids()[k] == cur.0);
            b.lemma_pos_of(k);
        }
        let mut ln = crate::line::Line::new();
        ln.text = lines[i].clone();
        assert(ln.text@ == ls[i as int]);
        let ghost bb = *b;
        let nid = b.insert_after(cur, ln);
        proof {
            let k = ps + (i - 1);
            assert(bb.ids()[k] == cur.0);
            assert(b.ids() =~= ids0.take(ps + 1) + fresh_run(m0.arena.len(), i as nat) + ids0.skip(stop));
            assert(b.model().arena =~= m0.arena.update(s.0 as int, ls[0]) + ls.skip(1).take(i as int)) by {
                assert forall|q: int| 0 <= q < b.lines@.len() implies #[trigger] b.model().arena[q]
                    == (m0.arena.update(s.0 as int, ls[0]) + ls.skip(1).take(i as int))[q] by {
                    let a = m0.arena.update(s.0 as int, ls[0]);
                    if q < bb.lines@.len() {
                        assert(b.text_of(q as usize) == bb.text_of(q as usize));
                        assert(bb.model().arena[q] == (a + ls.skip(1).take(i - 1))[q]);
                        if q >= a.len() {
                            assert((a + ls.skip(1).take(i - 1))[q] == ls.skip(1).take(i - 1)[q - a.len()]);
                            assert((a + ls.skip(1).take(i as int))[q] == ls.skip(1).take(i as int)[q - a.len()]);
                        }
                    } else {
                        assert(q == nid.0);
                        assert(b.model().arena[q] == b.text_of(nid.0));
                        assert((a + ls.skip(1).take(i as int))[q] == ls.skip(1).take(i as int)[q - a.len()]);
                        assert(q - a.len() == i - 1);
                    }
                }
            }
        }
        cur = nid;
        i += 1;
    }
    proof {
        assert(ls.skip(1).take(lines@.len() - 1) =~= ls.skip(1));
        assert(ls[0] == lines@[0]@);
    }
}

} // verus!

verus! {

/// What putting `lines` in place of the lines from `start` up to `end` does to buffer
/// `buf_id`: see `replaced_by`; the buffer is marked changed.  Fails when the buffer is
/// missing or `start` is not a text line.
pub open spec fn lines_put<T>(
    e0: &Editor,
    e1: &Editor,
    buf_id: BufferId,
    start: LineId,
    end: LineId,
    lines: Seq<Seq<u8>>,
    r: Result<T>,
) -> bool {
    let bs = e0.buffers.seq();
    if buf_id.0 >= bs.len() || !bs[buf_id.0 as int].has_line(start.0) || bs[buf_id.0 as int].lines@.len()
        + lines.len() >= usize::MAX {
        r is Err && *e1 == *e0
    } else {
        let b = bs[buf_id.0 as int];
        let b1 = e1.buffers.seq()[buf_id.0 as int];
        &&& r is Ok
        &&& *e1 == (Editor { buffers: e1.buffers, ..*e0 })
        &&& e1.buffers.seq() == bs.update(buf_id.0 as int, b1)
        &&& b1.model() == replaced_by(b.model(), start.0, end.0, lines)
        &&& same_meta(b1, b)
        &&& b1.flags == BufferFlags(b.flags.0 | BufferFlags::changed().0)
    }
}

/// What refilling the paragraph from `start` to `end` with `words` does to buffer `buf_id`:
/// its lines are replaced by the filled lines and it is marked changed.  Fails when the
/// buffer is missing or `start` is not a text line.
pub open spec fn filled_lines(
    e0: &Editor,
    e1: &Editor,
    buf_id: BufferId,
    start: LineId,
    end: LineId,
    words: Seq<Seq<u8>>,
    fillcol: usize,
    r: Result<Vec<UndoAction>>,
) -> bool {
    lines_put(e0, e1, buf_id, start, end, fill_layout(words, fillcol as nat), r)
}

/// Replaces the paragraph from `start` to `end` by `words` filled to `fillcol`, returning
/// the undo records of the change: the old bytes of `start` taken out, the other lines of
/// the paragraph joined onto it, and the filled lines built up word by word (see
/// `fill_records`).
pub fn fill_paragraph_lines(
    editor: &mut Editor,
    buf_id: BufferId,
    head: LineId,
    start: LineId,
    end: LineId,
    words: &Vec<Vec<u8>>,
    fillcol: usize,
) -> (r: Result<Vec<UndoAction>>)
    requires
        old(editor).wf(),
    ensures
        final(editor).wf(),
        filled_lines(&*old(editor), &*final(editor), buf_id, start, end, words@.map_values(|v: Vec<u8>| v@), fillcol, r),
        r matches Ok(a) ==> actions_view(a@) == fill_records(
            old(editor).buffers.seq()[buf_id.0 as int].model(),
            start.0,
            end.0,
            words@.map_values(|v: Vec<u8>| v@),
            fillcol as nat,
        ),
{
    let lines = fill_lines_of(words, fillcol);
    proof {
        lemma_fill_nonempty(words@.map_values(|v: Vec<u8>| v@), fillcol as nat, 0, Seq::empty(), Seq::empty(), 0);
    }
    let mut actions: Vec<UndoAction> = Vec::new();
    let ghost m0 = if buf_id.0 < editor.buffers.seq().len() {
        editor.buffers.seq()[buf_id.0 as int].model()
    } else {
        TextModel { ids: Seq::empty(), arena: Seq::empty() }
    };
    match editor.buffers.get(buf_id) {
        Some(b) => {
            if b.is_text_line(start) && b.lines.len() < usize::MAX - lines.len() {
                let old_text = b.lines[start.0].text.clone();
                proof {
                    assert(old_text@ == m0.arena[start.0 as int]);
                }
                if old_text.len() > 0 {
                    let ghost ot = old_text@;
                    let d = UndoAction::Delete { line: start, offset: 0, data: old_text };
                    actions.push(d);
                    proof {
                        assert(actions_view(actions@) =~= seq![ActionView::Delete { line: start.0, offset: 0, data: ot }]);
                    }
                } else {
                    assert(actions_view(actions@) =~= Seq::<ActionView>::empty());
                }
                let ghost a1 = actions_view(actions@);
                let mut merges = merge_actions(b, start, end, 0);
                actions.append(&mut merges);
                let ghost a2 = actions_view(actions@);
                let mut built = fill_word_actions(words, fillcol, start, b.lines.len());
                actions.append(&mut built);
                proof {
                    assert(a2 =~= a1 + merge_records(m0, start.0, end.0, 0));
                    assert(actions_view(actions@) =~= a2 + fill_records_from(
                        words@.map_values(|v: Vec<u8>| v@),
                        fillcol as nat,
                        0,
                        Seq::empty(),
                        Seq::empty(),
                        0,
                        start.0,
                        m0.arena.len(),
                    ));
                }
            }
        },
        None => {},
    }
    put_lines(editor, buf_id, start, end, &lines)?;
    Ok(actions)
}

/// Puts `lines` in place of the lines of buffer `buf_id` from `start` up to `end` (see
/// `lines_put`).
pub(crate) fn put_lines(
    editor: &mut Editor,
    buf_id: BufferId,
    start: LineId,
    end: LineId,
    lines: &Vec<Vec<u8>>,
) -> (r: Result<()>)
    requires
        old(editor).wf(),
        lines@.len() >= 1,
    ensures
        final(editor).wf(),
        lines_put(&*old(editor), &*final(editor), buf_id, start, end, lines@.map_values(|v: Vec<u8>| v@), r),
{
    if buf_id.0 >= editor.buffers.len() {
        return Err(Error::Abort);
    }
    let ok = match editor.buffers.get(buf_id) {
        Some(b) => b.is_text_line(start) && b.lines.len() < usize::MAX - lines.len(),
        None => false,
    };
    if !ok {
        return Err(Error::Abort);
    }
    let mut b = editor.buffers.take(buf_id);
    replace_lines(&mut b, start, end, lines);
    b.flags = b.flags.union(BufferFlags::changed());
    editor.buffers.put(buf_id, b);
    proof {
        assert(editor.buffers.seq() =~= old(editor).buffers.seq().update(buf_id.0 as int, b));
    }
    Ok(())
}

} // verus!

verus! {

/// Fills the paragraph around the dot to the fill column.
pub struct FillPara;

/// What `FillPara` does: with a fill column, the words of the paragraph around the dot are
/// laid out again in lines no longer than the fill column (a longer word stands alone), the
/// first in the paragraph's first line and the others in new lines; the dot goes to the end
/// of the last of them.  Nothing changes without a fill column or without words.
pub open spec fn para_filled(e0: &Editor, e1: &Editor, r: Result<()>) -> bool {
    let fc = e0.fillcol;
    if fc == 0 {
        r is Ok && *e1 == *e0
    } else if !e0.has_cur() {
        r is Err && *e1 == *e0
    } else {
        let w = e0.cur_win();
        let b = e0.cur_buf();
        let m = b.model();
        let (s, e, a) = para_bounds(m, w.dot_line.0);
        let words = para_words(m, s, e);
        let lines = fill_layout(words, fc as nat);
        if words.len() == 0 {
            r is Ok && *e1 == *e0
        } else if !b.has_line(s) || b.lines@.len() + lines.len() >= usize::MAX {
            r is Err && *e1 == *e0
        } else {
            let last: usize = if lines.len() == 1 {
                s
            } else {
                (m.arena.len() + lines.len() - 2) as usize
            };
            &&& r is Ok
            &&& e1.changed_cur(e0, with_dot(w, LineId(last), lines.last().len() as usize, WindowFlags::moved()), e1.cur_buf())
            &&& e1.cur_buf().model() == replaced_by(m, s, a, lines)
            &&& same_meta(e1.cur_buf(), b)
            &&& e1.cur_buf().flags == BufferFlags(b.flags.0 | BufferFlags::changed().0)
            &&& e1.undo_grown(e0, 1)
            &&& e1.undo_stack@.last().buffer_id == w.buffer_id
            &&& e1.undo_stack@.last().dot_line == w.dot_line
            &&& e1.undo_stack@.last().dot_offset == w.dot_offset
            &&& actions_view(e1.undo_stack@.last().actions@) == fill_records(m, s, a, words, fc as nat)
        }
    }
}

impl Command for FillPara {
    fn execute(&self, editor: &mut Editor, f: bool, n: usize) -> (r: Result<()>)
        ensures
            para_filled(&*old(editor), &*final(editor), r),
    {
        let fillcol = editor.fillcol;
        if fillcol == 0 {
            return Ok(());
        }
        let w = editor.cur_checked()?;
        let (head, start, end, words) = collect_paragraph(editor, w.buffer_id, w.dot_line)?;
        if words.len() == 0 {
            return Ok(());
        }
        let ghost e0 = *editor;
        let ghost ws = words@.map_values(|v: Vec<u8>| v@);
        proof {
            assert(ws.len() == words@.len());
            lemma_fill_nonempty(ws, fillcol as nat, 0, Seq::empty(), Seq::empty(), 0);
        }
        let old_len = match editor.buffers.get(w.buffer_id) {
            Some(b) => b.lines.len(),
            None => 0,
        };
        let ghost m0 = e0.buffers.seq()[w.buffer_id.0 as int].model();
        let actions = fill_paragraph_lines(editor, w.buffer_id, head, start, end, &words, fillcol)?;
        let ghost e1 = *editor;
        proof {
            let fr = fill_records_from(ws, fillcol as nat, 0, Seq::empty(), Seq::empty(), 0, start.0, m0.arena.len());
            assert(fr.len() >= 1);
            assert(actions_view(actions@).len() == actions@.len());
            assert(actions@.len() >= 1);
        }
        if actions.len() > 0 {
            editor.push_undo(actions);
        }
        let (last, len) = match editor.buffers.get(w.buffer_id) {
            Some(b) => {
                let last = if b.lines.len() == old_len {
                    start
                } else {
                    LineId(b.lines.len() - 1)
                };
                let len = match b.line_len(last) {
                    Some(k) => k,
                    None => 0,
                };
                (last, len)
            },
            None => (start, 0),
        };
        let ghost e2 = *editor;
        editor.set_cur_dot(last, len, WindowFlags::moved());
        proof {
            let lines = fill_layout(ws, fillcol as nat);
            let b1 = e1.buffers.seq()[w.buffer_id.0 as int];
            assert(b1.model().arena.len() == b1.lines@.len());
            assert(lines.len() >= 1);
            if lines.len() == 1 {
                assert(b1.model().arena[start.0 as int] == lines[0]);
            } else {
                assert(b1.model().arena[b1.lines@.len() - 1] == lines.last());
            }
        }
        Ok(())
    }
}

} // verus!

verus! {

/// The words of lines, in order.
pub open spec fn words_of_all(lines: Seq<Seq<u8>>) -> Seq<Seq<u8>>
    decreases lines.len(),
{
    if lines.len() == 0 {
        Seq::empty()
    } else {
        words_of_all(lines.drop_last()) + words_of(lines.last())
    }
}

/// `w` can be a word: bytes, none of them a blank.
pub open spec fn is_word(w: Seq<u8>) -> bool {
    w.len() > 0 && forall|i: int| 0 <= i < w.len() ==> !blank(#[trigger] w[i])
}

/// What is read from `i` on in `a + b` is what is read in `b` from `i - a.len()` on.
proof fn lemma_words_shift(a: Seq<u8>, b: Seq<u8>, j: int, c: Seq<u8>)
    requires
        0 <= j <= b.len(),
    ensures
        words_from(a + b, a.len() + j, c) == words_from(b, j, c),
    decreases b.len() - j,
{
    if j < b.len() {
        assert((a + b)[a.len() + j] == b[j]);
        if blank(b[j]) {
            lemma_words_shift(a, b, j + 1, Seq::empty());
        } else {
            lemma_words_shift(a, b, j + 1, c.push(b[j]));
        }
    }
}

/// After a blank, the words of `a + b` are those of `a` and then those of `b`.
pub(crate) proof fn lemma_words_concat(a: Seq<u8>, b: Seq<u8>, i: int, c: Seq<u8>)
    requires
        a.len() > 0,
        blank(a.last()),
        0 <= i < a.len(),
    ensures
        words_from(a + b, i, c) == words_from(a, i, c) + words_of(b),
    decreases a.len() - i,
{
    assert((a + b)[i] == a[i]);
    if i == a.len() - 1 {
        lemma_words_shift(a, b, 0, Seq::empty());
        assert(words_from(a, a.len() as int, Seq::empty()) == Seq::<Seq<u8>>::empty());
        assert((if c.len() > 0 {
            seq![c]
        } else {
            Seq::empty()
        }) + words_of(b) == (if c.len() > 0 {
            seq![c]
        } else {
            Seq::empty()
        }) + Seq::<Seq<u8>>::empty() + words_of(b));
    } else if blank(a[i]) {
        lemma_words_concat(a, b, i + 1, Seq::empty());
    } else {
        lemma_words_concat(a, b, i + 1, c.push(a[i]));
    }
}

/// A blank at the end adds no word.
pub(crate) proof fn lemma_words_blank_end(x: Seq<u8>, i: int, c: Seq<u8>)
    requires
        0 <= i <= x.len(),
    ensures
        words_from(x.push(32u8), i, c) == words_from(x, i, c),
    decreases x.len() - i,
{
    assert(blank(32u8));
    if i == x.len() {
        assert(x.push(32u8)[i] == 32u8);
        assert(words_from(x.push(32u8), i + 1, Seq::empty()) == Seq::<Seq<u8>>::empty());
        assert((if c.len() > 0 {
            seq![c]
        } else {
            Seq::empty()
        }) + Seq::<Seq<u8>>::empty() =~= (if c.len() > 0 {
            seq![c]
        } else {
            Seq::empty()
        }));
    } else {
        assert(x.push(32u8)[i] == x[i]);
        if blank(x[i]) {
            lemma_words_blank_end(x, i + 1, Seq::empty());
        } else {
            lemma_words_blank_end(x, i + 1, c.push(x[i]));
        }
    }
}

/// A word read alone is one word.
pub(crate) proof fn lemma_word_alone(w: Seq<u8>, i: int)
    requires
        is_word(w),
        0 <= i <= w.len(),
    ensures
        words_from(w, i, w.take(i)) == seq![w],
    decreases w.len() - i,
{
    if i < w.len() {
        assert(!blank(w[i]));
        assert(w.take(i).push(w[i]) =~= w.take(i + 1));
        lemma_word_alone(w, i + 1);
    } else {
        assert(w.take(i) =~= w);
    }
}

/// The words of a line, a space and a word: the words of the line, then that word.
pub(crate) proof fn lemma_words_space_word(x: Seq<u8>, w: Seq<u8>)
    requires
        is_word(w),
    ensures
        words_of(x.push(32u8) + w) == words_of(x) + seq![w],
{
    lemma_words_concat(x.push(32u8), w, 0, Seq::empty());
    lemma_words_blank_end(x, 0, Seq::empty());
    lemma_word_alone(w, 0);
    assert(w.take(0) =~= Seq::<u8>::empty());
}

/// Laying out words `k..` keeps them: the words of the lines laid out are those of the
/// lines done, of the line being filled, and the words left.
proof fn lemma_fill_keeps_words(ws: Seq<Seq<u8>>, fc: nat, k: int, done: Seq<Seq<u8>>, cur: Seq<u8>, len: nat)
    requires
        0 <= k <= ws.len(),
        forall|i: int| 0 <= i < ws.len() ==> is_word(#[trigger] ws[i]),
        len == 0 <==> cur.len() == 0,
        k == 0 ==> cur.len() == 0,
    ensures
        words_of_all(fill_from(ws, fc, k, done, cur, len)) == words_of_all(done) + words_of(cur) + ws.skip(k),
    decreases ws.len() - k,
{
    if k >= ws.len() {
        assert(ws.skip(k) =~= Seq::<Seq<u8>>::empty());
        assert(done.push(cur).drop_last() =~= done);
        assert(words_of_all(done) + words_of(cur) + Seq::<Seq<u8>>::empty() =~= words_of_all(done) + words_of(cur));
    } else {
        let w = ws[k];
        assert(is_word(w));
        let nl = sat(sat(len as int + (if k != 0 {
            1int
        } else {
            0int
        })) as int + w.len());
        let brk = nl > fc && len > 0;
        let done2 = if brk {
            done.push(cur)
        } else {
            done
        };
        let cur2 = if brk {
            Seq::<u8>::empty()
        } else {
            cur
        };
        let len2: nat = if brk {
            0
        } else {
            len
        };
        let cur3 = if len2 > 0 {
            cur2.push(32u8)
        } else {
            cur2
        };
        let len3: nat = if len2 > 0 {
            sat(len2 as int + 1)
        } else {
            len2
        };
        let cur4 = cur3 + w;
        let len4 = sat(len3 as int + w.len());
        assert(len4 > 0 && cur4.len() > 0);
        lemma_fill_keeps_words(ws, fc, k + 1, done2, cur4, len4);
        lemma_word_alone(w, 0);
        assert(w.take(0) =~= Seq::<u8>::empty());
        assert(ws.skip(k) =~= seq![w] + ws.skip(k + 1));
        if len2 > 0 {
            lemma_words_space_word(cur2, w);
        } else {
            assert(cur2.len() == 0);
            assert(cur4 =~= w);
            assert(words_of(cur2) == Seq::<Seq<u8>>::empty());
        }
        if brk {
            assert(done.push(cur).drop_last() =~= done);
            assert(words_of(Seq::<u8>::empty()) == Seq::<Seq<u8>>::empty());
        }
        assert(words_of_all(done2) + words_of(cur4) + ws.skip(k + 1) =~= words_of_all(done) + words_of(cur)
            + ws.skip(k));
    }
}

/// Filling keeps the words: the words of the filled lines are the words filled, in the
/// same order, none lost, split or joined.
pub proof fn lemma_fill_keeps_words_all(ws: Seq<Seq<u8>>, fc: nat)
    requires
        forall|i: int| 0 <= i < ws.len() ==> is_word(#[trigger] ws[i]),
    ensures
        words_of_all(fill_layout(ws, fc)) == ws,
{
    lemma_fill_keeps_words(ws, fc, 0, Seq::empty(), Seq::empty(), 0);
    assert(words_of_all(Seq::<Seq<u8>>::empty()) == Seq::<Seq<u8>>::empty());
    assert(words_of(Seq::<u8>::empty()) == Seq::<Seq<u8>>::empty());
    assert(ws.skip(0) =~= ws);
    assert(Seq::<Seq<u8>>::empty() + Seq::<Seq<u8>>::empty() + ws =~= ws);
}

} // verus!

verus! {

/// Filling lines that are already filled lays them out the same way again.
pub proof fn lemma_fill_twice(ws: Seq<Seq<u8>>, fc: nat)
    requires
        forall|i: int| 0 <= i < ws.len() ==> is_word(#[trigger] ws[i]),
    ensures
        fill_layout(words_of_all(fill_layout(ws, fc)), fc) == fill_layout(ws, fc),
{
    lemma_fill_keeps_words_all(ws, fc);
}

} // verus!
