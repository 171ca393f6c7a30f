use crate::edit::commands::delete::same_meta;
use crate::edit::commands::fill::{
    collect_justify_para, extend_bytes, is_word, lemma_word_alone, lemma_words_blank_end, lemma_words_concat,
    lemma_words_space_word, para_words_at, put_lines, replaced_by, sat_add, words_from, words_of, words_of_all,
};
use crate::edit::commands::paragraph::para_bounds;
use crate::edit::commands::region::sat;
use crate::edit::commands::undo_records::{actions_view, justify_para_actions, justify_records};
use crate::edit::helpers::blank;
use crate::edit::{with_dot, Command, Editor};
use crate::types::{BufferFlags, Error, LineId, Mode, Result, WindowFlags};
use vstd::prelude::*;

verus! {

/// `n` spaces.
pub open spec fn spaces_of(n: nat) -> Seq<u8> {
    Seq::new(n, |i: int| 32u8)
}

/// Laying out words `k..` from the left margin `lm` in lines of at most `fc` columns:
/// `done` are the full lines, `cur` the line being filled, `clen` its column and `first`
/// whether no word stands in it yet.  A word that does not fit starts a new line, padded
/// to the margin, unless the line holds nothing past the margin; words are joined by one
/// space, and a word ending in a full stop is followed by one more.
pub open spec fn justify_from(
    words: Seq<Seq<u8>>,
    fc: nat,
    lm: nat,
    k: int,
    done: Seq<Seq<u8>>,
    cur: Seq<u8>,
    clen: nat,
    first: bool,
) -> Seq<Seq<u8>>
    decreases words.len() - k,
{
    if k >= words.len() || k < 0 {
        done.push(cur)
    } else {
        let w = words[k];
        let nl = sat(sat(clen as int + (if first {
            0int
        } else {
            1int
        })) as int + w.len());
        let brk = nl > fc && clen > lm;
        let done2 = if brk {
            done.push(cur)
        } else {
            done
        };
        let cur2 = if brk {
            spaces_of(lm)
        } else {
            cur
        };
        let clen2: nat = if brk {
            lm
        } else {
            clen
        };
        let first2 = brk || first;
        let cur3 = if !first2 {
            cur2.push(32u8)
        } else {
            cur2
        };
        let clen3: nat = if !first2 {
            sat(clen2 as int + 1)
        } else {
            clen2
        };
        let cur4 = cur3 + w;
        let clen4 = sat(clen3 as int + w.len());
        let stop = w.len() > 0 && w.last() == 46u8;
        let cur5 = if stop {
            cur4.push(32u8)
        } else {
            cur4
        };
        let clen5: nat = if stop {
            sat(clen4 as int + 1)
        } else {
            clen4
        };
        justify_from(words, fc, lm, k + 1, done2, cur5, clen5, false)
    }
}

/// The lines of a justified paragraph whose first line starts with `prefix`.
pub open spec fn justify_layout(words: Seq<Seq<u8>>, fc: nat, lm: nat, prefix: Seq<u8>) -> Seq<Seq<u8>> {
    justify_from(words, fc, lm, 0, Seq::empty(), prefix, lm, true)
}

/// A justified paragraph has at least one line.
pub proof fn lemma_justify_nonempty(
    words: Seq<Seq<u8>>,
    fc: nat,
    lm: nat,
    k: int,
    done: Seq<Seq<u8>>,
    cur: Seq<u8>,
    clen: nat,
    first: bool,
)
    ensures
        justify_from(words, fc, lm, k, done, cur, clen, first).len() >= done.len() + 1,
    decreases words.len() - k,
{
    if k < words.len() && k >= 0 {
        let w = words[k];
        let nl = sat(sat(clen as int + (if first {
            0int
        } else {
            1int
        })) as int + w.len());
        let brk = nl > fc && clen > lm;
        let done2 = if brk {
            done.push(cur)
        } else {
            done
        };
        let cur2 = if brk {
            spaces_of(lm)
        } else {
            cur
        };
        let clen2: nat = if brk {
            lm
        } else {
            clen
        };
        let first2 = brk || first;
        let cur3 = if !first2 {
            cur2.push(32u8)
        } else {
            cur2
        };
        let clen3: nat = if !first2 {
            sat(clen2 as int + 1)
        } else {
            clen2
        };
        let cur4 = cur3 + w;
        let clen4 = sat(clen3 as int + w.len());
        let stop = w.len() > 0 && w.last() == 46u8;
        let cur5 = if stop {
            cur4.push(32u8)
        } else {
            cur4
        };
        let clen5: nat = if stop {
            sat(clen4 as int + 1)
        } else {
            clen4
        };
        lemma_justify_nonempty(words, fc, lm, k + 1, done2, cur5, clen5, false);
    }
}

/// Spaces hold no word.
proof fn lemma_no_words_in_spaces(n: nat, i: int)
    requires
        0 <= i <= n,
    ensures
        words_from(spaces_of(n), i, Seq::empty()) == Seq::<Seq<u8>>::empty(),
    decreases n - i,
{
    if i < n {
        assert(spaces_of(n)[i] == 32u8);
        assert(blank(32u8));
        lemma_no_words_in_spaces(n, i + 1);
        assert(Seq::<Seq<u8>>::empty() + Seq::<Seq<u8>>::empty() =~= Seq::<Seq<u8>>::empty());
    }
}

/// The words of a line that is empty or ends in a blank, followed by a word: those of the
/// line, then the word.
proof fn lemma_words_then_word(c: Seq<u8>, w: Seq<u8>)
    requires
        is_word(w),
        c.len() == 0 || blank(c.last()),
    ensures
        words_of(c + w) == words_of(c) + seq![w],
{
    lemma_word_alone(w, 0);
    assert(w.take(0) =~= Seq::<u8>::empty());
    if c.len() == 0 {
        assert(c + w =~= w);
        assert(words_of(c) == Seq::<Seq<u8>>::empty());
        assert(Seq::<Seq<u8>>::empty() + seq![w] =~= seq![w]);
    } else {
        lemma_words_concat(c, w, 0, Seq::empty());
    }
}

/// Laying out words `k..` keeps them: the words of the lines laid out are those of the
/// lines done, of the line being built, and the words left.
proof fn lemma_justify_keeps_words(
    ws: Seq<Seq<u8>>,
    fc: nat,
    lm: nat,
    k: int,
    done: Seq<Seq<u8>>,
    cur: Seq<u8>,
    clen: nat,
    first: bool,
)
    requires
        0 <= k <= ws.len(),
        forall|i: int| 0 <= i < ws.len() ==> is_word(#[trigger] ws[i]),
        first ==> cur.len() == 0 || blank(cur.last()),
    ensures
        words_of_all(justify_from(ws, fc, lm, k, done, cur, clen, first)) == words_of_all(done) + words_of(cur) + ws.skip(k),
    decreases ws.len() - k,
{
    if k >= ws.len() {
        assert(ws.skip(k) =~= Seq::<Seq<u8>>::empty());
        assert(done.push(cur).drop_last() =~= done);
        assert(words_of_all(done) + words_of(cur) + Seq::<Seq<u8>>::empty() =~= words_of_all(done) + words_of(cur));
    } else {
        let w = ws[k];
        assert(is_word(w));
        let nl = sat(sat(clen as int + (if first {
            0int
        } else {
            1int
        })) as int + w.len());
        let brk = nl > fc && clen > lm;
        let done2 = if brk {
            done.push(cur)
        } else {
            done
        };
        let cur2 = if brk {
            spaces_of(lm)
        } else {
            cur
        };
        let clen2: nat = if brk {
            lm
        } else {
            clen
        };
        let first2 = brk || first;
        let cur3 = if !first2 {
            cur2.push(32u8)
        } else {
            cur2
        };
        let clen3: nat = if !first2 {
            sat(clen2 as int + 1)
        } else {
            clen2
        };
        let cur4 = cur3 + w;
        let clen4 = sat(clen3 as int + w.len());
        let stop = w.len() > 0 && w.last() == 46u8;
        let cur5 = if stop {
            cur4.push(32u8)
        } else {
            cur4
        };
        let clen5: nat = if stop {
            sat(clen4 as int + 1)
        } else {
            clen4
        };
        lemma_justify_keeps_words(ws, fc, lm, k + 1, done2, cur5, clen5, false);
        if brk {
            lemma_no_words_in_spaces(lm, 0);
            assert(done.push(cur).drop_last() =~= done);
            if lm > 0 {
                assert(spaces_of(lm).last() == 32u8);
                assert(blank(32u8));
            }
        }
        if !first2 {
            lemma_words_space_word(cur2, w);
        } else {
            lemma_words_then_word(cur2, w);
        }
        if stop {
            lemma_words_blank_end(cur4, 0, Seq::empty());
        }
        assert(ws.skip(k) =~= seq![w] + ws.skip(k + 1));
        assert(words_of_all(done2) + words_of(cur5) + ws.skip(k + 1) =~= words_of_all(done) + words_of(cur)
            + ws.skip(k));
    }
}

/// Justifying keeps the words: the words of the justified lines are those of the first
/// line's bytes before the margin, then the words laid out, in the same order, none lost,
/// split or joined (when those bytes are empty or end in a blank, so that the first word
/// does not run on from them).
pub proof fn lemma_justify_keeps_words_all(ws: Seq<Seq<u8>>, fc: nat, lm: nat, prefix: Seq<u8>)
    requires
        forall|i: int| 0 <= i < ws.len() ==> is_word(#[trigger] ws[i]),
        prefix.len() == 0 || blank(prefix.last()),
    ensures
        words_of_all(justify_layout(ws, fc, lm, prefix)) == words_of(prefix) + ws,
{
    lemma_justify_keeps_words(ws, fc, lm, 0, Seq::empty(), prefix, lm, true);
    assert(words_of_all(Seq::<Seq<u8>>::empty()) == Seq::<Seq<u8>>::empty());
    assert(ws.skip(0) =~= ws);
    assert(Seq::<Seq<u8>>::empty() + words_of(prefix) + ws =~= words_of(prefix) + ws);
}

/// `n` spaces.
pub(crate) fn spaces(n: usize) -> (r: Vec<u8>)
    ensures
        r@ == spaces_of(n as nat),
{
    let mut r: Vec<u8> = Vec::new();
    let mut i: usize = 0;
    while i < n
        invariant
            i <= n,
            r@ == spaces_of(i as nat),
        decreases n - i,
    {
        r.push(32);
        i += 1;
        assert(r@ =~= spaces_of(i as nat));
    }
    r
}

/// Lays out `words` from the margin `leftmarg`, the first line starting with `prefix`; see
/// `justify_layout`.
pub fn justify_reflow_words(words: &Vec<Vec<u8>>, fillcol: usize, leftmarg: usize, prefix: Vec<u8>) -> (r: Vec<Vec<u8>>)
    ensures
        r@.map_values(|v: Vec<u8>| v@) == justify_layout(
            words@.map_values(|v: Vec<u8>| v@),
            fillcol as nat,
            leftmarg as nat,
            prefix@,
        ),
{
    let ghost ws = words@.map_values(|v: Vec<u8>| v@);
    let mut done: Vec<Vec<u8>> = Vec::new();
    let mut cur: Vec<u8> = prefix;
    let mut clen: usize = leftmarg;
    let mut first = true;
    let mut k: usize = 0;
    assert(done@.map_values(|v: Vec<u8>| v@) =~= Seq::<Seq<u8>>::empty());
    while k < words.len()
        invariant
            k <= words@.len(),
            ws == words@.map_values(|v: Vec<u8>| v@),
            justify_from(
                ws,
                fillcol as nat,
                leftmarg as nat,
                k as int,
                done@.map_values(|v: Vec<u8>| v@),
                cur@,
                clen as nat,
                first,
            ) == justify_layout(ws, fillcol as nat, leftmarg as nat, prefix@),
        decreases words@.len() - k,
    {
        let w = &words[k];
        assert(w@ == ws[k as int]);
        let sp: usize = if first {
            0
        } else {
            1
        };
        let nl = sat_add(sat_add(clen, sp), w.len());
        if nl > fillcol && clen > leftmarg {
            let full = cur;
            let ghost d0 = done@.map_values(|v: Vec<u8>| v@);
            let ghost f0 = full@;
            done.push(full);
            assert(done@.map_values(|v: Vec<u8>| v@) =~= d0.push(f0));
            cur = spaces(leftmarg);
            clen = leftmarg;
            first = true;
        }
        if !first {
            cur.push(32);
            clen = sat_add(clen, 1);
        }
        first = false;
        extend_bytes(&mut cur, w);
        clen = sat_add(clen, w.len());
        if w.len() > 0 && w[w.len() - 1] == 46 {
            cur.push(32);
            clen = sat_add(clen, 1);
        }
        k += 1;
    }
    let ghost d0 = done@.map_values(|v: Vec<u8>| v@);
    let ghost c0 = cur@;
    done.push(cur);
    assert(done@.map_values(|v: Vec<u8>| v@) =~= d0.push(c0));
    done
}

} // verus!

verus! {

/// Justifies the paragraph around the dot between the dot's column and the fill column.
pub struct JustifyPara;

/// What `JustifyPara` does: with a fill column at least ten columns past the dot, the
/// words of the paragraph around the dot (those of its first line taken from the dot's
/// offset on) are laid out again between the dot's offset and the fill column (see
/// `justify_layout`), the first line keeping its bytes before that offset and the others
/// padded with spaces; the dot goes to the last line, at that offset or the line's end.
/// The change is recorded for undo (see `justify_records`).  A buffer in view mode is
/// refused.
pub open spec fn para_justified(e0: &Editor, e1: &Editor, r: Result<()>) -> bool {
    let fc = e0.fillcol;
    let w = e0.cur_win();
    let b = e0.cur_buf();
    let m = b.model();
    let lm = w.dot_offset.0;
    let (s, e, a) = para_bounds(m, w.dot_line.0);
    let words = para_words_at(m, s, e, lm);
    let prefix = if lm < m.arena[s as int].len() {
        m.arena[s as int].take(lm as int)
    } else {
        m.arena[s as int]
    };
    let lines = justify_layout(words, fc as nat, lm as nat, prefix);
    if fc == 0 {
        r is Ok && *e1 == *e0
    } else if !e0.has_cur() || b.mode.0 & Mode::view().0 != 0 {
        r is Err && *e1 == *e0
    } else if lm + 10 > fc || words.len() == 0 {
        r is Ok && *e1 == *e0
    } else if !b.has_line(s) || b.lines@.len() + lines.len() >= usize::MAX {
        r is Err && *e1 == *e0
    } else {
        let last: usize = if lines.len() == 1 {
            s
        } else {
            (m.arena.len() + lines.len() - 2) as usize
        };
        let off: usize = if lines.last().len() < lm {
            lines.last().len() as usize
        } else {
            lm
        };
        &&& r is Ok
        &&& e1.changed_cur(e0, with_dot(w, LineId(last), off, WindowFlags::moved()), e1.cur_buf())
        &&& e1.cur_buf().model() == replaced_by(m, s, a, lines)
        &&& same_meta(e1.cur_buf(), b)
        &&& e1.cur_buf().flags == BufferFlags(b.flags.0 | BufferFlags::changed().0)
        &&& e1.undo_grown(e0, 1)
        &&& e1.undo_stack@.last().buffer_id == w.buffer_id
        &&& e1.undo_stack@.last().dot_line == w.dot_line
        &&& e1.undo_stack@.last().dot_offset == w.dot_offset
        &&& actions_view(e1.undo_stack@.last().actions@) == justify_records(m, s, a, words, fc as nat, lm)
    }
}

impl Command for JustifyPara {
    #[verifier::rlimit(40)]
    fn execute(&self, editor: &mut Editor, f: bool, n: usize) -> (r: Result<()>)
        ensures
            para_justified(&*old(editor), &*final(editor), r),
    {
        let fillcol = editor.fillcol;
        if fillcol == 0 {
            return Ok(());
        }
        let w = editor.cur_checked()?;
        let view = match editor.buffers.get(w.buffer_id) {
            Some(b) => b.mode.intersects(Mode::view()),
            None => true,
        };
        if view {
            return Err(Error::Abort);
        }
        let leftmarg = w.dot_offset.0;
        if fillcol < 10 || leftmarg > fillcol - 10 {
            return Ok(());
        }
        let (head, start, end, words) = collect_justify_para(editor, w.buffer_id, leftmarg)?;
        if words.len() == 0 {
            return Ok(());
        }
        let ghost e0 = *editor;
        let ghost ws = words@.map_values(|v: Vec<u8>| v@);
        let (prefix, old_len) = match editor.buffers.get(w.buffer_id) {
            Some(b) => {
                let mut p = b.lines[start.0].text.clone();
                assert(p@ == b.lines@[start.0 as int].text@);
                p.truncate(leftmarg);
                (p, b.lines.len())
            },
            None => (Vec::new(), 0),
        };
        let lines = justify_reflow_words(&words, fillcol, leftmarg, prefix);
        proof {
            let m = e0.cur_buf().model();
            assert(prefix@ == (if leftmarg < m.arena[start.0 as int].len() {
                m.arena[start.0 as int].take(leftmarg as int)
            } else {
                m.arena[start.0 as int]
            }));
            assert(ws.len() == words@.len());
            lemma_justify_nonempty(ws, fillcol as nat, leftmarg as nat, 0, Seq::empty(), prefix@, leftmarg as nat, true);
        }
        let actions = match editor.buffers.get(w.buffer_id) {
            Some(b) => {
                if b.is_text_line(start) && b.lines.len() < usize::MAX - lines.len() {
                    justify_para_actions(b, start, end, &words, fillcol, leftmarg)
                } else {
                    Vec::new()
                }
            },
            None => Vec::new(),
        };
        put_lines(editor, w.buffer_id, start, end, &lines)?;
        let ghost e1 = *editor;
        editor.push_undo(actions);
        let (last, len) = match editor.buffers.get(w.buffer_id) {
            Some(b) => {
                let last = if b.lines.len() == old_len {
                    start
                } else {
                    LineId(b.lines.len() - 1)
                };
                let len = match b.line_len(last) {
                    Some(k) => k,
                    None => 0,
                };
                (last, len)
            },
            None => (start, 0),
        };
        let off = if len < leftmarg {
            len
        } else {
            leftmarg
        };
        editor.set_cur_dot(last, off, WindowFlags::moved());
        proof {
            let ls = justify_layout(ws, fillcol as nat, leftmarg as nat, prefix@);
            let b1 = e1.buffers.seq()[w.buffer_id.0 as int];
            assert(b1.model().arena.len() == b1.lines@.len());
            if ls.len() == 1 {
                assert(b1.model().arena[start.0 as int] == ls[0]);
            } else {
                assert(b1.model().arena[b1.lines@.len() - 1] == ls.last());
            }
        }
        Ok(())
    }
}

} // verus!
