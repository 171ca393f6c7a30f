use crate::buffer::{Buffer, TextModel};
use crate::edit::Editor;
use crate::edit::commands::fill::{extend_bytes, fill_from, fill_layout, lemma_fill_nonempty, merge_stop, sat_add};
use crate::edit::commands::justify::{justify_from, justify_layout, lemma_justify_nonempty, spaces_of};
use crate::edit::commands::region::sat;
use crate::types::{LineId, UndoAction, UndoEntry};
use crate::window::Window;
use vstd::prelude::*;

verus! {

/// An undo record, by views.
pub enum ActionView {
    Insert { line: usize, offset: usize, data: Seq<u8> },
    Delete { line: usize, offset: usize, data: Seq<u8> },
    Split { line: usize, offset: usize, new_line: usize },
    Merge { line: usize, offset: usize, next_line: usize, next_data: Seq<u8>, after_next: usize },
}

/// The view of an undo record.
pub open spec fn action_view(a: UndoAction) -> ActionView {
    match a {
        UndoAction::Insert { line, offset, data } => ActionView::Insert { line: line.0, offset, data: data@ },
        UndoAction::Delete { line, offset, data } => ActionView::Delete { line: line.0, offset, data: data@ },
        UndoAction::Split { line, offset, new_line } => ActionView::Split {
            line: line.0,
            offset,
            new_line: new_line.0,
        },
        UndoAction::Merge { line, offset, next_line, next_data, after_next } => ActionView::Merge {
            line: line.0,
            offset,
            next_line: next_line.0,
            next_data: next_data@,
            after_next: after_next.0,
        },
    }
}

/// Undo entry `u` holds the buffer and the dot of window `w`, and the records `acts`.
pub open spec fn entry_holds(u: UndoEntry, w: Window, acts: Seq<ActionView>) -> bool {
    &&& u.buffer_id == w.buffer_id
    &&& u.dot_line == w.dot_line
    &&& u.dot_offset == w.dot_offset
    &&& actions_view(u.actions@) == acts
}

/// The last undo entry of `e1` holds the buffer and the dot of window `w`, and the records
/// `acts`.
pub open spec fn recorded_with(e1: &Editor, w: Window, acts: Seq<ActionView>) -> bool {
    entry_holds(e1.undo_stack@.last(), w, acts)
}

/// The last undo entry of `e1` holds the buffer and the dot of the current window of `e0`,
/// and the records `acts`.
pub open spec fn recorded(e0: &Editor, e1: &Editor, acts: Seq<ActionView>) -> bool {
    recorded_with(e1, e0.cur_win(), acts)
}

/// The views of a list of undo records.
pub open spec fn actions_view(a: Seq<UndoAction>) -> Seq<ActionView> {
    a.map_values(|x: UndoAction| action_view(x))
}

/// The records of joining the lines after `s`, up to `end` (see `merge_stop`), onto `s`
/// at offset `off`, one by one: each names the line joined, its bytes and the line after it
/// (the header after the last line).
pub open spec fn merge_records(m: TextModel, s: usize, end: usize, off: usize) -> Seq<ActionView> {
    let ps = m.ids.index_of(s);
    let stop = merge_stop(m, s, end);
    Seq::new(
        (stop - ps - 1) as nat,
        |k: int|
            ActionView::Merge {
                line: s,
                offset: off,
                next_line: m.ids[ps + 1 + k],
                next_data: m.arena[m.ids[ps + 1 + k] as int],
                after_next: if ps + 2 + k < m.ids.len() {
                    m.ids[ps + 2 + k]
                } else {
                    0
                },
            },
    )
}

/// The line that line `d` of a filled paragraph goes into: the first into `s`, the others
/// into the new lines from `base` on.
pub open spec fn fill_line_id(s: usize, base: nat, d: nat) -> usize {
    if d == 0 {
        s
    } else {
        (base + d - 1) as usize
    }
}

/// The records of laying out words `k..` as `fill_from` does, from its state: a split
/// before each word that starts a new line, the space put before a word that joins a
/// line, and the word itself, each at the end of the line it goes into.
pub open spec fn fill_records_from(
    words: Seq<Seq<u8>>,
    fc: nat,
    k: int,
    done: Seq<Seq<u8>>,
    cur: Seq<u8>,
    len: nat,
    s: usize,
    base: nat,
) -> Seq<ActionView>
    decreases words.len() - k,
{
    if k >= words.len() || k < 0 {
        Seq::empty()
    } else {
        let w = words[k];
        let nl = sat(sat(len as int + (if k != 0 {
            1int
        } else {
            0int
        })) as int + w.len());
        let brk = nl > fc && len > 0;
        let done2 = if brk {
            done.push(cur)
        } else {
            done
        };
        let cur2 = if brk {
            Seq::<u8>::empty()
        } else {
            cur
        };
        let len2: nat = if brk {
            0
        } else {
            len
        };
        let cur3 = if len2 > 0 {
            cur2.push(32u8)
        } else {
            cur2
        };
        let len3: nat = if len2 > 0 {
            sat(len2 as int + 1)
        } else {
            len2
        };
        let id = fill_line_id(s, base, done2.len());
        let split = if brk {
            seq![ActionView::Split {
                line: fill_line_id(s, base, done.len()),
                offset: cur.len() as usize,
                new_line: (base + done.len()) as usize,
            }]
        } else {
            Seq::empty()
        };
        let space = if len2 > 0 {
            seq![ActionView::Insert { line: id, offset: cur2.len() as usize, data: seq![32u8] }]
        } else {
            Seq::empty()
        };
        split + space + seq![ActionView::Insert { line: id, offset: cur3.len() as usize, data: w }]
            + fill_records_from(words, fc, k + 1, done2, cur3 + w, sat(len3 as int + w.len()), s, base)
    }
}

/// The records of filling paragraph `s` (up to `end`) of `m` with `words` to column `fc`:
/// the old bytes of `s` taken out (when there are any), the other lines joined onto it, and
/// the filled lines built up.
pub open spec fn fill_records(m: TextModel, s: usize, end: usize, words: Seq<Seq<u8>>, fc: nat) -> Seq<ActionView> {
    (if m.arena[s as int].len() > 0 {
        seq![ActionView::Delete { line: s, offset: 0, data: m.arena[s as int] }]
    } else {
        Seq::empty()
    }) + merge_records(m, s, end, 0) + fill_records_from(words, fc, 0, Seq::empty(), Seq::empty(), 0, s, m.arena.len())
}

/// The records of joining the lines after `s` up to `end` onto `s` at `off`; see
/// `merge_records`.
pub fn merge_actions(b: &Buffer, s: LineId, end: LineId, off: usize) -> (r: Vec<UndoAction>)
    requires
        b.wf(),
        b.has_line(s.0),
    ensures
        actions_view(r@) == merge_records(b.model(), s.0, end.0, off),
{
    let ghost m = b.model();
    let ghost ids = m.ids;
    let ghost ps = ids.index_of(s.0);
    let ghost stop = merge_stop(m, s.0, end.0);
    proof {
        assert(ids[ps] == s.0);
        b.lemma_pos_of(ps);
        if ids.contains(end.0) {
            let q = ids.index_of(end.0);
            assert(ids[q] == end.0);
            b.lemma_pos_of(q);
        }
    }
    let mut out: Vec<UndoAction> = Vec::new();
    let mut cur = b.next_line(s);
    let ghost mut k: int = 0;
    loop
        invariant
            b.wf(),
            m == b.model(),
            ids == b.ids(),
            0 <= ps < ids.len(),
            ids[ps] == s.0,
            stop == merge_stop(m, s.0, end.0),
            ps < stop <= ids.len(),
            ids.contains(end.0) && ids.index_of(end.0) > ps ==> ids[ids.index_of(end.0)] == end.0,
            0 <= k,
            ps + 1 + k <= stop,
            cur == (if ps + 1 + k < ids.len() {
                Some(LineId(ids[ps + 1 + k]))
            } else {
                None::<LineId>
            }),
            actions_view(out@) == merge_records(m, s.0, end.0, off).take(k),
        ensures
            actions_view(out@) == merge_records(m, s.0, end.0, off),
        decreases ids.len() - (ps + 1 + k),
    {
        let x = match cur {
            Some(x) => x,
            None => {
                proof {
                    assert(merge_records(m, s.0, end.0, off).take(k) =~= merge_records(m, s.0, end.0, off));
                }
                break;
            },
        };
        if x == end {
            proof {
                b.lemma_pos_of(ps + 1 + k);
                assert(ids.index_of(end.0) == ps + 1 + k);
                assert(stop == ps + 1 + k);
                assert(merge_records(m, s.0, end.0, off).take(k) =~= merge_records(m, s.0, end.0, off));
            }
            break;
        }
        proof {
            b.lemma_pos_of(ps + 1 + k);
            if ids.contains(end.0) && ids.index_of(end.0) > ps {
                assert(ids.index_of(end.0) != ps + 1 + k);
            }
            assert(ps + 1 + k < stop);
        }
        let data = match b.line(x) {
            Some(l) => l.text.clone(),
            None => Vec::new(),
        };
        let next = b.next_line(x);
        let after = match next {
            Some(y) => y,
            None => LineId(0),
        };
        let ghost old_out = out@;
        let ghost dv = data@;
        let act = UndoAction::Merge { line: s, offset: off, next_line: x, next_data: data, after_next: after };
        proof {
            assert(dv == m.arena[ids[ps + 1 + k] as int]);
            assert(action_view(act) == merge_records(m, s.0, end.0, off)[k]);
        }
        out.push(act);
        proof {
            assert(actions_view(out@) =~= actions_view(old_out).push(action_view(act)));
            assert(merge_records(m, s.0, end.0, off).take(k + 1) =~= merge_records(m, s.0, end.0, off).take(k).push(
                merge_records(m, s.0, end.0, off)[k],
            ));
            k = k + 1;
        }
        cur = next;
    }
    out
}

/// The records of laying out `words` filled to `fillcol` into line `s` and new lines from
/// `base` on; see `fill_records_from`.
pub fn fill_word_actions(words: &Vec<Vec<u8>>, fillcol: usize, s: LineId, base: usize) -> (r: Vec<UndoAction>)
    requires
        base + fill_layout(words@.map_values(|v: Vec<u8>| v@), fillcol as nat).len() < usize::MAX,
    ensures
        actions_view(r@) == fill_records_from(
            words@.map_values(|v: Vec<u8>| v@),
            fillcol as nat,
            0,
            Seq::empty(),
            Seq::empty(),
            0,
            s.0,
            base as nat,
        ),
{
    let ghost ws = words@.map_values(|v: Vec<u8>| v@);
    let ghost fc = fillcol as nat;
    let ghost total = fill_records_from(ws, fc, 0, Seq::empty(), Seq::empty(), 0, s.0, base as nat);
    let ghost mut done: Seq<Seq<u8>> = Seq::empty();
    let mut done_len: usize = 0;
    let mut cur: Vec<u8> = Vec::new();
    let mut len: usize = 0;
    let mut out: Vec<UndoAction> = Vec::new();
    let mut k: usize = 0;
    proof {
        assert(cur@ =~= Seq::<u8>::empty());
        assert(actions_view(out@) + total =~= total);
    }
    while k < words.len()
        invariant
            k <= words@.len(),
            ws == words@.map_values(|v: Vec<u8>| v@),
            fc == fillcol as nat,
            total == fill_records_from(ws, fc, 0, Seq::empty(), Seq::empty(), 0, s.0, base as nat),
            base + fill_layout(ws, fc).len() < usize::MAX,
            fill_from(ws, fc, k as int, done, cur@, len as nat) == fill_layout(ws, fc),
            done_len == done.len(),
            actions_view(out@) + fill_records_from(ws, fc, k as int, done, cur@, len as nat, s.0, base as nat) == total,
        decreases words@.len() - k,
    {
        proof {
            lemma_fill_nonempty(ws, fc, k as int, done, cur@, len as nat);
        }
        let ghost a0 = actions_view(out@);
        let ghost c0 = cur@;
        let ghost d0 = done;
        let ghost l0 = len as nat;
        let w = &words[k];
        let sp: usize = if k != 0 {
            1
        } else {
            0
        };
        let nl = sat_add(sat_add(len, sp), w.len());
        let mut pre: Vec<UndoAction> = Vec::new();
        if nl > fillcol && len > 0 {
            let from = if done_len == 0 {
                s
            } else {
                LineId(base + done_len - 1)
            };
            let sa = UndoAction::Split { line: from, offset: cur.len(), new_line: LineId(base + done_len) };
            pre.push(sa);
            proof {
                assert(actions_view(pre@) =~= seq![action_view(sa)]);
                done = done.push(cur@);
            }
            done_len = done_len + 1;
            cur = Vec::new();
            len = 0;
        }
        let id = if done_len == 0 {
            s
        } else {
            LineId(base + done_len - 1)
        };
        let ghost p1 = actions_view(pre@);
        if len > 0 {
            let mut sp_data: Vec<u8> = Vec::new();
            sp_data.push(32);
            let ia = UndoAction::Insert { line: id, offset: cur.len(), data: sp_data };
            pre.push(ia);
            proof {
                assert(sp_data@ =~= seq![32u8]);
                assert(actions_view(pre@) =~= p1.push(action_view(ia)));
            }
            cur.push(32);
            len = sat_add(len, 1);
        }
        let ghost p2 = actions_view(pre@);
        let ghost c3 = cur@;
        let wc = w.clone();
        let wa = UndoAction::Insert { line: id, offset: cur.len(), data: wc };
        pre.push(wa);
        proof {
            assert(wc@ == w@);
            assert(actions_view(pre@) =~= p2.push(action_view(wa)));
        }
        extend_bytes(&mut cur, w);
        len = sat_add(len, w.len());
        let ghost pv = actions_view(pre@);
        proof {
            let rest = fill_records_from(ws, fc, k + 1, done, cur@, len as nat, s.0, base as nat);
            assert(ws[k as int] == w@);
            assert(fill_records_from(ws, fc, k as int, d0, c0, l0, s.0, base as nat) == pv + rest) by {
                assert(pv =~= (if nl > fillcol && l0 > 0 {
                    seq![ActionView::Split {
                        line: fill_line_id(s.0, base as nat, d0.len()),
                        offset: c0.len() as usize,
                        new_line: (base + d0.len()) as usize,
                    }]
                } else {
                    Seq::empty()
                }) + (if (if nl > fillcol && l0 > 0 { 0nat } else { l0 }) > 0 {
                    seq![ActionView::Insert {
                        line: fill_line_id(s.0, base as nat, done.len()),
                        offset: (if nl > fillcol && l0 > 0 { Seq::<u8>::empty() } else { c0 }).len() as usize,
                        data: seq![32u8],
                    }]
                } else {
                    Seq::empty()
                }) + seq![ActionView::Insert { line: fill_line_id(s.0, base as nat, done.len()), offset: c3.len() as usize, data: w@ }]);
            }
        }
        let mut j: usize = 0;
        while j < pre.len()
            invariant
                j <= pre@.len(),
                actions_view(out@) == a0 + actions_view(pre@).take(j as int),
            decreases pre@.len() - j,
        {
            let ghost o0 = out@;
            let act = match pre.get(j) {
                Some(a) => copy_action(a),
                None => UndoAction::Insert { line: s, offset: 0, data: Vec::new() },
            };
            out.push(act);
            proof {
                assert(actions_view(out@) =~= actions_view(o0).push(action_view(act)));
                assert(actions_view(pre@).take(j + 1) =~= actions_view(pre@).take(j as int).push(action_view(pre@[j as int])));
            }
            j += 1;
        }
        proof {
            assert(actions_view(pre@).take(pre@.len() as int) =~= actions_view(pre@));
            assert(a0 + pv + fill_records_from(ws, fc, k + 1, done, cur@, len as nat, s.0, base as nat)
                =~= a0 + (pv + fill_records_from(ws, fc, k + 1, done, cur@, len as nat, s.0, base as nat)));
        }
        k += 1;
    }
    proof {
        assert(fill_records_from(ws, fc, k as int, done, cur@, len as nat, s.0, base as nat) =~= Seq::<ActionView>::empty());
        assert(actions_view(out@) + Seq::<ActionView>::empty() =~= actions_view(out@));
    }
    out
}

/// A copy of an undo record.
fn copy_action(a: &UndoAction) -> (r: UndoAction)
    ensures
        action_view(r) == action_view(*a),
{
    match a {
        UndoAction::Insert { line, offset, data } => UndoAction::Insert { line: *line, offset: *offset, data: data.clone() },
        UndoAction::Delete { line, offset, data } => UndoAction::Delete { line: *line, offset: *offset, data: data.clone() },
        UndoAction::Split { line, offset, new_line } => UndoAction::Split {
            line: *line,
            offset: *offset,
            new_line: *new_line,
        },
        UndoAction::Merge { line, offset, next_line, next_data, after_next } => UndoAction::Merge {
            line: *line,
            offset: *offset,
            next_line: *next_line,
            next_data: next_data.clone(),
            after_next: *after_next,
        },
    }
}

/// One step of laying out a word as `justify_from` does, from its state: the records of
/// it (a split before the word when it starts a new line and the margin put into the new
/// line, the space before a word that joins a line, the word, and the space after a full
/// stop, each at the end of the line it goes into), and the state after it.
pub open spec fn justify_step(
    w: Seq<u8>,
    fc: nat,
    lm: nat,
    done: Seq<Seq<u8>>,
    cur: Seq<u8>,
    clen: nat,
    first: bool,
    s: usize,
    base: nat,
) -> (Seq<ActionView>, Seq<Seq<u8>>, Seq<u8>, nat) {
    let nl = sat(sat(clen as int + (if first {
        0int
    } else {
        1int
    })) as int + w.len());
    let brk = nl > fc && clen > lm;
    let done2 = if brk {
        done.push(cur)
    } else {
        done
    };
    let cur2 = if brk {
        spaces_of(lm)
    } else {
        cur
    };
    let clen2: nat = if brk {
        lm
    } else {
        clen
    };
    let first2 = brk || first;
    let cur3 = if !first2 {
        cur2.push(32u8)
    } else {
        cur2
    };
    let clen3: nat = if !first2 {
        sat(clen2 as int + 1)
    } else {
        clen2
    };
    let cur4 = cur3 + w;
    let clen4 = sat(clen3 as int + w.len());
    let stop = w.len() > 0 && w.last() == 46u8;
    let cur5 = if stop {
        cur4.push(32u8)
    } else {
        cur4
    };
    let clen5: nat = if stop {
        sat(clen4 as int + 1)
    } else {
        clen4
    };
    let id = fill_line_id(s, base, done2.len());
    let split = if brk {
        seq![ActionView::Split {
            line: fill_line_id(s, base, done.len()),
            offset: cur.len() as usize,
            new_line: (base + done.len()) as usize,
        }] + if lm > 0 {
            seq![ActionView::Insert { line: id, offset: 0, data: spaces_of(lm) }]
        } else {
            Seq::empty()
        }
    } else {
        Seq::empty()
    };
    let space = if !first2 {
        seq![ActionView::Insert { line: id, offset: cur2.len() as usize, data: seq![32u8] }]
    } else {
        Seq::empty()
    };
    let after = if stop {
        seq![ActionView::Insert { line: id, offset: cur4.len() as usize, data: seq![32u8] }]
    } else {
        Seq::empty()
    };
    (split + space + seq![ActionView::Insert { line: id, offset: cur3.len() as usize, data: w }] + after, done2, cur5, clen5)
}

/// The records of laying out words `k..` as `justify_from` does, from its state, word by
/// word (see `justify_step`).
pub open spec fn justify_records_from(
    words: Seq<Seq<u8>>,
    fc: nat,
    lm: nat,
    k: int,
    done: Seq<Seq<u8>>,
    cur: Seq<u8>,
    clen: nat,
    first: bool,
    s: usize,
    base: nat,
) -> Seq<ActionView>
    decreases words.len() - k,
{
    if k >= words.len() || k < 0 {
        Seq::empty()
    } else {
        let st = justify_step(words[k], fc, lm, done, cur, clen, first, s, base);
        st.0 + justify_records_from(words, fc, lm, k + 1, st.1, st.2, st.3, false, s, base)
    }
}

/// `justify_from` goes on from the state that `justify_step` leaves.
proof fn lemma_justify_step(
    words: Seq<Seq<u8>>,
    fc: nat,
    lm: nat,
    k: int,
    done: Seq<Seq<u8>>,
    cur: Seq<u8>,
    clen: nat,
    first: bool,
    s: usize,
    base: nat,
)
    requires
        0 <= k < words.len(),
    ensures
        ({
            let st = justify_step(words[k], fc, lm, done, cur, clen, first, s, base);
            justify_from(words, fc, lm, k, done, cur, clen, first) == justify_from(words, fc, lm, k + 1, st.1, st.2, st.3, false)
        }),
{
}

/// The records of justifying paragraph `s` (up to `end`) of `m` with `words` between the
/// margin `lm` and the column `fc`: the bytes of `s` past the margin taken out (when there
/// are any), the other lines joined onto it, and the lines built up word by word.
pub open spec fn justify_records(m: TextModel, s: usize, end: usize, words: Seq<Seq<u8>>, fc: nat, lm: usize) -> Seq<ActionView> {
    let t = m.arena[s as int];
    let prefix = if lm < t.len() {
        t.take(lm as int)
    } else {
        t
    };
    (if t.len() > lm {
        seq![ActionView::Delete { line: s, offset: lm, data: t.skip(lm as int) }]
    } else {
        Seq::empty()
    }) + merge_records(m, s, end, prefix.len() as usize) + justify_records_from(
        words,
        fc,
        lm as nat,
        0,
        Seq::empty(),
        prefix,
        lm as nat,
        true,
        s,
        m.arena.len(),
    )
}

/// Lays out word `w` as `justify_step` does, onto the line being built (`cur`, at column
/// `clen`, after `done_len` full lines), returning its records.
fn justify_word_step(
    w: &Vec<u8>,
    fillcol: usize,
    leftmarg: usize,
    s: LineId,
    base: usize,
    first: bool,
    done_len: &mut usize,
    cur: &mut Vec<u8>,
    clen: &mut usize,
    Ghost(done): Ghost<Seq<Seq<u8>>>,
) -> (r: Vec<UndoAction>)
    requires
        *old(done_len) == done.len(),
        base + done.len() < usize::MAX,
    ensures
        ({
            let st = justify_step(w@, fillcol as nat, leftmarg as nat, done, old(cur)@, *old(clen) as nat, first, s.0, base as nat);
            &&& actions_view(r@) == st.0
            &&& *final(done_len) == st.1.len()
            &&& final(cur)@ == st.2
            &&& *final(clen) == st.3
        }),
{
    let ghost c0 = cur@;
    let ghost l0 = *clen as nat;
    let sp: usize = if first {
        0
    } else {
        1
    };
    let nl = sat_add(sat_add(*clen, sp), w.len());
    let mut pre: Vec<UndoAction> = Vec::new();
    let brk = nl > fillcol && *clen > leftmarg;
    let mut first2 = first;
    if brk {
        let from = if *done_len == 0 {
            s
        } else {
            LineId(base + *done_len - 1)
        };
        let sa = UndoAction::Split { line: from, offset: cur.len(), new_line: LineId(base + *done_len) };
        pre.push(sa);
        proof {
            assert(actions_view(pre@) =~= seq![action_view(sa)]);
        }
        *done_len = *done_len + 1;
        *cur = crate::edit::commands::justify::spaces(leftmarg);
        *clen = leftmarg;
        first2 = true;
        if leftmarg > 0 {
            let ghost q0 = actions_view(pre@);
            let pad = crate::edit::commands::justify::spaces(leftmarg);
            let pa = UndoAction::Insert { line: LineId(base + *done_len - 1), offset: 0, data: pad };
            pre.push(pa);
            proof {
                assert(actions_view(pre@) =~= q0.push(action_view(pa)));
            }
        }
    }
    let id = if *done_len == 0 {
        s
    } else {
        LineId(base + *done_len - 1)
    };
    let ghost p1 = actions_view(pre@);
    if !first2 {
        let mut sp_data: Vec<u8> = Vec::new();
        sp_data.push(32);
        let ia = UndoAction::Insert { line: id, offset: cur.len(), data: sp_data };
        pre.push(ia);
        proof {
            assert(sp_data@ =~= seq![32u8]);
            assert(actions_view(pre@) =~= p1.push(action_view(ia)));
        }
        cur.push(32);
        *clen = sat_add(*clen, 1);
    }
    let ghost p2 = actions_view(pre@);
    let wc = w.clone();
    let wa = UndoAction::Insert { line: id, offset: cur.len(), data: wc };
    pre.push(wa);
    proof {
        assert(wc@ == w@);
        assert(actions_view(pre@) =~= p2.push(action_view(wa)));
    }
    extend_bytes(cur, w);
    *clen = sat_add(*clen, w.len());
    if w.len() > 0 && w[w.len() - 1] == 46 {
        let ghost p3 = actions_view(pre@);
        let mut st_data: Vec<u8> = Vec::new();
        st_data.push(32);
        let ta = UndoAction::Insert { line: id, offset: cur.len(), data: st_data };
        pre.push(ta);
        proof {
            assert(st_data@ =~= seq![32u8]);
            assert(actions_view(pre@) =~= p3.push(action_view(ta)));
            assert(w@.last() == w@[w@.len() - 1]);
        }
        cur.push(32);
        *clen = sat_add(*clen, 1);
    }
    pre
}

/// The records of laying out `words` between `leftmarg` and `fillcol` into line `s`, which
/// starts with `prefix`, and new lines from `base` on; see `justify_records_from`.
pub fn justify_word_actions(
    words: &Vec<Vec<u8>>,
    fillcol: usize,
    leftmarg: usize,
    prefix: Vec<u8>,
    s: LineId,
    base: usize,
) -> (r: Vec<UndoAction>)
    requires
        base + justify_layout(words@.map_values(|v: Vec<u8>| v@), fillcol as nat, leftmarg as nat, prefix@).len()
            < usize::MAX,
    ensures
        actions_view(r@) == justify_records_from(
            words@.map_values(|v: Vec<u8>| v@),
            fillcol as nat,
            leftmarg as nat,
            0,
            Seq::empty(),
            prefix@,
            leftmarg as nat,
            true,
            s.0,
            base as nat,
        ),
{
    let ghost ws = words@.map_values(|v: Vec<u8>| v@);
    let ghost fc = fillcol as nat;
    let ghost lm = leftmarg as nat;
    let ghost total = justify_records_from(ws, fc, lm, 0, Seq::empty(), prefix@, lm, true, s.0, base as nat);
    let ghost mut done: Seq<Seq<u8>> = Seq::empty();
    let mut done_len: usize = 0;
    let mut cur: Vec<u8> = prefix;
    let mut clen: usize = leftmarg;
    let mut first = true;
    let mut out: Vec<UndoAction> = Vec::new();
    let mut k: usize = 0;
    proof {
        assert(actions_view(out@) + total =~= total);
    }
    while k < words.len()
        invariant
            k <= words@.len(),
            ws == words@.map_values(|v: Vec<u8>| v@),
            fc == fillcol as nat,
            lm == leftmarg as nat,
            total == justify_records_from(ws, fc, lm, 0, Seq::empty(), prefix@, lm, true, s.0, base as nat),
            base + justify_layout(ws, fc, lm, prefix@).len() < usize::MAX,
            justify_from(ws, fc, lm, k as int, done, cur@, clen as nat, first) == justify_layout(ws, fc, lm, prefix@),
            done_len == done.len(),
            actions_view(out@) + justify_records_from(ws, fc, lm, k as int, done, cur@, clen as nat, first, s.0, base as nat)
                == total,
        decreases words@.len() - k,
    {
        let ghost st = justify_step(ws[k as int], fc, lm, done, cur@, clen as nat, first, s.0, base as nat);
        proof {
            lemma_justify_nonempty(ws, fc, lm, k as int, done, cur@, clen as nat, first);
            lemma_justify_step(ws, fc, lm, k as int, done, cur@, clen as nat, first, s.0, base as nat);
        }
        let ghost a0 = actions_view(out@);
        let w = &words[k];
        assert(w@ == ws[k as int]);
        let mut pre = justify_word_step(w, fillcol, leftmarg, s, base, first, &mut done_len, &mut cur, &mut clen, Ghost(done));
        first = false;
        proof {
            done = st.1;
        }
        out.append(&mut pre);
        proof {
            assert(actions_view(out@) =~= a0 + st.0);
            assert(a0 + st.0 + justify_records_from(ws, fc, lm, k + 1, done, cur@, clen as nat, false, s.0, base as nat)
                =~= a0 + (st.0 + justify_records_from(ws, fc, lm, k + 1, done, cur@, clen as nat, false, s.0, base as nat)));
        }
        k += 1;
    }
    proof {
        assert(justify_records_from(ws, fc, lm, k as int, done, cur@, clen as nat, first, s.0, base as nat)
            =~= Seq::<ActionView>::empty());
        assert(actions_view(out@) + Seq::<ActionView>::empty() =~= actions_view(out@));
    }
    out
}

/// The records of justifying paragraph `s` (up to `end`) of `b` with `words` between
/// `leftmarg` and `fillcol`; see `justify_records`.
pub fn justify_para_actions(
    b: &Buffer,
    s: LineId,
    end: LineId,
    words: &Vec<Vec<u8>>,
    fillcol: usize,
    leftmarg: usize,
) -> (r: Vec<UndoAction>)
    requires
        b.wf(),
        b.has_line(s.0),
        ({
            let t = b.model().arena[s.0 as int];
            let prefix = if leftmarg < t.len() {
                t.take(leftmarg as int)
            } else {
                t
            };
            b.lines@.len() + justify_layout(words@.map_values(|v: Vec<u8>| v@), fillcol as nat, leftmarg as nat, prefix).len()
                < usize::MAX
        }),
    ensures
        actions_view(r@) == justify_records(
            b.model(),
            s.0,
            end.0,
            words@.map_values(|v: Vec<u8>| v@),
            fillcol as nat,
            leftmarg,
        ),
{
    let ghost m = b.model();
    let ghost t = m.arena[s.0 as int];
    let mut prefix = b.lines[s.0].text.clone();
    assert(prefix@ == t);
    let mut actions: Vec<UndoAction> = Vec::new();
    if prefix.len() > leftmarg {
        let tail = prefix.split_off(leftmarg);
        let d = UndoAction::Delete { line: s, offset: leftmarg, data: tail };
        actions.push(d);
        proof {
            assert(actions_view(actions@) =~= seq![ActionView::Delete { line: s.0, offset: leftmarg, data: t.skip(leftmarg as int) }]);
        }
    } else {
        assert(actions_view(actions@) =~= Seq::<ActionView>::empty());
    }
    assert(prefix@ == (if leftmarg < t.len() {
        t.take(leftmarg as int)
    } else {
        t
    }));
    let ghost a1 = actions_view(actions@);
    let mut merges = merge_actions(b, s, end, prefix.len());
    actions.append(&mut merges);
    let ghost a2 = actions_view(actions@);
    let ghost pv = prefix@;
    let mut built = justify_word_actions(words, fillcol, leftmarg, prefix, s, b.lines.len());
    actions.append(&mut built);
    proof {
        assert(m.arena.len() == b.lines@.len());
        assert(a2 =~= a1 + merge_records(m, s.0, end.0, pv.len() as usize));
        assert(actions_view(actions@) =~= a2 + justify_records_from(
            words@.map_values(|v: Vec<u8>| v@),
            fillcol as nat,
            leftmarg as nat,
            0,
            Seq::empty(),
            pv,
            leftmarg as nat,
            true,
            s.0,
            m.arena.len(),
        ));
    }
    actions
}

} // verus!
