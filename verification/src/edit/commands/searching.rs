use crate::buffer::Buffer;
use crate::edit::{with_dot, Command, Editor};
use crate::flat::{flat_index, ring_ids};
use crate::search::{
    backward_answer, find_backward, find_backward_regex, find_forward, find_forward_regex, forward_answer,
    is_regex, regex_backward_answer, regex_forward_answer, ring_at, lemma_ring_index,
};
use crate::types::{Error, LineId, Result, WindowFlags};
use crate::window::Window;
use vstd::prelude::*;

verus! {

/// A search can start at the dot of `w`: it is a position of the buffer's lines (the
/// header counting first), and for a backward search not the header of a buffer with
/// lines.
pub open spec fn search_start_ok(b: &Buffer, w: Window, forward: bool) -> bool {
    exists|k: int| ring_at(b, k, w.dot_line, w.dot_offset.0) && (forward || k >= 1 || b.ids().len() == 0)
}

/// What a search for `pat` from the dot of `w` may answer (see `forward_answer`,
/// `backward_answer`, and for regular expressions `regex_forward_answer` and
/// `regex_backward_answer`).
pub open spec fn search_answer(b: &Buffer, pat: Seq<u8>, w: Window, forward: bool, res: Option<(LineId, usize)>) -> bool {
    let l = w.dot_line;
    let o = w.dot_offset.0;
    if b.mode.0 & 0x40 != 0 {
        res == (if forward {
            regex_forward_answer(b, pat, l, o)
        } else {
            regex_backward_answer(b, pat, l, o)
        })
    } else if forward {
        forall|k: int| ring_at(b, k, l, o) ==> forward_answer(b, pat, flat_index(b, k, o as int), res)
    } else {
        forall|k: int|
            ring_at(b, k, l, o) ==> backward_answer(
                b,
                pat,
                if k == 0 {
                    0
                } else {
                    flat_index(b, 1, 0)
                },
                flat_index(b, k, o as int),
                res,
            )
    }
}

/// The text recorded as the last match when a search for a pattern of `plen` bytes
/// answers (`nl`, `no`): the `plen` bytes before the answer going forward (as far as
/// the line goes), after it going backward.
pub open spec fn match_text(b: &Buffer, pat: Seq<u8>, nl: LineId, no: usize, forward: bool) -> Seq<u8> {
    let t = b.text_of(nl.0);
    let plen = pat.len();
    if nl.0 >= b.lines@.len() {
        if forward {
            pat
        } else {
            Seq::empty()
        }
    } else if forward {
        let start: int = if no >= plen {
            no - plen
        } else {
            0
        };
        let end: int = if no < t.len() {
            no as int
        } else {
            t.len() as int
        };
        if start <= end {
            t.subrange(start, end)
        } else {
            Seq::empty()
        }
    } else {
        let end: int = if no + plen < t.len() {
            no + plen
        } else {
            t.len() as int
        };
        if no <= end {
            t.subrange(no as int, end)
        } else {
            Seq::empty()
        }
    }
}

/// One search from the dot of the current window for the search pattern: the dot goes
/// to the answer (marked moved) and the match is recorded; failing when the search cannot
/// start there or finds nothing.
pub open spec fn searched_once(e0: &Editor, e1: &Editor, forward: bool, r: Result<()>) -> bool {
    let w = e0.cur_win();
    let b = e0.cur_buf();
    let pat = e0.search_pattern@;
    if !e0.has_cur() || !search_start_ok(&b, w, forward) {
        r is Err && *e1 == *e0
    } else {
        exists|res: Option<(LineId, usize)>|
            #[trigger] search_answer(&b, pat, w, forward, res) && match res {
                None => r is Err && *e1 == *e0,
                Some((nl, no)) => {
                    &&& r is Ok
                    &&& *e1 == (Editor { windows: e1.windows, last_match: e1.last_match, ..*e0 })
                    &&& e1.windows_with_cur(e0, with_dot(w, nl, no, WindowFlags::moved()))
                    &&& e1.last_match@ == match_text(&b, pat, nl, no, forward)
                },
            }
    }
}

/// `k` searches in a row, stopping at the first failure.
pub open spec fn searches_done(e0: &Editor, e1: &Editor, forward: bool, k: nat, r: Result<()>) -> bool
    decreases k,
{
    if k == 0 {
        r is Ok && *e1 == *e0
    } else {
        ||| (r is Err && searches_done(e0, e1, forward, (k - 1) as nat, r))
        ||| exists|em: Editor|
            searches_done(e0, &em, forward, (k - 1) as nat, Ok(())) && #[trigger] searched_once(&em, e1, forward, r)
    }
}

/// What a search command does: with no search pattern it fails; else it searches `n`
/// times (at least once), stopping at the first failure.
pub open spec fn searched(e0: &Editor, e1: &Editor, forward: bool, n: usize, r: Result<()>) -> bool {
    if e0.search_pattern@.len() == 0 {
        r is Err && *e1 == *e0
    } else {
        searches_done(
            e0,
            e1,
            forward,
            if n == 0 {
                1
            } else {
                n as nat
            },
            r,
        )
    }
}

/// The bytes of `t` from `i` to `j`.
pub(crate) fn bytes_between(t: &Vec<u8>, i: usize, j: usize) -> (r: Vec<u8>)
    requires
        i <= j <= t@.len(),
    ensures
        r@ == t@.subrange(i as int, j as int),
{
    let mut r: Vec<u8> = Vec::new();
    let mut k: usize = i;
    while k < j
        invariant
            i <= k <= j <= t@.len(),
            r@ == t@.subrange(i as int, k as int),
        decreases j - k,
    {
        r.push(t[k]);
        k += 1;
        assert(r@ =~= t@.subrange(i as int, k as int));
    }
    r
}

/// The text recorded as the last match; see `match_text`.
fn match_text_of(b: &Buffer, pattern: &Vec<u8>, nl: LineId, no: usize, forward: bool) -> (r: Vec<u8>)
    ensures
        r@ == match_text(b, pattern@, nl, no, forward),
{
    if nl.0 >= b.lines.len() {
        return if forward {
            pattern.clone()
        } else {
            Vec::new()
        };
    }
    let t = &b.lines[nl.0].text;
    let plen = pattern.len();
    if forward {
        let start = if no >= plen {
            no - plen
        } else {
            0
        };
        let end = if no < t.len() {
            no
        } else {
            t.len()
        };
        if start > end {
            return Vec::new();
        }
        bytes_between(t, start, end)
    } else {
        let end = if no < t.len() && plen < t.len() - no {
            no + plen
        } else {
            t.len()
        };
        if no > end {
            return Vec::new();
        }
        bytes_between(t, no, end)
    }
}

/// One search from the dot; see `searched_once`.
fn search_once(editor: &mut Editor, pattern: &Vec<u8>, forward: bool) -> (r: Result<()>)
    requires
        old(editor).wf(),
        pattern@ == old(editor).search_pattern@,
    ensures
        final(editor).wf(),
        searched_once(&*old(editor), &*final(editor), forward, r),
{
    let ghost e0 = *editor;
    let w = editor.cur_checked()?;
    let b = match editor.buffers.get(w.buffer_id) {
        Some(b) => b,
        None => return Err(Error::Abort),
    };
    let l = w.dot_line;
    let o = w.dot_offset.0;
    let ok = (l.0 == 0 || b.is_text_line(l)) && l.0 < b.lines.len() && o <= b.lines[l.0].text.len() && (forward
        || l.0 != 0 || b.line_count() == 0);
    proof {
        assert forall|k: int| ring_at(b, k, l, o) implies ok || !(forward || k >= 1 || b.ids().len() == 0) by {
            lemma_ring_index(b, k);
            if k > 0 {
                b.lemma_pos_of(k - 1);
            }
        }
    }
    if !ok {
        return Err(Error::Abort);
    }
    let ghost k0: int = if l.0 == 0 {
        0
    } else {
        b.pos_of(l.0) + 1
    };
    proof {
        lemma_ring_index(b, 0);
        if l.0 != 0 {
            let p = b.pos_of(l.0);
            assert(b.ids()[p] == l.0);
            b.lemma_pos_of(p);
            lemma_ring_index(b, k0);
        }
        assert(ring_at(b, k0, l, o));
    }
    let res = if is_regex(b) {
        if forward {
            find_forward_regex(b, pattern.as_slice(), l, o)
        } else {
            find_backward_regex(b, pattern.as_slice(), l, o)
        }
    } else if forward {
        find_forward(b, pattern.as_slice(), l, o)
    } else {
        find_backward(b, pattern.as_slice(), l, o)
    };
    proof {
        assert(crate::search::ring_line(b, k0, l));
        assert(crate::search::clamped(b, k0, o) == o);
        assert(search_answer(b, pattern@, w, forward, res));
    }
    match res {
        None => Err(Error::Abort),
        Some((nl, no)) => {
            let mt = match_text_of(b, pattern, nl, no, forward);
            editor.last_match = mt;
            editor.set_cur_window(Window { dot_line: nl, dot_offset: crate::types::LineOffset(no), flags: w.flags.union(WindowFlags::moved()), ..w });
            Ok(())
        },
    }
}

/// Searches `count` times; see `searches_done`.
fn search_times(editor: &mut Editor, pattern: &Vec<u8>, forward: bool, count: usize) -> (r: Result<()>)
    requires
        old(editor).wf(),
        pattern@ == old(editor).search_pattern@,
    ensures
        final(editor).wf(),
        searches_done(&*old(editor), &*final(editor), forward, count as nat, r),
{
    let ghost e0 = *editor;
    let mut i: usize = 0;
    let ghost mut last: Result<()> = Ok(());
    while i < count
        invariant
            editor.wf(),
            e0 == *old(editor),
            i <= count,
            pattern@ == editor.search_pattern@,
            searches_done(&e0, &*editor, forward, i as nat, Ok(())),
        decreases count - i,
    {
        let ghost em = *editor;
        let r = search_once(editor, pattern, forward);
        proof {
            assert(searches_done(&e0, &em, forward, i as nat, Ok(())));
            assert(searches_done(&e0, &*editor, forward, (i + 1) as nat, r));
        }
        match r {
            Ok(()) => {
                proof {
                    assert(r->Ok_0 == ());
                    assert(r == Ok::<(), Error>(()));
                }
            },
            Err(e) => {
                proof {
                    lemma_search_err_extends(&e0, &*editor, forward, (i + 1) as nat, count as nat, r);
                }
                return Err(e);
            },
        }
        i += 1;
    }
    Ok(())
}

/// A failed search stays one when more searches were asked for.
proof fn lemma_search_err_extends(e0: &Editor, e1: &Editor, forward: bool, k: nat, m: nat, r: Result<()>)
    requires
        k <= m,
        r is Err,
        searches_done(e0, e1, forward, k, r),
    ensures
        searches_done(e0, e1, forward, m, r),
    decreases m - k,
{
    if k < m {
        assert(searches_done(e0, e1, forward, (k + 1) as nat, r));
        lemma_search_err_extends(e0, e1, forward, (k + 1) as nat, m, r);
    }
}

/// Searches forward for the search pattern, `n` times.
pub struct ForwardSearch;

impl Command for ForwardSearch {
    fn execute(&self, editor: &mut Editor, f: bool, n: usize) -> (r: Result<()>)
        ensures
            searched(&*old(editor), &*final(editor), true, n, r),
    {
        if editor.search_pattern.len() == 0 {
            return Err(Error::Abort);
        }
        let pattern = editor.search_pattern.clone();
        let count: usize = if n == 0 {
            1
        } else {
            n
        };
        search_times(editor, &pattern, true, count)
    }
}

/// Searches backward for the search pattern, `n` times.
pub struct BackwardSearch;

impl Command for BackwardSearch {
    fn execute(&self, editor: &mut Editor, f: bool, n: usize) -> (r: Result<()>)
        ensures
            searched(&*old(editor), &*final(editor), false, n, r),
    {
        if editor.search_pattern.len() == 0 {
            return Err(Error::Abort);
        }
        let pattern = editor.search_pattern.clone();
        let count: usize = if n == 0 {
            1
        } else {
            n
        };
        search_times(editor, &pattern, false, count)
    }
}

} // verus!
