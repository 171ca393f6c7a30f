use crate::buffer::{next_in, Buffer};
use crate::edit::commands::chars::{
    char_step_backward, char_step_forward, char_steps, next_start, prev_start, BackwardChar,
    ForwardChar,
};
use crate::edit::helpers::{at_eol, blank, char_at_dot_is_word_char, dot_line_ok, word_byte};
use crate::edit::commands::kill::{kill_n_chars, kill_started, killed_chars, start_kill};
use crate::edit::{Command, Editor};
use crate::types::{Error, Result, WindowFlags};
use crate::window::Window;
use vstd::prelude::*;

verus! {

/// Whether the byte under the dot of `w` in `b` can be part of a word (not at a line end).
pub open spec fn word_at(b: Buffer, w: Window) -> bool {
    let t = b.text_of(w.dot_line.0);
    w.dot_offset.0 < t.len() && word_byte(t[w.dot_offset.0 as int])
}

/// What a skip passes over.
pub enum Class {
    /// Bytes that can be part of a word.
    Word,
    /// Anything else, line ends included.
    NotWord,
    /// Line ends.
    Eol,
    /// Line ends, spaces and tabs.
    Blank,
}

/// Whether the place of `w` in `b` is of class `c`.
pub open spec fn class_at(b: Buffer, w: Window, c: Class) -> bool {
    let t = b.text_of(w.dot_line.0);
    let o = w.dot_offset.0;
    match c {
        Class::Word => word_at(b, w),
        Class::NotWord => !word_at(b, w),
        Class::Eol => o >= t.len(),
        Class::Blank => o >= t.len() || blank(t[o as int]),
    }
}

/// The class of word bytes (`true`) or of the others (`false`).
pub open spec fn word_class(word: bool) -> Class {
    if word {
        Class::Word
    } else {
        Class::NotWord
    }
}

/// The first `k` character steps from `w` can all be taken, and each place they pass
/// through (`w` included, the place after the last step not) is of class `c`.
pub open spec fn runs(b: Buffer, w: Window, forward: bool, c: Class, k: nat) -> bool {
    forall|j: nat|
        j < k ==> (#[trigger] char_steps(b, w, j, forward)).1 && class_at(
            b,
            char_steps(b, w, j, forward).0,
            c,
        )
}

/// Skipping from `w` stops after `k` steps, at the first place not of class `c`.
pub open spec fn skip_ends(b: Buffer, w: Window, forward: bool, c: Class, k: nat) -> bool {
    &&& k <= usize::MAX
    &&& runs(b, w, forward, c, k)
    &&& char_steps(b, w, k, forward).1
    &&& !class_at(b, char_steps(b, w, k, forward).0, c)
}

/// Skipping from `w` gets stuck after `k` steps: the place there is still of class `c` and
/// the next step cannot be taken, or the count of steps is at its limit.
pub open spec fn skip_stuck(b: Buffer, w: Window, forward: bool, c: Class, k: nat) -> bool {
    &&& k <= usize::MAX
    &&& runs(b, w, forward, c, k + 1)
    &&& (!char_steps(b, w, k + 1, forward).1 || k == usize::MAX)
}

/// Where skipping from `w` over the places of class `c` ends: the window, whether it ended
/// well (rather than getting stuck), and the number of steps.
pub open spec fn skip_outcome(b: Buffer, w: Window, forward: bool, c: Class) -> (Window, bool, nat) {
    if exists|k: nat| skip_ends(b, w, forward, c, k) {
        let k = choose|k: nat| skip_ends(b, w, forward, c, k);
        (char_steps(b, w, k, forward).0, true, k)
    } else if exists|k: nat| skip_stuck(b, w, forward, c, k) {
        let k = choose|k: nat| skip_stuck(b, w, forward, c, k);
        (char_steps(b, w, k, forward).0, false, k)
    } else {
        (w, false, 0)
    }
}

/// What counting a skip does to an editor: with no line under the dot, nothing and an
/// error; else the dot moves to where `skip_outcome` ends, and the count comes back with
/// whether the skip ended well.
pub open spec fn counted(e0: &Editor, e1: &Editor, forward: bool, c: Class, r: Result<(usize, bool)>) -> bool {
    if !dot_line_ok(e0) {
        r is Err && *e1 == *e0
    } else {
        let (w1, ok, k) = skip_outcome(e0.cur_buf(), e0.cur_win(), forward, c);
        &&& e1.only_cur_window_now(e0, w1)
        &&& dot_line_ok(e1)
        &&& e1.cur_buf() == e0.cur_buf()
        &&& k <= usize::MAX
        &&& r == Ok::<(usize, bool), Error>((k as usize, ok))
    }
}

/// What skipping does to an editor: as `counted`, with the count when the skip ended well
/// and an error when it got stuck.
pub open spec fn skipped(e0: &Editor, e1: &Editor, forward: bool, word: bool, r: Result<usize>) -> bool {
    if !dot_line_ok(e0) {
        r is Err && *e1 == *e0
    } else {
        let (w1, ok, k) = skip_outcome(e0.cur_buf(), e0.cur_win(), forward, word_class(word));
        &&& e1.only_cur_window_now(e0, w1)
        &&& dot_line_ok(e1)
        &&& e1.cur_buf() == e0.cur_buf()
        &&& (ok ==> r == Ok::<usize, Error>(k as usize))
        &&& (!ok ==> r is Err)
    }
}

/// The rank of a line for forward steps: it goes down with each step to the next line.
pub open spec fn fwd_rank(b: Buffer, w: Window) -> int {
    b.ring().len() - b.ring_pos(w.dot_line.0)
}

/// The rank of a line for backward steps: it goes down with each step to the previous line
/// (from the header, which comes round to the last line, too).
pub open spec fn back_rank(b: Buffer, w: Window) -> int {
    if w.dot_line.0 == 0 {
        b.ring().len() as int
    } else {
        b.ring_pos(w.dot_line.0)
    }
}

/// The rank of the offset within the line: it goes down with each step inside a line.
pub open spec fn off_rank(b: Buffer, w: Window, forward: bool) -> int {
    if forward {
        b.text_of(w.dot_line.0).len() - w.dot_offset.0
    } else {
        w.dot_offset.0 as int
    }
}

/// The line rank for the given direction.
pub open spec fn line_rank(b: Buffer, w: Window, forward: bool) -> int {
    if forward {
        fwd_rank(b, w)
    } else {
        back_rank(b, w)
    }
}

/// The step from `w` in the given direction.
pub open spec fn step(b: Buffer, w: Window, forward: bool) -> Option<Window> {
    if forward {
        char_step_forward(b, w)
    } else {
        char_step_backward(b, w)
    }
}

/// A step stays in the buffer, on an existing line, and its ranks go down.
pub proof fn lemma_step_rank(b: Buffer, w: Window, forward: bool)
    requires
        b.wf(),
        w.dot_line.0 < b.lines@.len(),
        step(b, w, forward) is Some,
    ensures
        ({
            let w2 = step(b, w, forward).unwrap();
            &&& w2.dot_line.0 < b.lines@.len()
            &&& w2.buffer_id == w.buffer_id
            &&& w2.id == w.id
            &&& {
                ||| 0 <= line_rank(b, w2, forward) < line_rank(b, w, forward)
                ||| line_rank(b, w2, forward) == line_rank(b, w, forward) && 0 <= off_rank(
                    b,
                    w2,
                    forward,
                ) < off_rank(b, w, forward)
            }
        }),
{
    let l = w.dot_line.0;
    let o = w.dot_offset.0 as int;
    let t = b.text_of(l);
    let ids = b.ids();
    if forward {
        if o >= t.len() {
            let nl = b.next_of(l).unwrap();
            if l == 0 {
                b.lemma_pos_of(0);
            } else {
                let k = ids.index_of(l);
                assert(ids.contains(l)) by {
                    if !ids.contains(l) {
                        assert(next_in(ids, l) is None);
                    }
                }
                assert(ids[k] == l);
                b.lemma_pos_of(k);
                b.lemma_pos_of(k + 1);
            }
        } else {
            lemma_next_start_bound(t, o + 1);
            assert(b.lines@[l as int].text.len() == t.len());
        }
    } else {
        if o == 0 {
            let pl = b.prev_of(l).unwrap();
            if l == 0 {
                b.lemma_pos_of(ids.len() - 1);
            } else {
                let k = ids.index_of(l);
                assert(ids[k] == l);
                b.lemma_pos_of(k);
                b.lemma_pos_of(k - 1);
            }
        } else {
            lemma_prev_start_bound(t, o - 1);
        }
    }
}

pub proof fn lemma_next_start_bound(t: Seq<u8>, i: int)
    requires
        0 <= i <= t.len(),
    ensures
        i <= next_start(t, i) <= t.len(),
    decreases t.len() - i,
{
    if i < t.len() && !crate::edit::commands::chars::starts_char(t[i]) {
        lemma_next_start_bound(t, i + 1);
    }
}

proof fn lemma_prev_start_bound(t: Seq<u8>, i: int)
    requires
        0 <= i,
    ensures
        0 <= prev_start(t, i) <= i,
    decreases i,
{
    if i > 0 && !crate::edit::commands::chars::starts_char(t[i]) {
        lemma_prev_start_bound(t, i - 1);
    }
}

/// Taking `k + 1` steps is taking `k` and then one more.
proof fn lemma_steps_split(b: Buffer, w: Window, k: nat, forward: bool)
    ensures
        char_steps(b, w, k + 1, forward) == (if char_steps(b, w, k, forward).1 {
            match step(b, char_steps(b, w, k, forward).0, forward) {
                Some(w2) => (w2, true),
                None => (char_steps(b, w, k, forward).0, false),
            }
        } else {
            char_steps(b, w, k, forward)
        }),
    decreases k,
{
    match step(b, w, forward) {
        Some(w1) => {
            if k > 0 {
                lemma_steps_split(b, w1, (k - 1) as nat, forward);
            } else {
                assert(char_steps(b, w1, 0, forward) == (w1, true));
            }
        },
        None => {},
    }
}



/// Skipping ends in one way only.
pub proof fn lemma_skip_unique(b: Buffer, w: Window, forward: bool, c: Class, k1: nat, k2: nat)
    ensures
        skip_ends(b, w, forward, c, k1) && skip_ends(b, w, forward, c, k2) ==> k1 == k2,
        skip_stuck(b, w, forward, c, k1) && skip_stuck(b, w, forward, c, k2) ==> k1 == k2,
        !(skip_ends(b, w, forward, c, k1) && skip_stuck(b, w, forward, c, k2)),
{
    if skip_ends(b, w, forward, c, k1) && skip_ends(b, w, forward, c, k2) && k1 != k2 {
        if k1 < k2 {
            assert(char_steps(b, w, k1, forward).1);
        } else {
            assert(char_steps(b, w, k2, forward).1);
        }
    }
    if skip_stuck(b, w, forward, c, k1) && skip_stuck(b, w, forward, c, k2) && k1 != k2 {
        let (lo, hi) = if k1 < k2 {
            (k1, k2)
        } else {
            (k2, k1)
        };
        assert(char_steps(b, w, lo + 1, forward).1);
    }
    if skip_ends(b, w, forward, c, k1) && skip_stuck(b, w, forward, c, k2) {
        if k1 <= k2 {
            assert(char_steps(b, w, k1, forward).1);
        } else {
            assert(char_steps(b, w, k2 + 1, forward).1);
        }
    }
}

/// Moves the dot one character in the given direction, over line ends.
pub(crate) fn step_once(editor: &mut Editor, forward: bool) -> (r: Result<()>)
    requires
        old(editor).wf(),
    ensures
        final(editor).wf(),
        crate::edit::commands::chars::moved_by_chars(&*old(editor), &*final(editor), 1, forward, r),
{
    if forward {
        ForwardChar.execute(editor, false, 1)
    } else {
        BackwardChar.execute(editor, false, 1)
    }
}

/// Whether the place of the dot is of class `c`.
fn class_at_dot(editor: &Editor, c: &Class) -> (r: Result<bool>)
    requires
        editor.wf(),
    ensures
        dot_line_ok(editor) ==> r == Ok::<bool, Error>(class_at(editor.cur_buf(), editor.cur_win(), *c)),
        !dot_line_ok(editor) ==> r is Err,
{
    match c {
        Class::Word => char_at_dot_is_word_char(editor),
        Class::NotWord => {
            let a = char_at_dot_is_word_char(editor)?;
            Ok(!a)
        },
        Class::Eol => at_eol(editor),
        Class::Blank => {
            let w = editor.cur_checked()?;
            let b = match editor.buffers.get(w.buffer_id) {
                Some(b) => b,
                None => return Err(Error::Abort),
            };
            let line = match b.line(w.dot_line) {
                Some(l) => l,
                None => return Err(Error::Abort),
            };
            let o = w.dot_offset.0;
            if o >= line.text.len() {
                Ok(true)
            } else {
                let x = line.text[o];
                Ok(x == 32 || x == 9)
            }
        },
    }
}

/// Moves the dot while its place is of class `c`, and gives the number of characters
/// passed and whether it stopped at a place of another class.
pub(crate) fn skip_count(editor: &mut Editor, forward: bool, c: &Class) -> (r: Result<(usize, bool)>)
    requires
        old(editor).wf(),
    ensures
        final(editor).wf(),
        counted(&*old(editor), &*final(editor), forward, *c, r),
{
    let ghost e0 = *editor;
    let first = class_at_dot(editor, c)?;
    let ghost b = e0.cur_buf();
    let ghost w0 = e0.cur_win();
    proof {
        Editor::lemma_cur_refl(&e0);
    }
    let mut count: usize = 0;
    let mut at = first;
    while at
        invariant
            editor.wf(),
            e0.wf(),
            e0 == *old(editor),
            b == e0.cur_buf(),
            w0 == e0.cur_win(),
            b.wf(),
            dot_line_ok(&e0),
            dot_line_ok(editor),
            editor.cur_buf() == b,
            editor.only_cur_window_now(&e0, editor.cur_win()),
            editor.cur_win() == char_steps(b, w0, count as nat, forward).0,
            char_steps(b, w0, count as nat, forward).1,
            runs(b, w0, forward, *c, count as nat),
            at == class_at(b, editor.cur_win(), *c),
        decreases line_rank(b, editor.cur_win(), forward), off_rank(b, editor.cur_win(), forward),
    {
        let ghost e1 = *editor;
        let ghost w1 = editor.cur_win();
        proof {
            lemma_steps_split(b, w0, count as nat, forward);
        }
        if count == usize::MAX {
            proof {
                assert(skip_stuck(b, w0, forward, *c, count as nat));
                assert forall|k: nat| !skip_ends(b, w0, forward, *c, k) by {
                    lemma_skip_unique(b, w0, forward, *c, k, count as nat);
                }
                let kk = choose|k: nat| skip_stuck(b, w0, forward, *c, k);
                lemma_skip_unique(b, w0, forward, *c, kk, count as nat);
            }
            return Ok((count, false));
        }
        let r = step_once(editor, forward);
        if r.is_err() {
            proof {
                if step(b, w1, forward) is Some {
                    let w2 = step(b, w1, forward).unwrap();
                    assert(char_steps(b, w2, 0, forward) == (w2, true));
                    assert(char_steps(b, w1, 1, forward) == (w2, true));
                }
                assert(char_steps(b, w1, 1, forward) == (w1, false));
                Editor::lemma_cur_chain(&e0, &e1, &*editor, w1, w1);
                Editor::lemma_cur_after(&e1, &*editor, w1);
                assert(skip_stuck(b, w0, forward, *c, count as nat));
                assert forall|k: nat| !skip_ends(b, w0, forward, *c, k) by {
                    lemma_skip_unique(b, w0, forward, *c, k, count as nat);
                }
                let kk = choose|k: nat| skip_stuck(b, w0, forward, *c, k);
                lemma_skip_unique(b, w0, forward, *c, kk, count as nat);
            }
            return Ok((count, false));
        }
        proof {
            lemma_step_rank(b, w1, forward);
            let w2 = step(b, w1, forward).unwrap();
            assert(char_steps(b, w1, 1, forward) == (w2, true)) by {
                assert(char_steps(b, w2, 0, forward) == (w2, true));
            }
            Editor::lemma_cur_chain(&e0, &e1, &*editor, w1, w2);
            Editor::lemma_cur_after(&e1, &*editor, w2);
            assert forall|j: nat| j < count + 1 implies (#[trigger] char_steps(b, w0, j, forward)).1
                && class_at(b, char_steps(b, w0, j, forward).0, *c) by {
                if j < count {
                } else {
                    assert(j == count);
                }
            }
        }
        count += 1;
        at = class_at_dot(editor, c)?;
    }
    proof {
        assert(skip_ends(b, w0, forward, *c, count as nat));
        let kk = choose|k: nat| skip_ends(b, w0, forward, *c, k);
        lemma_skip_unique(b, w0, forward, *c, kk, count as nat);
    }
    Ok((count, true))
}

/// Moves the dot while the byte under it can (`word`) or cannot be part of a word, and
/// gives the number of characters passed; an error when it got stuck.
fn skip_chars(editor: &mut Editor, forward: bool, word: bool) -> (r: Result<usize>)
    requires
        old(editor).wf(),
    ensures
        final(editor).wf(),
        skipped(&*old(editor), &*final(editor), forward, word, r),
{
    let c = if word {
        Class::Word
    } else {
        Class::NotWord
    };
    let (k, ok) = skip_count(editor, forward, &c)?;
    if ok {
        Ok(k)
    } else {
        Err(Error::Abort)
    }
}

/// `n` rounds of skipping: each passes the places where `word_at` is `first` and then those
/// where it is not; the flag says whether every skip ended well.
pub open spec fn word_rounds(b: Buffer, w: Window, n: nat, forward: bool, first: bool) -> (Window, bool)
    decreases n,
{
    if n == 0 {
        (w, true)
    } else {
        let (w1, ok1, k1) = skip_outcome(b, w, forward, word_class(first));
        if !ok1 {
            (w1, false)
        } else {
            let (w2, ok2, k2) = skip_outcome(b, w1, forward, word_class(!first));
            if !ok2 {
                (w2, false)
            } else {
                word_rounds(b, w2, (n - 1) as nat, forward, first)
            }
        }
    }
}

/// Where `backward-word` takes the dot: one character back, `n` rounds back over non-word
/// and then word characters, and one character forward again.
pub open spec fn words_back(b: Buffer, w: Window, n: nat) -> (Window, bool) {
    let (w1, ok1) = char_steps(b, w, 1, false);
    if !ok1 {
        (w1, false)
    } else {
        let (w2, ok2) = word_rounds(b, w1, n, false, false);
        if !ok2 {
            (w2, false)
        } else {
            char_steps(b, w2, 1, true)
        }
    }
}

/// What moving by words does to an editor: forward, `n` rounds over a word and the non-word
/// characters after it (nothing when `n` is zero); backward, see `words_back`.  Without a
/// current window (forward: without a line under the dot, unless `n` is zero) nothing
/// changes and the result is an error.
pub open spec fn moved_by_words(e0: &Editor, e1: &Editor, n: usize, forward: bool, r: Result<()>) -> bool {
    if forward && n == 0 {
        r is Ok && *e1 == *e0
    } else if forward && !dot_line_ok(e0) {
        r is Err && *e1 == *e0
    } else if !forward && !e0.has_cur() {
        r is Err && *e1 == *e0
    } else {
        let (w, ok) = if forward {
            word_rounds(e0.cur_buf(), e0.cur_win(), n as nat, true, true)
        } else {
            words_back(e0.cur_buf(), e0.cur_win(), n as nat)
        };
        &&& e1.only_cur_window_now(e0, w)
        &&& (r is Ok <==> ok)
    }
}

/// Runs `n` rounds of skipping in the given direction, `first` first.
fn run_rounds(editor: &mut Editor, n: usize, forward: bool, first: bool) -> (r: Result<()>)
    requires
        old(editor).wf(),
        dot_line_ok(&*old(editor)),
    ensures
        final(editor).wf(),
        ({
            let (w, ok) = word_rounds(old(editor).cur_buf(), old(editor).cur_win(), n as nat, forward, first);
            &&& final(editor).only_cur_window_now(&*old(editor), w)
            &&& (r is Ok <==> ok)
            &&& ok ==> dot_line_ok(&*final(editor)) && final(editor).cur_buf() == old(editor).cur_buf()
        }),
{
    let ghost e0 = *editor;
    let ghost b = e0.cur_buf();
    let ghost w0 = e0.cur_win();
    proof {
        Editor::lemma_cur_refl(&e0);
    }
    let mut k = n;
    while k > 0
        invariant
            editor.wf(),
            e0.wf(),
            e0 == *old(editor),
            b == e0.cur_buf(),
            w0 == e0.cur_win(),
            dot_line_ok(editor),
            editor.cur_buf() == b,
            editor.only_cur_window_now(&e0, editor.cur_win()),
            word_rounds(b, w0, n as nat, forward, first) == word_rounds(
                b,
                editor.cur_win(),
                k as nat,
                forward,
                first,
            ),
        decreases k,
    {
        let ghost e1 = *editor;
        let ghost w1 = editor.cur_win();
        proof {
            Editor::lemma_cur_after(&e0, &e1, w1);
        }
        let r1 = skip_chars(editor, forward, first);
        let ghost e2 = *editor;
        proof {
            Editor::lemma_cur_chain(&e0, &e1, &e2, w1, skip_outcome(b, w1, forward, word_class(first)).0);
            Editor::lemma_cur_after(&e1, &e2, skip_outcome(b, w1, forward, word_class(first)).0);
        }
        if r1.is_err() {
            return Err(Error::Abort);
        }
        let r2 = skip_chars(editor, forward, !first);
        proof {
            let w2 = skip_outcome(b, w1, forward, word_class(first)).0;
            Editor::lemma_cur_chain(&e0, &e2, &*editor, w2, skip_outcome(b, w2, forward, word_class(!first)).0);
            Editor::lemma_cur_after(&e2, &*editor, skip_outcome(b, w2, forward, word_class(!first)).0);
        }
        if r2.is_err() {
            return Err(Error::Abort);
        }
        k -= 1;
    }
    Ok(())
}

/// Moves the dot forward `n` words: past the rest of a word and the non-word characters
/// after it, `n` times.
pub struct ForwardWord;

impl Command for ForwardWord {
    fn execute(&self, editor: &mut Editor, f: bool, n: usize) -> (r: Result<()>)
        ensures
            moved_by_words(&*old(editor), &*final(editor), n, true, r),
    {
        if n == 0 {
            return Ok(());
        }
        let ghost e0 = *editor;
        if char_at_dot_is_word_char(editor).is_err() {
            return Err(Error::Abort);
        }
        run_rounds(editor, n, true, true)
    }
}

/// Moves the dot back `n` words, to the start of the word it ends in.
pub struct BackwardWord;

impl Command for BackwardWord {
    fn execute(&self, editor: &mut Editor, f: bool, n: usize) -> (r: Result<()>)
        ensures
            moved_by_words(&*old(editor), &*final(editor), n, false, r),
    {
        let ghost e0 = *editor;
        step_once(editor, false)?;
        let ghost e1 = *editor;
        let ghost w1 = char_steps(e0.cur_buf(), e0.cur_win(), 1, false).0;
        proof {
            let b = e0.cur_buf();
            let w0 = e0.cur_win();
            if step(b, w0, false) is None {
                assert(char_steps(b, w0, 1, false) == (w0, false));
            } else {
                let w2 = step(b, w0, false).unwrap();
                assert(char_steps(b, w2, 0, false) == (w2, true));
                lemma_step_rank(b, w0, false);
            }
            Editor::lemma_cur_after(&e0, &e1, w1);
        }
        let r = run_rounds(editor, n, false, false);
        let ghost e2 = *editor;
        proof {
            let w2 = word_rounds(e0.cur_buf(), w1, n as nat, false, false).0;
            Editor::lemma_cur_chain(&e0, &e1, &e2, w1, w2);
        }
        if r.is_err() {
            return Err(Error::Abort);
        }
        let ghost w2 = word_rounds(e0.cur_buf(), w1, n as nat, false, false).0;
        proof {
            Editor::lemma_cur_after(&e0, &e2, w2);
        }
        let r3 = step_once(editor, true);
        proof {
            let b = e0.cur_buf();
            if step(b, w2, true) is None {
                assert(char_steps(b, w2, 1, true) == (w2, false));
            } else {
                let w3 = step(b, w2, true).unwrap();
                assert(char_steps(b, w3, 0, true) == (w3, true));
            }
            Editor::lemma_cur_chain(&e0, &e2, &*editor, w2, char_steps(b, w2, 1, true).0);
        }
        r3
    }
}

/// `x`, or `usize::MAX` when that is smaller.
pub open spec fn sat(x: int) -> int {
    if x > usize::MAX {
        usize::MAX as int
    } else {
        x
    }
}

/// One round of `delete-next-word`'s walk: past line ends, then a word, then (but in the
/// last round) the non-word characters after it.  The window reached, the characters
/// passed, and whether every skip ended well.
pub open spec fn del_round(b: Buffer, w: Window, last: bool) -> (Window, nat, bool) {
    let (w1, ok1, k1) = skip_outcome(b, w, true, Class::Eol);
    if !ok1 {
        (w1, k1, false)
    } else {
        let (w2, ok2, k2) = skip_outcome(b, w1, true, Class::Word);
        if !ok2 || last {
            (w2, k1 + k2, ok2)
        } else {
            let (w3, ok3, k3) = skip_outcome(b, w2, true, Class::NotWord);
            (w3, k1 + k2 + k3, ok3)
        }
    }
}

/// `m` rounds of `del_round`, stopping at the first that fails.
pub open spec fn del_rounds(b: Buffer, w: Window, m: nat) -> (Window, nat, bool)
    decreases m,
{
    if m == 0 {
        (w, 0, true)
    } else {
        let (w1, k1, ok1) = del_round(b, w, m == 1);
        if !ok1 {
            (w1, k1, false)
        } else {
            let (w2, k2, ok2) = del_rounds(b, w1, (m - 1) as nat);
            (w2, k1 + k2, ok2)
        }
    }
}

/// The walk of `delete-next-word` from `w`: past non-word characters, then `n` rounds (one
/// when `n` is zero) of `del_rounds`, then (when `n` is not zero) past blanks.  The window
/// reached, the characters passed, and whether it went through.
pub open spec fn fwd_word_walk(b: Buffer, w: Window, n: usize) -> (Window, nat, bool) {
    let wn: nat = if n == 0 {
        1
    } else {
        n as nat
    };
    let (w1, ok1, k1) = skip_outcome(b, w, true, Class::NotWord);
    if !ok1 {
        (w1, k1, false)
    } else {
        let (w2, k2, ok2) = del_rounds(b, w1, wn);
        if !ok2 {
            (w2, k1 + k2, false)
        } else if n == 0 {
            (w2, k1 + k2, true)
        } else {
            let (w3, ok3, k3) = skip_outcome(b, w2, true, Class::Blank);
            (w3, k1 + k2 + k3, true)
        }
    }
}

/// From `e2`, `count` characters were killed and, when that worked, the window marked as
/// edited.
pub open spec fn kill_marked(e2: Editor, e1: Editor, count: usize, r: Result<()>) -> bool {
    exists|e3: Editor|
        #[trigger] killed_chars(&e2, &e3, count, r) && e3.wf() && (r is Ok ==> e1.only_cur_window_now(
            &e3,
            Window {
                flags: WindowFlags(e3.cur_win().flags.0 | WindowFlags::edited().0),
                ..e3.cur_win()
            },
        )) && (r is Err ==> e1 == e3)
}

/// What `delete-next-word` does: a kill is started; the dot walks as `fwd_word_walk` says
/// (an error when that fails, the dot left where it got); it goes back to where it was,
/// and the characters passed (at most `usize::MAX`) are killed.
pub open spec fn deleted_next_word(e0: &Editor, e1: &Editor, n: usize, r: Result<()>) -> bool {
    exists|mid: Editor|
        mid.wf() && #[trigger] kill_started(&mid, e0) && mid.windows == e0.windows && (if !dot_line_ok(
            e0,
        ) {
            r is Err && *e1 == mid
        } else {
            let w0 = e0.cur_win();
            let (we, total, ok) = fwd_word_walk(e0.cur_buf(), w0, n);
            if !ok {
                r is Err && e1.only_cur_window_now(&mid, we)
            } else {
                exists|e2: Editor|
                    e2.wf() && #[trigger] e2.only_cur_window_now(
                        &mid,
                        Window { dot_line: w0.dot_line, dot_offset: w0.dot_offset, ..we },
                    ) && kill_marked(e2, *e1, sat(total as int) as usize, r)
            }
        })
}

/// Runs the skip of class `c` from a place with a line under the dot, adding the count
/// to `count` (saturating); an error when the skip got stuck.
fn skip_add(editor: &mut Editor, c: &Class, count: usize) -> (r: Result<usize>)
    requires
        old(editor).wf(),
        dot_line_ok(&*old(editor)),
    ensures
        final(editor).wf(),
        ({
            let (w1, ok, k) = skip_outcome(old(editor).cur_buf(), old(editor).cur_win(), true, *c);
            &&& final(editor).only_cur_window_now(&*old(editor), w1)
            &&& dot_line_ok(&*final(editor))
            &&& final(editor).cur_buf() == old(editor).cur_buf()
            &&& ok ==> r == Ok::<usize, Error>(sat(count + k) as usize)
            &&& !ok ==> r is Err
        }),
{
    let (k, ok) = match skip_count(editor, true, c) {
        Ok(x) => x,
        Err(e) => return Err(e),
    };
    if ok {
        Ok(count.saturating_add(k))
    } else {
        Err(Error::Abort)
    }
}

/// One `del_round`, adding the characters passed to `count` (saturating).
fn run_del_round(editor: &mut Editor, last: bool, count: usize) -> (r: Result<usize>)
    requires
        old(editor).wf(),
        dot_line_ok(&*old(editor)),
    ensures
        final(editor).wf(),
        ({
            let (w1, k, ok) = del_round(old(editor).cur_buf(), old(editor).cur_win(), last);
            &&& final(editor).only_cur_window_now(&*old(editor), w1)
            &&& dot_line_ok(&*final(editor))
            &&& final(editor).cur_buf() == old(editor).cur_buf()
            &&& ok ==> r == Ok::<usize, Error>(sat(count + k) as usize)
            &&& !ok ==> r is Err
        }),
{
    let ghost e0 = *editor;
    let ghost b = e0.cur_buf();
    let ghost w0 = e0.cur_win();
    let ghost (wx, okx, kx) = skip_outcome(b, w0, true, Class::Eol);
    let c1 = skip_add(editor, &Class::Eol, count);
    let ghost ex = *editor;
    proof {
        Editor::lemma_cur_after(&e0, &ex, wx);
    }
    let c1 = c1?;
    let ghost (wy, oky, ky) = skip_outcome(b, wx, true, Class::Word);
    let c2 = skip_add(editor, &Class::Word, c1);
    let ghost ey = *editor;
    proof {
        Editor::lemma_cur_chain(&e0, &ex, &ey, wx, wy);
        Editor::lemma_cur_after(&ex, &ey, wy);
    }
    let c2 = c2?;
    if last {
        return Ok(c2);
    }
    let ghost (wz, okz, kz) = skip_outcome(b, wy, true, Class::NotWord);
    let c3 = skip_add(editor, &Class::NotWord, c2);
    proof {
        Editor::lemma_cur_chain(&e0, &ey, &*editor, wy, wz);
    }
    c3
}

/// The walk of `delete-next-word`; gives the number of characters passed.
fn walk_next_word(editor: &mut Editor, n: usize) -> (r: Result<usize>)
    requires
        old(editor).wf(),
        dot_line_ok(&*old(editor)),
    ensures
        final(editor).wf(),
        ({
            let (we, total, ok) = fwd_word_walk(old(editor).cur_buf(), old(editor).cur_win(), n);
            &&& final(editor).only_cur_window_now(&*old(editor), we)
            &&& ok ==> r == Ok::<usize, Error>(sat(total as int) as usize)
            &&& !ok ==> r is Err
            &&& final(editor).cur_buf() == old(editor).cur_buf()
            &&& ok ==> dot_line_ok(&*final(editor))
        }),
{
    let ghost e0 = *editor;
    let ghost b = e0.cur_buf();
    let ghost w0 = e0.cur_win();
    let ghost (w1, ok1, k1) = skip_outcome(b, w0, true, Class::NotWord);
    let mut count = skip_add(editor, &Class::NotWord, 0)?;
    let wn: usize = if n == 0 {
        1
    } else {
        n
    };
    let ghost e1 = *editor;
    let ghost mut acc: nat = 0;
    let mut i: usize = 0;
    proof {
        Editor::lemma_cur_after(&e0, &e1, w1);
        Editor::lemma_cur_refl(&e1);
    }
    while i < wn
        invariant
            editor.wf(),
            e0.wf(),
            e1.wf(),
            e0 == *old(editor),
            b == e0.cur_buf(),
            w0 == e0.cur_win(),
            (w1, ok1, k1) == skip_outcome(b, w0, true, Class::NotWord),
            ok1,
            e1.only_cur_window_now(&e0, w1),
            e1.cur_win() == w1,
            e1.cur_buf() == b,
            wn == (if n == 0 {
                1
            } else {
                n
            }),
            i <= wn,
            dot_line_ok(editor),
            editor.cur_buf() == b,
            editor.only_cur_window_now(&e1, editor.cur_win()),
            count == sat((k1 + acc) as int),
            ({
                let (wa, ka, oka) = del_rounds(b, w1, wn as nat);
                let (wb, kb, okb) = del_rounds(b, editor.cur_win(), (wn - i) as nat);
                &&& wa == wb
                &&& oka == okb
                &&& ka == acc + kb
            }),
        decreases wn - i,
    {
        let ghost ec = *editor;
        let ghost wc = editor.cur_win();
        proof {
            Editor::lemma_cur_after(&e1, &ec, wc);
        }
        let ghost (wx, kx, okx) = del_round(b, wc, i + 1 == wn);
        count = match run_del_round(editor, i + 1 == wn, count) {
            Ok(c) => c,
            Err(e) => {
                proof {
                    Editor::lemma_cur_chain(&e1, &ec, &*editor, wc, wx);
                    Editor::lemma_cur_chain(&e0, &e1, &*editor, w1, wx);
                }
                return Err(e);
            },
        };
        proof {
            Editor::lemma_cur_chain(&e1, &ec, &*editor, wc, wx);
            Editor::lemma_cur_after(&ec, &*editor, wx);
            acc = acc + kx;
        }
        i += 1;
    }
    let ghost ed = *editor;
    let ghost wd = editor.cur_win();
    proof {
        Editor::lemma_cur_after(&e1, &ed, wd);
        Editor::lemma_cur_chain(&e0, &e1, &ed, w1, wd);
    }
    proof {
        assert(del_rounds(b, wd, 0) == (wd, 0nat, true));
        assert(del_rounds(b, w1, wn as nat) == (wd, acc, true));
    }
    if n != 0 {
        let ghost (wb, okb, kb) = skip_outcome(b, wd, true, Class::Blank);
        let (k, ok) = skip_count(editor, true, &Class::Blank)?;
        count = count.saturating_add(k);
        proof {
            Editor::lemma_cur_chain(&e0, &ed, &*editor, wd, wb);
            assert(count == sat((k1 + acc + kb) as int));
        }
    }
    Ok(count)
}

/// Kills from the dot to the end of the `n`th next word (and, when `n` is not zero, the
/// blanks after it), leaving the dot where it was.
pub struct DeleteForwardWord;

impl Command for DeleteForwardWord {
    fn execute(&self, editor: &mut Editor, f: bool, n: usize) -> (r: Result<()>)
        ensures
            deleted_next_word(&*old(editor), &*final(editor), n, r),
    {
        let ghost e0 = *editor;
        start_kill(editor);
        let ghost mid = *editor;
        proof {
            assert(mid.cur() == e0.cur());
            assert(mid.buffers == e0.buffers);
        }
        if char_at_dot_is_word_char(editor).is_err() {
            assert(deleted_next_word(&e0, &*editor, n, Err(Error::Abort)));
            return Err(Error::Abort);
        }
        let w = editor.cur_checked()?;
        let count = match walk_next_word(editor, n) {
            Ok(c) => c,
            Err(e) => {
                assert(deleted_next_word(&e0, &*editor, n, Err(e)));
                return Err(e);
            },
        };
        let ghost ew = *editor;
        proof {
            let wspec = fwd_word_walk(mid.cur_buf(), mid.cur_win(), n).0;
            Editor::lemma_cur_after(&mid, &ew, wspec);
        }
        let we = editor.cur_checked()?;
        editor.set_cur_window(Window { dot_line: w.dot_line, dot_offset: w.dot_offset, ..we });
        let ghost e2 = *editor;
        proof {
            Editor::lemma_cur_chain(&mid, &ew, &e2, we, Window { dot_line: w.dot_line, dot_offset: w.dot_offset, ..we });
        }
        let r = kill_n_chars(editor, count);
        let ghost e3 = *editor;
        if r.is_ok() {
            let mut w3 = editor.cur_window()?;
            w3.set_flag(WindowFlags::edited());
            editor.set_cur_window(w3);
        }
        proof {
            assert(kill_marked(e2, *editor, count, r));
        }
        assert(deleted_next_word(&e0, &*editor, n, r));
        r
    }
}

/// One round of `delete-previous-word`'s walk: back past non-word characters (stopping
/// quietly at the start of the buffer), then back past a word.  The window reached, the
/// characters counted (one more when the start of the buffer stopped the word), and
/// whether the start of the buffer stopped it.
pub open spec fn back_round(b: Buffer, w: Window) -> (Window, nat, bool) {
    let (w1, ok1, k1) = skip_outcome(b, w, false, Class::NotWord);
    let (w2, ok2, k2) = skip_outcome(b, w1, false, Class::Word);
    if !ok2 {
        (w2, k1 + k2 + 1, true)
    } else {
        (w2, k1 + k2, false)
    }
}

/// `m` rounds of `back_round`, stopping after one that reached the start of the buffer.
pub open spec fn back_rounds(b: Buffer, w: Window, m: nat) -> (Window, nat, bool)
    decreases m,
{
    if m == 0 {
        (w, 0, false)
    } else {
        let (w1, k1, hit) = back_round(b, w);
        if hit {
            (w1, k1, true)
        } else {
            let (w2, k2, hit2) = back_rounds(b, w1, (m - 1) as nat);
            (w2, k1 + k2, hit2)
        }
    }
}

/// The walk of `delete-previous-word` from `w`: one character back (it fails when that
/// cannot be done), `n` rounds of `back_round`, and one character forward again unless the
/// start of the buffer was reached.  The window reached, the characters counted, and
/// whether it went through.
pub open spec fn back_word_walk(b: Buffer, w: Window, n: usize) -> (Window, nat, bool) {
    let (w1, ok1) = char_steps(b, w, 1, false);
    if !ok1 {
        (w1, 0, false)
    } else {
        let (w2, k, hit) = back_rounds(b, w1, n as nat);
        if hit {
            (w2, k, true)
        } else {
            (char_steps(b, w2, 1, true).0, k, true)
        }
    }
}

/// What `delete-previous-word` does: nothing but an error when `n` is zero; else a kill is
/// started, the dot walks as `back_word_walk` says (an error when the first step back
/// fails), and the characters counted (at most `usize::MAX`) are killed from there.
pub open spec fn deleted_prev_word(e0: &Editor, e1: &Editor, n: usize, r: Result<()>) -> bool {
    if n == 0 {
        r is Err && *e1 == *e0
    } else {
        exists|mid: Editor|
            mid.wf() && #[trigger] kill_started(&mid, e0) && mid.windows == e0.windows && (
            if !e0.has_cur() {
                r is Err && *e1 == mid
            } else {
                let (we, total, ok) = back_word_walk(e0.cur_buf(), e0.cur_win(), n);
                if !ok {
                    r is Err && e1.only_cur_window_now(&mid, we)
                } else {
                    exists|e2: Editor|
                        e2.wf() && #[trigger] e2.only_cur_window_now(&mid, we) && kill_marked(
                            e2,
                            *e1,
                            sat(total as int) as usize,
                            r,
                        )
                }
            })
    }
}

/// One `back_round`, adding the count to `count` (saturating); also says whether the
/// start of the buffer was reached.
fn run_back_round(editor: &mut Editor, count: usize) -> (r: (usize, bool))
    requires
        old(editor).wf(),
        dot_line_ok(&*old(editor)),
    ensures
        final(editor).wf(),
        ({
            let (w1, k, hit) = back_round(old(editor).cur_buf(), old(editor).cur_win());
            &&& final(editor).only_cur_window_now(&*old(editor), w1)
            &&& dot_line_ok(&*final(editor))
            &&& final(editor).cur_buf() == old(editor).cur_buf()
            &&& r == (sat(count + k) as usize, hit)
        }),
{
    let ghost e0 = *editor;
    let ghost b = e0.cur_buf();
    let ghost w0 = e0.cur_win();
    let ghost (wx, okx, kx) = skip_outcome(b, w0, false, Class::NotWord);
    let (k1, ok1) = match skip_count(editor, false, &Class::NotWord) {
        Ok(x) => x,
        Err(_) => (0, false),
    };
    let ghost ex = *editor;
    proof {
        Editor::lemma_cur_after(&e0, &ex, wx);
    }
    let ghost (wy, oky, ky) = skip_outcome(b, wx, false, Class::Word);
    let (k2, ok2) = match skip_count(editor, false, &Class::Word) {
        Ok(x) => x,
        Err(_) => (0, false),
    };
    proof {
        Editor::lemma_cur_chain(&e0, &ex, &*editor, wx, wy);
    }
    let c = count.saturating_add(k1).saturating_add(k2);
    if !ok2 {
        (c.saturating_add(1), true)
    } else {
        (c, false)
    }
}

/// Kills back to the start of the `n`th previous word.
pub struct DeleteBackwardWord;

impl Command for DeleteBackwardWord {
    fn execute(&self, editor: &mut Editor, f: bool, n: usize) -> (r: Result<()>)
        ensures
            deleted_prev_word(&*old(editor), &*final(editor), n, r),
    {
        if n == 0 {
            return Err(Error::Abort);
        }
        let ghost e0 = *editor;
        start_kill(editor);
        let ghost mid = *editor;
        proof {
            assert(mid.cur() == e0.cur());
            assert(mid.buffers == e0.buffers);
        }
        if step_once(editor, false).is_err() {
            assert(deleted_prev_word(&e0, &*editor, n, Err(Error::Abort)));
            return Err(Error::Abort);
        }
        let ghost b = e0.cur_buf();
        let ghost w1 = char_steps(b, e0.cur_win(), 1, false).0;
        let ghost e1 = *editor;
        proof {
            let w0 = e0.cur_win();
            if step(b, w0, false) is None {
                assert(char_steps(b, w0, 1, false) == (w0, false));
            } else {
                let w2 = step(b, w0, false).unwrap();
                assert(char_steps(b, w2, 0, false) == (w2, true));
                lemma_step_rank(b, w0, false);
            }
            Editor::lemma_cur_after(&mid, &e1, w1);
            Editor::lemma_cur_refl(&e1);
        }
        let mut count: usize = 0;
        let mut hit = false;
        let mut i: usize = 0;
        let ghost mut acc: nat = 0;
        while i < n && !hit
            invariant
                editor.wf(),
                e1.wf(),
                e1.has_cur(),
                e1.cur_win() == w1,
                e1.cur_buf() == b,
                i <= n,
                dot_line_ok(editor),
                editor.cur_buf() == b,
                editor.only_cur_window_now(&e1, editor.cur_win()),
                count == sat(acc as int),
                ({
                    let (wa, ka, ha) = back_rounds(b, w1, n as nat);
                    let (wb, kb, hb) = back_rounds(b, editor.cur_win(), (n - i) as nat);
                    &&& hit ==> wa == editor.cur_win() && ka == acc && ha
                    &&& !hit ==> wa == wb && ha == hb && ka == acc + kb
                }),
            decreases n - i,
        {
            let ghost ec = *editor;
            let ghost wc = editor.cur_win();
            proof {
                Editor::lemma_cur_after(&e1, &ec, wc);
            }
            let ghost (wx, kx, hx) = back_round(b, wc);
            let (c, h) = run_back_round(editor, count);
            proof {
                Editor::lemma_cur_chain(&e1, &ec, &*editor, wc, wx);
                Editor::lemma_cur_after(&ec, &*editor, wx);
                acc = acc + kx;
                if !h {
                    assert(back_rounds(b, wx, (n - i - 1) as nat) == back_rounds(b, wx, (n - (i + 1)) as nat));
                }
            }
            count = c;
            hit = h;
            i += 1;
        }
        let ghost ed = *editor;
        let ghost wd = editor.cur_win();
        proof {
            Editor::lemma_cur_after(&e1, &ed, wd);
            if !hit {
                assert(back_rounds(b, wd, 0) == (wd, 0nat, false));
            }
        }
        if !hit {
            let _ = step_once(editor, true);
            proof {
                if step(b, wd, true) is None {
                    assert(char_steps(b, wd, 1, true) == (wd, false));
                } else {
                    let w3 = step(b, wd, true).unwrap();
                    assert(char_steps(b, w3, 0, true) == (w3, true));
                }
                Editor::lemma_cur_chain(&e1, &ed, &*editor, wd, char_steps(b, wd, 1, true).0);
            }
        }
        let ghost e2 = *editor;
        proof {
            Editor::lemma_cur_chain(&mid, &e1, &e2, w1, back_word_walk(b, e0.cur_win(), n).0);
        }
        let r = kill_n_chars(editor, count);
        if r.is_ok() {
            let mut w3 = editor.cur_window()?;
            w3.set_flag(WindowFlags::edited());
            editor.set_cur_window(w3);
        }
        proof {
            assert(kill_marked(e2, *editor, count, r));
        }
        assert(deleted_prev_word(&e0, &*editor, n, r));
        r
    }
}

/// Moves the dot forward over bytes that cannot be part of a word; gives the number of
/// characters passed.
pub fn skip_non_word_forward(editor: &mut Editor) -> (r: Result<usize>)
    requires
        old(editor).wf(),
    ensures
        final(editor).wf(),
        skipped(&*old(editor), &*final(editor), true, false, r),
{
    skip_chars(editor, true, false)
}

/// Moves the dot forward over bytes that can be part of a word; gives the number of
/// characters passed.
pub fn skip_word_forward(editor: &mut Editor) -> (r: Result<usize>)
    requires
        old(editor).wf(),
    ensures
        final(editor).wf(),
        skipped(&*old(editor), &*final(editor), true, true, r),
{
    skip_chars(editor, true, true)
}

/// Moves the dot backward over bytes that cannot be part of a word; gives the number of
/// characters passed.
pub fn skip_non_word_backward(editor: &mut Editor) -> (r: Result<usize>)
    requires
        old(editor).wf(),
    ensures
        final(editor).wf(),
        skipped(&*old(editor), &*final(editor), false, false, r),
{
    skip_chars(editor, false, false)
}

/// Moves the dot backward over bytes that can be part of a word; gives the number of
/// characters passed.
pub fn skip_word_backward(editor: &mut Editor) -> (r: Result<usize>)
    requires
        old(editor).wf(),
    ensures
        final(editor).wf(),
        skipped(&*old(editor), &*final(editor), false, true, r),
{
    skip_chars(editor, false, true)
}

} // verus!
