use crate::buffer::{Buffer, TextModel};
use crate::edit::commands::chars::{
    char_step_backward, char_step_forward, char_steps, next_start, prev_start, starts_char,
};
use crate::edit::commands::delete::same_meta;
use crate::edit::commands::insert::{lemma_changed_chain, lemma_undo_chain, lemma_window_only_changed};
use crate::edit::commands::words::{
    class_at, lemma_next_start_bound, lemma_step_rank, runs, skip_count, skip_ends, skip_outcome,
    skip_stuck, step, step_once, Class,
};
use crate::edit::helpers::{blank, byte_at_dot, dot_line_ok, put_byte_at_dot, word_byte, word_byte_at_dot};
use crate::edit::{Command, Editor};
use crate::types::{BufferFlags, Error, LineOffset, Result, UndoAction, WindowFlags};
use crate::window::Window;
use vstd::prelude::*;

verus! {

/// Two bytes that no skip or character step tells apart.
pub open spec fn same_class(x: u8, y: u8) -> bool {
    &&& starts_char(x) == starts_char(y)
    &&& word_byte(x) == word_byte(y)
    &&& blank(x) == blank(y)
}

/// Two texts of the same length whose bytes are pairwise of the same class.
pub open spec fn text_compat(t1: Seq<u8>, t0: Seq<u8>) -> bool {
    &&& t1.len() == t0.len()
    &&& forall|i: int| 0 <= i < t0.len() ==> same_class(#[trigger] t1[i], t0[i])
}

/// `b1` differs from `b0` only in bytes of the same class: every skip and character step
/// goes the same way in both.
pub open spec fn compat(b1: Buffer, b0: Buffer) -> bool {
    &&& b1.ids() == b0.ids()
    &&& b1.lines@.len() == b0.lines@.len()
    &&& forall|l: usize| l < b0.lines@.len() ==> text_compat(#[trigger] b1.text_of(l), b0.text_of(l))
}

/// A buffer is compatible with itself, and compatibility chains.
pub proof fn lemma_compat_chain(b2: Buffer, b1: Buffer, b0: Buffer)
    ensures
        compat(b0, b0),
        compat(b2, b1) && compat(b1, b0) ==> compat(b2, b0),
{
    assert forall|l: usize| l < b0.lines@.len() implies text_compat(
        #[trigger] b0.text_of(l),
        b0.text_of(l),
    ) by {}
    if compat(b2, b1) && compat(b1, b0) {
        assert forall|l: usize| l < b0.lines@.len() implies text_compat(
            #[trigger] b2.text_of(l),
            b0.text_of(l),
        ) by {
            assert(text_compat(b2.text_of(l), b1.text_of(l)));
            assert(text_compat(b1.text_of(l), b0.text_of(l)));
            assert forall|i: int| 0 <= i < b0.text_of(l).len() implies same_class(
                #[trigger] b2.text_of(l)[i],
                b0.text_of(l)[i],
            ) by {
                assert(same_class(b2.text_of(l)[i], b1.text_of(l)[i]));
                assert(same_class(b1.text_of(l)[i], b0.text_of(l)[i]));
            }
        }
    }
}

proof fn lemma_next_start_compat(t1: Seq<u8>, t0: Seq<u8>, i: int)
    requires
        text_compat(t1, t0),
        0 <= i,
    ensures
        next_start(t1, i) == next_start(t0, i),
    decreases t0.len() - i,
{
    if i < t0.len() {
        assert(same_class(t1[i], t0[i]));
        if !starts_char(t0[i]) {
            lemma_next_start_compat(t1, t0, i + 1);
        }
    }
}

proof fn lemma_prev_start_compat(t1: Seq<u8>, t0: Seq<u8>, i: int)
    requires
        text_compat(t1, t0),
        i < t0.len(),
    ensures
        prev_start(t1, i) == prev_start(t0, i),
    decreases i,
{
    if i > 0 {
        assert(same_class(t1[i], t0[i]));
        lemma_prev_start_compat(t1, t0, i - 1);
    }
}

/// A step and the class of a place are the same in compatible buffers.
pub proof fn lemma_compat_step(b1: Buffer, b0: Buffer, w: Window, forward: bool, c: Class)
    requires
        b0.wf(),
        compat(b1, b0),
        w.dot_line.0 < b0.lines@.len(),
    ensures
        step(b1, w, forward) == step(b0, w, forward),
        class_at(b1, w, c) == class_at(b0, w, c),
{
    let l = w.dot_line.0;
    let o = w.dot_offset.0 as int;
    assert(text_compat(b1.text_of(l), b0.text_of(l)));
    if o < b0.text_of(l).len() {
        assert(same_class(b1.text_of(l)[o], b0.text_of(l)[o]));
        lemma_next_start_compat(b1.text_of(l), b0.text_of(l), o + 1);
    }
    if 0 < o && o - 1 < b0.text_of(l).len() {
        lemma_prev_start_compat(b1.text_of(l), b0.text_of(l), o - 1);
    }
    if o == 0 && b0.prev_of(l) is Some {
        let ids = b0.ids();
        let pl = b0.prev_of(l).unwrap();
        if l == 0 {
            b0.lemma_pos_of(ids.len() - 1);
        } else {
            let k = ids.index_of(l);
            assert(ids[k] == l);
            b0.lemma_pos_of(k);
            b0.lemma_pos_of(k - 1);
        }
        assert(text_compat(b1.text_of(pl), b0.text_of(pl)));
    }
}

/// Runs of steps are the same in compatible buffers.
pub proof fn lemma_compat_steps(b1: Buffer, b0: Buffer, w: Window, k: nat, forward: bool, c: Class)
    requires
        b0.wf(),
        compat(b1, b0),
        w.dot_line.0 < b0.lines@.len(),
    ensures
        char_steps(b1, w, k, forward) == char_steps(b0, w, k, forward),
        char_steps(b0, w, k, forward).0.dot_line.0 < b0.lines@.len(),
        class_at(b1, char_steps(b0, w, k, forward).0, c) == class_at(
            b0,
            char_steps(b0, w, k, forward).0,
            c,
        ),
    decreases k,
{
    lemma_compat_step(b1, b0, w, forward, c);
    if k > 0 {
        match step(b0, w, forward) {
            Some(w2) => {
                lemma_step_rank(b0, w, forward);
                lemma_compat_steps(b1, b0, w2, (k - 1) as nat, forward, c);
            },
            None => {},
        }
    }
}

/// Runs of steps through places of a class are the same in compatible buffers.
proof fn lemma_compat_runs(b1: Buffer, b0: Buffer, w: Window, forward: bool, c: Class, k: nat)
    requires
        b0.wf(),
        compat(b1, b0),
        w.dot_line.0 < b0.lines@.len(),
    ensures
        runs(b1, w, forward, c, k) == runs(b0, w, forward, c, k),
        char_steps(b1, w, k, forward) == char_steps(b0, w, k, forward),
        class_at(b1, char_steps(b1, w, k, forward).0, c) == class_at(b0, char_steps(b0, w, k, forward).0, c),
{
    lemma_compat_steps(b1, b0, w, k, forward, c);
    if runs(b0, w, forward, c, k) {
        assert forall|j: nat| j < k implies (#[trigger] char_steps(b1, w, j, forward)).1 && class_at(
            b1,
            char_steps(b1, w, j, forward).0,
            c,
        ) by {
            lemma_compat_steps(b1, b0, w, j, forward, c);
            assert(char_steps(b0, w, j, forward).1);
        }
    }
    if runs(b1, w, forward, c, k) {
        assert forall|j: nat| j < k implies (#[trigger] char_steps(b0, w, j, forward)).1 && class_at(
            b0,
            char_steps(b0, w, j, forward).0,
            c,
        ) by {
            lemma_compat_steps(b1, b0, w, j, forward, c);
            assert(char_steps(b1, w, j, forward).1);
        }
    }
}

/// A skip ends, or gets stuck, after the same steps in compatible buffers.
proof fn lemma_compat_skip_at(b1: Buffer, b0: Buffer, w: Window, forward: bool, c: Class, k: nat)
    requires
        b0.wf(),
        compat(b1, b0),
        w.dot_line.0 < b0.lines@.len(),
    ensures
        skip_ends(b1, w, forward, c, k) == skip_ends(b0, w, forward, c, k),
        skip_stuck(b1, w, forward, c, k) == skip_stuck(b0, w, forward, c, k),
        char_steps(b1, w, k, forward) == char_steps(b0, w, k, forward),
{
    lemma_compat_runs(b1, b0, w, forward, c, k);
    lemma_compat_runs(b1, b0, w, forward, c, k + 1);
}

/// Skips end the same way in compatible buffers.
pub proof fn lemma_compat_outcome(b1: Buffer, b0: Buffer, w: Window, forward: bool, c: Class)
    requires
        b0.wf(),
        compat(b1, b0),
        w.dot_line.0 < b0.lines@.len(),
    ensures
        skip_outcome(b1, w, forward, c) == skip_outcome(b0, w, forward, c),
{
    if exists|k: nat| skip_ends(b0, w, forward, c, k) {
        let k0 = choose|k: nat| skip_ends(b0, w, forward, c, k);
        lemma_compat_skip_at(b1, b0, w, forward, c, k0);
        let k1 = choose|k: nat| skip_ends(b1, w, forward, c, k);
        lemma_compat_skip_at(b1, b0, w, forward, c, k1);
        crate::edit::commands::words::lemma_skip_unique(b0, w, forward, c, k0, k1);
    } else {
        assert forall|k: nat| !skip_ends(b1, w, forward, c, k) by {
            lemma_compat_skip_at(b1, b0, w, forward, c, k);
        }
        if exists|k: nat| skip_stuck(b0, w, forward, c, k) {
            let k0 = choose|k: nat| skip_stuck(b0, w, forward, c, k);
            lemma_compat_skip_at(b1, b0, w, forward, c, k0);
            let k1 = choose|k: nat| skip_stuck(b1, w, forward, c, k);
            lemma_compat_skip_at(b1, b0, w, forward, c, k1);
            crate::edit::commands::words::lemma_skip_unique(b0, w, forward, c, k0, k1);
        } else {
            assert forall|k: nat| !skip_stuck(b1, w, forward, c, k) by {
                lemma_compat_skip_at(b1, b0, w, forward, c, k);
            }
        }
    }
}

/// How the case of words changes.
pub enum WordCase {
    /// Every letter upper case.
    Upper,
    /// Every letter lower case.
    Lower,
    /// The first letter upper case, the others lower case.
    Capitalize,
}

/// `c` in upper case (ASCII letters only).
pub open spec fn upper_of(c: u8) -> u8 {
    if 97 <= c <= 122 {
        (c - 32) as u8
    } else {
        c
    }
}

/// `c` in lower case (ASCII letters only).
pub open spec fn lower_of(c: u8) -> u8 {
    if 65 <= c <= 90 {
        (c + 32) as u8
    } else {
        c
    }
}

/// Word character number `j` of a word, `c`, with its case changed as `kind` says.
pub open spec fn recased(kind: WordCase, j: nat, c: u8) -> u8 {
    match kind {
        WordCase::Upper => upper_of(c),
        WordCase::Lower => lower_of(c),
        WordCase::Capitalize => if j == 0 {
            upper_of(c)
        } else {
            lower_of(c)
        },
    }
}

/// Word character number `j` of a word, `c`, with its case changed as `kind` says.
fn recase(kind: &WordCase, j: usize, c: u8) -> (r: u8)
    ensures
        r == recased(*kind, j as nat, c),
{
    let up = match kind {
        WordCase::Upper => true,
        WordCase::Lower => false,
        WordCase::Capitalize => j == 0,
    };
    if up {
        if 97 <= c && c <= 122 {
            c - 32
        } else {
            c
        }
    } else {
        if 65 <= c && c <= 90 {
            c + 32
        } else {
            c
        }
    }
}

/// Changing the case of a word character keeps its class.
proof fn lemma_recased_class(kind: WordCase, j: nat, c: u8)
    requires
        word_byte(c),
    ensures
        same_class(recased(kind, j, c), c),
{
}

/// The pass over a word from offset `o` of `t`, its word character number `j` first: each
/// word character (the first of each UTF-8 character) is recased.  The text after, the
/// offset where the pass stops, and whether a byte changed.
pub open spec fn pass(t: Seq<u8>, o: int, j: nat, kind: WordCase) -> (Seq<u8>, int, bool)
    decreases t.len() - o,
{
    if 0 <= o < t.len() && word_byte(t[o]) {
        let t2 = t.update(o, recased(kind, j, t[o]));
        let o2 = next_start(t2, o + 1);
        proof {
            lemma_next_start_bound(t2, o + 1);
        }
        let (t3, o3, ch3) = pass(t2, o2, j + 1, kind);
        (t3, o3, recased(kind, j, t[o]) != t[o] || ch3)
    } else {
        (t, o, false)
    }
}

/// `m` rounds of changing the case of words, from the window `w` of `b0` whose text lines
/// are now `a`: each skips the non-word characters (as in `b0`, whose classes of bytes are
/// those of `a`) and makes a `pass` over the word reached.  The text reached, the window,
/// whether a byte changed, and whether every skip ended well.
pub open spec fn case_rounds(b0: Buffer, a: Seq<Seq<u8>>, w: Window, m: nat, kind: WordCase) -> (Seq<Seq<u8>>, Window, bool, bool)
    decreases m,
{
    if m == 0 {
        (a, w, false, true)
    } else {
        let (w1, ok1, k1) = skip_outcome(b0, w, true, Class::NotWord);
        if !ok1 {
            (a, w1, false, false)
        } else {
            let l = w1.dot_line.0 as int;
            let (t2, o2, ch) = pass(a[l], w1.dot_offset.0 as int, 0, kind);
            let w2 = Window { dot_offset: LineOffset(o2 as usize), ..w1 };
            let (a3, w3, ch3, ok3) = case_rounds(b0, a.update(l, t2), w2, (m - 1) as nat, kind);
            (a3, w3, ch || ch3, ok3)
        }
    }
}

/// What changing the case of `n` words does.  Without a current window (and, when `n` is
/// not zero, without a line under the dot) nothing, and an error.  Else the buffer's text
/// becomes that of `case_rounds` and the dot goes where it ends; when a skip got stuck that
/// is all, with an error; else the buffer is marked changed, and when a byte changed, the
/// change is recorded for undo and the window marked as edited.
pub open spec fn cased_words(e0: &Editor, e1: &Editor, n: usize, kind: WordCase, r: Result<()>) -> bool {
    if !e0.has_cur() || (n > 0 && !dot_line_ok(e0)) {
        r is Err && *e1 == *e0
    } else {
        let b0 = e0.cur_buf();
        let (a, w, ch, ok) = case_rounds(b0, b0.model().arena, e0.cur_win(), n as nat, kind);
        let b1 = e1.cur_buf();
        &&& b1.model() == (TextModel { ids: b0.ids(), arena: a })
        &&& same_meta(b1, b0)
        &&& !ok ==> r is Err && e1.edited_now(e0, w, b1) && b1.flags == b0.flags
        &&& ok ==> {
            &&& r is Ok
            &&& b1.flags == BufferFlags(b0.flags.0 | BufferFlags::changed().0)
            &&& e1.changed_cur(
                e0,
                if ch {
                    Window {
                        flags: WindowFlags(w.flags.0 | WindowFlags::edited().0 | WindowFlags::mode_line().0),
                        ..w
                    }
                } else {
                    w
                },
                b1,
            )
            &&& e1.undo_grown(e0, if ch {
                1
            } else {
                0
            })
        }
    }
}

/// After a change of the current window and its buffer to `w` and `b`, they are current.
proof fn lemma_changed_cur(e0: &Editor, e1: &Editor, w: Window, b: Buffer)
    requires
        e0.wf(),
        e1.wf(),
        e0.has_cur(),
        e1.changed_cur(e0, w, b),
        w.buffer_id == e0.cur_win().buffer_id,
    ensures
        e1.cur() == Some(w),
        e1.has_cur(),
        e1.cur_buf() == b,
{
    let i = e0.windows.cur_index().unwrap();
    e1.windows.lemma_index_of(i);
    assert(e1.windows.seq()[i] == w);
    assert(e1.windows.cur_index() == Some(i));
}

/// Changes of one line in a row are a change of that line.
proof fn lemma_edited_chain(b2: Buffer, b1: Buffer, b0: Buffer, l: usize, t1: Seq<u8>, t2: Seq<u8>)
    requires
        l < b0.lines@.len(),
        b1.edited_from(&b0, l, t1),
        b2.edited_from(&b1, l, t2),
    ensures
        b2.edited_from(&b0, l, t2),
{
    assert forall|i: int| 0 <= i < b2.lines@.len() implies (#[trigger] b2.lines@[i]).next == b0.lines@[i].next
        && b2.lines@[i].prev == b0.lines@[i].prev by {
        assert(b1.lines@[i].next == b0.lines@[i].next);
    }
    assert forall|i: int| 0 <= i < b2.lines@.len() && i != l implies #[trigger] b2.text_of(i as usize)
        == b0.text_of(i as usize) by {
        assert(b1.text_of(i as usize) == b0.text_of(i as usize));
    }
}

/// Links kept in a row are kept.
proof fn lemma_links_chain(b2: Buffer, b1: Buffer, b0: Buffer)
    requires
        b1.same_links(&b0),
        b2.same_links(&b1),
    ensures
        b2.same_links(&b0),
{
    assert forall|i: int| 0 <= i < b2.lines@.len() implies (#[trigger] b2.lines@[i]).next == b0.lines@[i].next
        && b2.lines@[i].prev == b0.lines@[i].prev by {
        assert(b1.lines@[i].next == b0.lines@[i].next);
    }
}

/// Recasing one byte of a word keeps the text compatible.
proof fn lemma_update_compat(tc: Seq<u8>, t0: Seq<u8>, o: int, nb: u8)
    requires
        text_compat(tc, t0),
        0 <= o < tc.len(),
        same_class(nb, tc[o]),
    ensures
        text_compat(tc.update(o, nb), t0),
{
    assert forall|i: int| 0 <= i < t0.len() implies same_class(#[trigger] tc.update(o, nb)[i], t0[i]) by {
        assert(same_class(tc[i], t0[i]));
    }
}

/// Makes a `pass` over the word at the dot, recording in `actions` what it changes; says
/// whether a byte changed.
fn word_pass(editor: &mut Editor, kind: &WordCase, actions: &mut Vec<UndoAction>) -> (ch: bool)
    requires
        old(editor).wf(),
        dot_line_ok(&*old(editor)),
    ensures
        final(editor).wf(),
        ({
            let b = old(editor).cur_buf();
            let w = old(editor).cur_win();
            let l = w.dot_line.0;
            let (t2, o2, ch2) = pass(b.text_of(l), w.dot_offset.0 as int, 0, *kind);
            let w2 = Window { dot_offset: LineOffset(o2 as usize), ..w };
            &&& ch == ch2
            &&& final(editor).changed_cur(&*old(editor), w2, final(editor).cur_buf())
            &&& final(editor).undo_stack@ == old(editor).undo_stack@
            &&& final(editor).cur_buf().edited_from(&b, l, t2)
            &&& text_compat(t2, b.text_of(l))
            &&& dot_line_ok(&*final(editor))
            &&& final(editor).cur_win() == w2
            &&& (final(actions)@.len() > 0) == (old(actions)@.len() > 0 || ch)
        }),
{
    let ghost e0 = *editor;
    let ghost b0 = e0.cur_buf();
    let ghost w0 = e0.cur_win();
    let ghost l = w0.dot_line.0;
    let ghost t0 = b0.text_of(l);
    let ghost res = pass(t0, w0.dot_offset.0 as int, 0, *kind);
    let mut idx: usize = 0;
    let mut ch = false;
    proof {
        Editor::lemma_cur_refl(&e0);
        lemma_window_only_changed(&e0, &e0, w0);
        assert(b0.edited_from(&b0, l, t0));
        assert(text_compat(t0, t0));
    }
    loop
        invariant_except_break
            ({
                let bc = editor.cur_buf();
                let wc = editor.cur_win();
                let tc = bc.text_of(l);
                let r = pass(tc, wc.dot_offset.0 as int, idx as nat, *kind);
                &&& r.0 == res.0
                &&& r.1 == res.1
                &&& res.2 == (ch || r.2)
            }),
        invariant
            editor.wf(),
            e0.wf(),
            e0 == *old(editor),
            b0 == e0.cur_buf(),
            w0 == e0.cur_win(),
            l == w0.dot_line.0,
            t0 == b0.text_of(l),
            res == pass(t0, w0.dot_offset.0 as int, 0, *kind),
            dot_line_ok(&e0),
            dot_line_ok(editor),
            editor.changed_cur(&e0, editor.cur_win(), editor.cur_buf()),
            editor.undo_stack@ == e0.undo_stack@,
            editor.cur_win() == (Window { dot_offset: editor.cur_win().dot_offset, ..w0 }),
            editor.cur_buf().edited_from(&b0, l, editor.cur_buf().text_of(l)),
            editor.cur_buf().wf(),
            text_compat(editor.cur_buf().text_of(l), t0),
            idx <= editor.cur_win().dot_offset.0,
            (actions@.len() > 0) == (old(actions)@.len() > 0 || ch),
        ensures
            ({
                let bc = editor.cur_buf();
                let wc = editor.cur_win();
                &&& bc.text_of(l) == res.0
                &&& wc.dot_offset.0 == res.1
                &&& ch == res.2
            }),
        decreases t0.len() - editor.cur_win().dot_offset.0,
    {
        let ghost e1 = *editor;
        let ghost b1 = e1.cur_buf();
        let ghost w1 = e1.cur_win();
        let ghost tc = b1.text_of(l);
        let ghost o = w1.dot_offset.0 as int;
        proof {
            Editor::lemma_cur_refl(&e1);
        }
        let c = match word_byte_at_dot(editor) {
            Ok(Some(c)) => c,
            _ => {
                proof {
                    assert(!(0 <= o < tc.len() && word_byte(tc[o])));
                }
                break;
            },
        };
        let nb = recase(kind, idx, c);
        proof {
            lemma_recased_class(*kind, idx as nat, c);
            assert(b1.lines@[l as int].text.len() == tc.len());
            lemma_update_compat(tc, t0, o, nb);
        }
        let ghost tn = tc.update(o, nb);
        if nb != c {
            let w = match editor.cur_checked() {
                Ok(w) => w,
                Err(_) => {
                    proof {
                        assert(false);
                    }
                    break;
                },
            };
            actions.push(UndoAction::Delete { line: w.dot_line, offset: w.dot_offset.0, data: vec![c] });
            actions.push(UndoAction::Insert { line: w.dot_line, offset: w.dot_offset.0, data: vec![nb] });
            let _ = put_byte_at_dot(editor, nb);
            ch = true;
            proof {
                let b2 = editor.cur_buf();
                lemma_changed_chain(&e0, &e1, &*editor, w1, b1, w1, b2);
                lemma_edited_chain(b2, b1, b0, l, tc, tn);
                b2.lemma_same_links_wf(&b1);
            }
        } else {
            proof {
                assert(tn =~= tc);
            }
        }
        let ghost e2 = *editor;
        let ghost b2 = e2.cur_buf();
        proof {
            lemma_changed_cur(&e0, &e2, w1, b2);
            lemma_next_start_bound(tn, o + 1);
            assert(b2.text_of(l) == tn);
            assert(b2.lines@[l as int].text.len() == tn.len());
            let w2 = step(b2, w1, true).unwrap();
            assert(char_steps(b2, w2, 0, true) == (w2, true));
        }
        let _ = step_once(editor, true);
        proof {
            let w2 = step(b2, w1, true).unwrap();
            lemma_window_only_changed(&e2, &*editor, w2);
            lemma_changed_chain(&e0, &e2, &*editor, w1, b2, w2, b2);
            Editor::lemma_cur_after(&e2, &*editor, w2);
        }
        idx += 1;
    }
    ch
}

/// Changes the case of `n` words from the dot as `kind` says: see `cased_words`.
pub fn case_words(editor: &mut Editor, n: usize, kind: WordCase) -> (r: Result<()>)
    requires
        old(editor).wf(),
    ensures
        final(editor).wf(),
        cased_words(&*old(editor), &*final(editor), n, kind, r),
{
    let ghost e0 = *editor;
    editor.cur_checked()?;
    if n > 0 {
        if crate::edit::helpers::char_at_dot_is_word_char(editor).is_err() {
            return Err(Error::Abort);
        }
    }
    let ghost b0 = e0.cur_buf();
    let ghost w0 = e0.cur_win();
    let ghost res = case_rounds(b0, b0.model().arena, w0, n as nat, kind);
    let mut actions: Vec<UndoAction> = Vec::new();
    let mut changed = false;
    let mut k = n;
    proof {
        Editor::lemma_cur_refl(&e0);
        lemma_window_only_changed(&e0, &e0, w0);
        lemma_compat_chain(b0, b0, b0);
        assert(b0.same_links(&b0));
    }
    while k > 0
        invariant
            editor.wf(),
            e0.wf(),
            e0 == *old(editor),
            e0.has_cur(),
            b0 == e0.cur_buf(),
            w0 == e0.cur_win(),
            b0.wf(),
            res == case_rounds(b0, b0.model().arena, w0, n as nat, kind),
            k <= n,
            n > 0 ==> dot_line_ok(&e0),
            k > 0 ==> dot_line_ok(editor),
            editor.has_cur(),
            editor.changed_cur(&e0, editor.cur_win(), editor.cur_buf()),
            editor.cur_win().buffer_id == w0.buffer_id,
            editor.undo_stack@ == e0.undo_stack@,
            compat(editor.cur_buf(), b0),
            editor.cur_buf().same_links(&b0),
            ({
                let r = case_rounds(b0, editor.cur_buf().model().arena, editor.cur_win(), k as nat, kind);
                &&& r.0 == res.0
                &&& r.1 == res.1
                &&& r.3 == res.3
                &&& res.2 == (changed || r.2)
            }),
            changed == (actions@.len() > 0),
        decreases k,
    {
        let ghost e1 = *editor;
        let ghost b1 = e1.cur_buf();
        let ghost w1 = e1.cur_win();
        proof {
            lemma_compat_outcome(b1, b0, w1, true, Class::NotWord);
        }
        let ghost (wx, okx, kx) = skip_outcome(b0, w1, true, Class::NotWord);
        let sk = skip_count(editor, true, &Class::NotWord);
        let ghost e2 = *editor;
        proof {
            lemma_window_only_changed(&e1, &e2, wx);
            lemma_changed_chain(&e0, &e1, &e2, w1, b1, wx, b1);
            Editor::lemma_cur_after(&e1, &e2, wx);
        }
        let ok = match sk {
            Ok((_, ok)) => ok,
            Err(_) => false,
        };
        if !ok {
            proof {
                assert(e2.cur_buf() == b1);
                assert(b1.model() == (TextModel { ids: b0.ids(), arena: res.0 }));
            }
            return Err(Error::Abort);
        }
        let ch = word_pass(editor, &kind, &mut actions);
        proof {
            let b3 = editor.cur_buf();
            let l = wx.dot_line.0;
            lemma_changed_chain(&e0, &e2, &*editor, wx, b1, editor.cur_win(), b3);
            lemma_links_chain(b3, b1, b0);
            assert(compat(b3, b1)) by {
                assert forall|x: usize| x < b1.lines@.len() implies text_compat(
                    #[trigger] b3.text_of(x),
                    b1.text_of(x),
                ) by {
                    if x != l {
                        assert(b3.text_of(x) == b1.text_of(x));
                        assert forall|i: int| 0 <= i < b1.text_of(x).len() implies same_class(
                            #[trigger] b3.text_of(x)[i],
                            b1.text_of(x)[i],
                        ) by {}
                    }
                }
            }
            lemma_compat_chain(b3, b1, b0);
            let t2 = pass(b1.text_of(l), wx.dot_offset.0 as int, 0, kind).0;
            assert(b3.model().arena =~= b1.model().arena.update(l as int, t2)) by {
                assert forall|x: int| 0 <= x < b3.lines@.len() implies #[trigger] b3.model().arena[x]
                    == b1.model().arena.update(l as int, t2)[x] by {
                    if x != l {
                        assert(b3.text_of(x as usize) == b1.text_of(x as usize));
                    }
                }
            }
        }
        changed = changed || ch;
        k -= 1;
    }
    proof {
        assert(case_rounds(b0, editor.cur_buf().model().arena, editor.cur_win(), 0, kind).0
            == editor.cur_buf().model().arena);
    }
    let had = actions.len() > 0;
    if had {
        editor.push_undo(actions);
    }
    let ghost ep = *editor;
    proof {
        assert(ep.undo_stack@.take(e0.undo_stack@.len() as int) =~= e0.undo_stack@);
        Editor::lemma_cur_refl(&e0);
    }
    let (w, mut b) = editor.take_cur();
    b.flags = b.flags.union(BufferFlags::changed());
    let mut w1 = w;
    if changed {
        w1.set_flag(WindowFlags::edited());
        w1.set_flag(WindowFlags::mode_line());
    }
    editor.commit(w1, b, Ghost(ep));
    proof {
        lemma_changed_chain(&e0, &ep, &*editor, w, ep.cur_buf(), w1, b);
    }
    Ok(())
}

/// Upper-cases the next `n` words.
pub struct UpperWord;

impl Command for UpperWord {
    fn execute(&self, editor: &mut Editor, f: bool, n: usize) -> (r: Result<()>)
        ensures
            cased_words(&*old(editor), &*final(editor), n, WordCase::Upper, r),
    {
        case_words(editor, n, WordCase::Upper)
    }
}

/// Lower-cases the next `n` words.
pub struct LowerWord;

impl Command for LowerWord {
    fn execute(&self, editor: &mut Editor, f: bool, n: usize) -> (r: Result<()>)
        ensures
            cased_words(&*old(editor), &*final(editor), n, WordCase::Lower, r),
    {
        case_words(editor, n, WordCase::Lower)
    }
}

/// Capitalizes the next `n` words: the first letter upper case, the others lower case.
pub struct CapWord;

impl Command for CapWord {
    fn execute(&self, editor: &mut Editor, f: bool, n: usize) -> (r: Result<()>)
        ensures
            cased_words(&*old(editor), &*final(editor), n, WordCase::Capitalize, r),
    {
        case_words(editor, n, WordCase::Capitalize)
    }
}

} // verus!
