use crate::buffer::{Buffer, TextModel};
use crate::edit::commands::delete::same_meta;
use crate::edit::commands::undo_records::{actions_view, recorded_with, ActionView};
use crate::edit::helpers::blank;
use crate::edit::{Command, Editor};
use crate::types::{BufferFlags, Error, LineId, LineOffset, Result, UndoAction, WindowFlags};
use crate::window::Window;
use vstd::prelude::*;

verus! {

/// `n` spaces.
pub open spec fn spaces(n: nat) -> Seq<u8> {
    Seq::new(n, |i: int| 32u8)
}

/// `t` from position `i` on with its tabs expanded, `c` being the column at `i` modulo
/// the tab width `tw`.
pub open spec fn detab_from(t: Seq<u8>, i: int, c: nat, tw: nat) -> Seq<u8>
    decreases t.len() - i,
{
    if i >= t.len() || tw == 0 {
        Seq::empty()
    } else if t[i] == 9 {
        spaces((tw - c) as nat) + detab_from(t, i + 1, 0, tw)
    } else {
        seq![t[i]] + detab_from(t, i + 1, (c + 1) % tw, tw)
    }
}

/// `t` with every tab replaced by the spaces up to the next tab stop.
pub open spec fn detabbed(t: Seq<u8>, tw: nat) -> Seq<u8> {
    detab_from(t, 0, 0, tw)
}

/// The end of the run of spaces that starts at `i`.
pub open spec fn run_end(t: Seq<u8>, i: int) -> int
    decreases t.len() - i,
{
    if i >= t.len() || t[i] != 32 {
        i
    } else {
        run_end(t, i + 1)
    }
}

/// A run ends at or after where it starts, and within the text when it starts there.
pub proof fn lemma_run_end(t: Seq<u8>, i: int)
    ensures
        run_end(t, i) >= i,
        i <= t.len() ==> run_end(t, i) <= t.len(),
        forall|k: int| i <= k < run_end(t, i) ==> t[k] == 32,
        run_end(t, i) < t.len() ==> t[run_end(t, i)] != 32,
    decreases t.len() - i,
{
    if i < t.len() && t[i] == 32 {
        lemma_run_end(t, i + 1);
    }
}

/// What stands for a run of `rem` spaces starting at column `c` (modulo `tw`): a tab for
/// each tab stop it reaches when that saves bytes, then the remaining spaces.
pub open spec fn run_fill(c: nat, rem: nat, tw: nat) -> Seq<u8>
    decreases rem,
{
    if rem == 0 || tw == 0 {
        spaces(rem)
    } else if c == 0 {
        if rem >= tw && tw > 1 {
            seq![9u8] + run_fill(0, (rem - tw) as nat, tw)
        } else {
            spaces(rem)
        }
    } else if (tw - c) < rem && (tw - c) > 1 {
        seq![9u8] + run_fill(0, (rem - (tw - c)) as nat, tw)
    } else {
        spaces(rem)
    }
}

/// `t` from position `i` on with runs of spaces turned into tabs, `c` being the column at
/// `i` modulo `tw`.
pub open spec fn entab_from(t: Seq<u8>, i: int, c: nat, tw: nat) -> Seq<u8>
    decreases t.len() - i,
{
    if i >= t.len() || tw == 0 {
        Seq::empty()
    } else if t[i] == 32 {
        let j = run_end(t, i + 1);
        proof {
            lemma_run_end(t, i + 1);
        }
        run_fill(c, (j - i) as nat, tw) + entab_from(t, j, ((c + (j - i) % (tw as int)) % (tw as int)) as nat, tw)
    } else if t[i] == 9 {
        seq![9u8] + entab_from(t, i + 1, 0, tw)
    } else {
        seq![t[i]] + entab_from(t, i + 1, (c + 1) % tw, tw)
    }
}

/// `t` with runs of spaces replaced by tabs where they reach tab stops.
pub open spec fn entabbed(t: Seq<u8>, tw: nat) -> Seq<u8> {
    entab_from(t, 0, 0, tw)
}

/// `t` without its trailing spaces and tabs.
pub open spec fn trimmed(t: Seq<u8>) -> Seq<u8>
    decreases t.len(),
{
    if t.len() == 0 || !blank(t.last()) {
        t
    } else {
        trimmed(t.drop_last())
    }
}

/// The three ways a command can rewrite lines one by one.
#[derive(Clone, Copy, PartialEq, Eq, Structural)]
pub enum Rewrite {
    Detab,
    Entab,
    Trim,
}

/// What rewriting does to the bytes of one line.  With a tab width of zero, detabbing and
/// entabbing leave a line as it is (they are only done on lines where nothing is measured
/// against the tab width; see `divides`).
pub open spec fn rewritten(kind: Rewrite, t: Seq<u8>, tw: nat) -> Seq<u8> {
    match kind {
        Rewrite::Detab => if tw == 0 {
            t
        } else {
            detabbed(t, tw)
        },
        Rewrite::Entab => if tw == 0 {
            t
        } else {
            entabbed(t, tw)
        },
        Rewrite::Trim => trimmed(t),
    }
}

/// Whether rewriting `t` measures columns against the tab width: detabbing a line with a
/// tab, entabbing a line with a tab or a space.
pub open spec fn divides(kind: Rewrite, t: Seq<u8>) -> bool {
    match kind {
        Rewrite::Detab => exists|i: int| 0 <= i < t.len() && #[trigger] t[i] == 9,
        Rewrite::Entab => exists|i: int| 0 <= i < t.len() && (#[trigger] t[i] == 9 || t[i] == 32),
        Rewrite::Trim => false,
    }
}

/// Some line of `lines` is one that `divides`.
pub open spec fn some_divides(arena: Seq<Seq<u8>>, lines: Seq<usize>, kind: Rewrite) -> bool {
    exists|k: int| 0 <= k < lines.len() && #[trigger] divides(kind, arena[lines[k] as int])
}

fn push_spaces(out: &mut Vec<u8>, n: usize)
    ensures
        final(out)@ == old(out)@ + spaces(n as nat),
{
    let mut k: usize = 0;
    while k < n
        invariant
            k <= n,
            out@ == old(out)@ + spaces(k as nat),
        decreases n - k,
    {
        out.push(32);
        k += 1;
        assert(out@ =~= old(out)@ + spaces(k as nat));
    }
}

/// Expands the tabs of `t`.
pub fn detab_text(t: &Vec<u8>, tw: usize) -> (r: Vec<u8>)
    requires
        tw > 0,
    ensures
        r@ == detabbed(t@, tw as nat),
{
    let mut out: Vec<u8> = Vec::new();
    let mut c: usize = 0;
    let mut i: usize = 0;
    while i < t.len()
        invariant
            tw > 0,
            i <= t@.len(),
            c < tw,
            out@ + detab_from(t@, i as int, c as nat, tw as nat) == detabbed(t@, tw as nat),
        decreases t@.len() - i,
    {
        let ghost before = out@;
        let ghost c0 = c;
        let ghost rest0 = detab_from(t@, i as int, c as nat, tw as nat);
        if t[i] == 9 {
            push_spaces(&mut out, tw - c);
            c = 0;
        } else {
            out.push(t[i]);
            c = (c + 1) % tw;
        }
        i += 1;
        proof {
            let piece = out@.subrange(before.len() as int, out@.len() as int);
            assert(out@ =~= before + piece);
            assert(rest0 == piece + detab_from(t@, i as int, c as nat, tw as nat));
            assert(before + rest0 =~= out@ + detab_from(t@, i as int, c as nat, tw as nat));
        }
    }
    assert(out@ + Seq::<u8>::empty() =~= out@);
    out
}

/// Reducing a number below twice the modulus.
pub proof fn lemma_mod_small(x: int, m: int)
    requires
        0 <= x < 2 * m,
        m > 0,
    ensures
        x % m == (if x >= m {
            x - m
        } else {
            x
        }),
{
    if x >= m {
        assert((x - m) % m == x % m) by {
            vstd::arithmetic::div_mod::lemma_mod_sub_multiples_vanish(x, m);
        }
        vstd::arithmetic::div_mod::lemma_small_mod((x - m) as nat, m as nat);
    } else {
        vstd::arithmetic::div_mod::lemma_small_mod(x as nat, m as nat);
    }
}

/// Appends what stands for a run of `rem` spaces from column `c`.
fn fill_run(out: &mut Vec<u8>, c: usize, rem: usize, tw: usize)
    requires
        tw > 0,
        c < tw,
    ensures
        final(out)@ == old(out)@ + run_fill(c as nat, rem as nat, tw as nat),
{
    let mut c = c;
    let mut rem = rem;
    let ghost c0 = c;
    let ghost rem0 = rem;
    loop
        invariant_except_break
            tw > 0,
            c < tw,
            old(out)@ + run_fill(c0 as nat, rem0 as nat, tw as nat) == out@ + run_fill(
                c as nat,
                rem as nat,
                tw as nat,
            ),
        ensures
            out@ == old(out)@ + run_fill(c0 as nat, rem0 as nat, tw as nat),
        decreases rem,
    {
        let ghost before = out@;
        let ghost f0 = run_fill(c as nat, rem as nat, tw as nat);
        if rem == 0 {
            assert(out@ + f0 =~= out@);
            break;
        }
        if c == 0 {
            if rem >= tw && tw > 1 {
                out.push(9);
                rem = rem - tw;
                assert(before + f0 =~= out@ + run_fill(c as nat, rem as nat, tw as nat));
            } else {
                push_spaces(out, rem);
                break;
            }
        } else {
            let ts = tw - c;
            if ts < rem && ts > 1 {
                out.push(9);
                rem = rem - ts;
                c = 0;
                assert(before + f0 =~= out@ + run_fill(c as nat, rem as nat, tw as nat));
            } else {
                push_spaces(out, rem);
                break;
            }
        }
    }
}

/// Turns the runs of spaces of `t` into tabs where they reach tab stops.
pub fn entab_text(t: &Vec<u8>, tw: usize) -> (r: Vec<u8>)
    requires
        tw > 0,
    ensures
        r@ == entabbed(t@, tw as nat),
{
    let mut out: Vec<u8> = Vec::new();
    let mut c: usize = 0;
    let mut i: usize = 0;
    let len = t.len();
    while i < len
        invariant
            tw > 0,
            len == t@.len(),
            i <= len,
            c < tw,
            out@ + entab_from(t@, i as int, c as nat, tw as nat) == entabbed(t@, tw as nat),
        decreases len - i,
    {
        let ghost before = out@;
        let ghost rest0 = entab_from(t@, i as int, c as nat, tw as nat);
        if t[i] == 32 {
            let mut j = i + 1;
            while j < len && t[j] == 32
                invariant
                    i < j <= len,
                    len == t@.len(),
                    run_end(t@, i + 1) == run_end(t@, j as int),
                decreases len - j,
            {
                j += 1;
            }
            proof {
                lemma_run_end(t@, i + 1);
            }
            let run = j - i;
            fill_run(&mut out, c, run, tw);
            let r2 = run % tw;
            proof {
                lemma_mod_small((c + r2) as int, tw as int);
            }
            c = if c >= tw - r2 {
                c - (tw - r2)
            } else {
                c + r2
            };
            i = j;
        } else if t[i] == 9 {
            out.push(9);
            c = 0;
            i += 1;
        } else {
            out.push(t[i]);
            c = (c + 1) % tw;
            i += 1;
        }
        proof {
            let piece = out@.subrange(before.len() as int, out@.len() as int);
            assert(out@ =~= before + piece);
            assert(rest0 == piece + entab_from(t@, i as int, c as nat, tw as nat));
            assert(before + rest0 =~= out@ + entab_from(t@, i as int, c as nat, tw as nat));
        }
    }
    assert(out@ + Seq::<u8>::empty() =~= out@);
    out
}

/// `t` without its trailing spaces and tabs.
pub fn trim_text(t: &Vec<u8>) -> (r: Vec<u8>)
    ensures
        r@ == trimmed(t@),
{
    let mut p = t.len();
    assert(t@.take(t@.len() as int) =~= t@);
    while p > 0 && (t[p - 1] == 32 || t[p - 1] == 9)
        invariant
            p <= t@.len(),
            trimmed(t@) == trimmed(t@.take(p as int)),
        decreases p,
    {
        assert(t@.take(p as int).drop_last() =~= t@.take(p - 1));
        p -= 1;
    }
    assert(t@.take(t@.len() as int) =~= t@);
    let mut out: Vec<u8> = Vec::new();
    let mut k: usize = 0;
    while k < p
        invariant
            k <= p,
            p <= t@.len(),
            out@ == t@.take(k as int),
        decreases p - k,
    {
        out.push(t[k]);
        k += 1;
        assert(out@ =~= t@.take(k as int));
    }
    proof {
        let s = t@.take(p as int);
        if s.len() > 0 {
            assert(s.last() == t@[p - 1]);
        }
    }
    out
}

/// Whether two byte strings are equal.
pub fn bytes_equal(a: &Vec<u8>, b: &Vec<u8>) -> (r: bool)
    ensures
        r == (a@ == b@),
{
    if a.len() != b.len() {
        return false;
    }
    let mut i: usize = 0;
    while i < a.len()
        invariant
            i <= a@.len(),
            a@.len() == b@.len(),
            forall|k: int| 0 <= k < i ==> a@[k] == b@[k],
        decreases a@.len() - i,
    {
        if a[i] != b[i] {
            return false;
        }
        i += 1;
    }
    assert(a@ =~= b@);
    true
}

/// The smaller of two integers.
pub open spec fn min_int(a: int, b: int) -> int {
    if a <= b {
        a
    } else {
        b
    }
}

/// The lines a command with count `count` visits from line `l`: `l` and the lines after
/// it, at most `count` of them.
pub open spec fn span_lines(b: Buffer, l: usize, count: nat) -> Seq<usize> {
    let ids = b.ids();
    if count == 0 {
        Seq::empty()
    } else if l == 0 {
        seq![0usize] + ids.take(min_int(count - 1, ids.len() as int))
    } else if b.has_line(l) {
        ids.subrange(b.pos_of(l), min_int(b.pos_of(l) + count, ids.len() as int))
    } else {
        seq![l]
    }
}

/// The arena with the lines of `lines` rewritten.
pub open spec fn rewrite_arena(arena: Seq<Seq<u8>>, lines: Seq<usize>, kind: Rewrite, tw: nat) -> Seq<Seq<u8>> {
    Seq::new(
        arena.len(),
        |i: int|
            if lines.contains(i as usize) {
                rewritten(kind, arena[i], tw)
            } else {
                arena[i]
            },
    )
}

/// Some line of `lines` changes when rewritten.
pub open spec fn some_changed(arena: Seq<Seq<u8>>, lines: Seq<usize>, kind: Rewrite, tw: nat) -> bool {
    exists|k: int| 0 <= k < lines.len() && #[trigger] rewritten(kind, arena[lines[k] as int], tw) != arena[lines[k] as int]
}

/// The undo records of rewriting `lines` of `arena`: for each line whose bytes change, in
/// turn, its old bytes taken out and its new ones put in.
pub open spec fn rewrite_records(arena: Seq<Seq<u8>>, lines: Seq<usize>, kind: Rewrite, tw: nat) -> Seq<ActionView>
    decreases lines.len(),
{
    if lines.len() == 0 {
        Seq::empty()
    } else {
        let l = lines.last();
        let t = arena[l as int];
        let t2 = rewritten(kind, t, tw);
        rewrite_records(arena, lines.drop_last(), kind, tw) + (if t2 != t {
            seq![ActionView::Delete { line: l, offset: 0, data: t }, ActionView::Insert { line: l, offset: 0, data: t2 }]
        } else {
            Seq::empty()
        })
    }
}

/// A span of `i` lines grows by the line after its last one, or stops for good.
pub proof fn lemma_span_step(b: Buffer, l: usize, i: nat)
    requires
        b.wf(),
        i >= 1,
        l < b.lines@.len(),
        span_lines(b, l, i).len() == i,
    ensures
        span_lines(b, l, i).last() < b.lines@.len(),
        forall|j: int| 0 <= j < i ==> #[trigger] span_lines(b, l, i)[j] < b.lines@.len(),
        span_lines(b, l, i).no_duplicates(),
        match b.next_of(span_lines(b, l, i).last()) {
            Some(x) => span_lines(b, l, i + 1) == span_lines(b, l, i).push(x) && !span_lines(
                b,
                l,
                i,
            ).contains(x),
            None => forall|c: nat| c >= i ==> #[trigger] span_lines(b, l, c) == span_lines(b, l, i),
        },
{
    let ids = b.ids();
    let s = span_lines(b, l, i);
    if l == 0 {
        assert(i - 1 <= ids.len());
        assert forall|j: int| 0 <= j < i implies #[trigger] s[j] < b.lines@.len() by {
            if j > 0 {
                b.lemma_pos_of(j - 1);
            }
        }
        assert forall|j: int, k: int| 0 <= j < k < s.len() implies s[j] != s[k] by {
            b.lemma_pos_of(k - 1);
            if j > 0 {
                b.lemma_pos_of(j - 1);
            }
        }
        if i == 1 {
            if ids.len() > 0 {
                b.lemma_pos_of(0);
                assert(span_lines(b, l, i + 1) =~= s.push(ids[0]));
            } else {
                assert forall|c: nat| c >= i implies #[trigger] span_lines(b, l, c) == s by {
                    assert(span_lines(b, l, c) =~= s);
                }
            }
        } else {
            let last = ids[i - 2];
            b.lemma_pos_of(i - 2);
            assert(s.last() == last);
            if i - 1 < ids.len() {
                b.lemma_pos_of(i - 1);
                assert(span_lines(b, l, i + 1) =~= s.push(ids[i - 1]));
                assert(!s.contains(ids[i - 1])) by {
                    if s.contains(ids[i - 1]) {
                        let j = choose|j: int| 0 <= j < s.len() && s[j] == ids[i - 1];
                        if j > 0 {
                            b.lemma_pos_of(j - 1);
                        }
                    }
                }
            } else {
                assert forall|c: nat| c >= i implies #[trigger] span_lines(b, l, c) == s by {
                    assert(span_lines(b, l, c) =~= s);
                }
            }
        }
    } else if b.has_line(l) {
        let p = b.pos_of(l);
        assert(ids[p] == l);
        assert(p + i <= ids.len());
        assert forall|j: int| 0 <= j < i implies #[trigger] s[j] < b.lines@.len() by {
            b.lemma_pos_of(p + j);
        }
        assert forall|j: int, k: int| 0 <= j < k < s.len() implies s[j] != s[k] by {
            b.lemma_pos_of(p + k);
            b.lemma_pos_of(p + j);
        }
        let last = ids[p + i - 1];
        b.lemma_pos_of(p + i - 1);
        assert(s.last() == last);
        if p + i < ids.len() {
            b.lemma_pos_of(p + i);
            assert(span_lines(b, l, i + 1) =~= s.push(ids[p + i]));
            assert(!s.contains(ids[p + i])) by {
                if s.contains(ids[p + i]) {
                    let j = choose|j: int| 0 <= j < s.len() && s[j] == ids[p + i];
                    b.lemma_pos_of(p + j);
                }
            }
        } else {
            assert forall|c: nat| c >= i implies #[trigger] span_lines(b, l, c) == s by {
                assert(span_lines(b, l, c) =~= s);
            }
        }
    } else {
        assert(s.last() == l);
        assert forall|c: nat| c >= i implies #[trigger] span_lines(b, l, c) == s by {}
    }
}

/// What a line-rewriting command with argument `n` does: the dot line and the lines after
/// it, `n` in all (at least one), are rewritten; the dot ends at the start of the last
/// one when it moved.  When a line changed, the change is recorded for undo with the dot
/// where it ends (see `rewrite_records`).  It fails, changing nothing, with no window,
/// buffer or dot line, or with a tab width of zero when one of the lines would have to be
/// measured against it.
pub open spec fn lines_rewritten(e0: &Editor, e1: &Editor, kind: Rewrite, n: usize, r: Result<()>) -> bool {
    let count: nat = if n == 0 {
        1
    } else {
        n as nat
    };
    let tw = e0.tab_width;
    let w = e0.cur_win();
    let b = e0.cur_buf();
    let l = w.dot_line.0;
    if !e0.has_cur() || l >= b.lines@.len() || (tw == 0 && some_divides(
        b.model().arena,
        span_lines(b, l, count),
        kind,
    )) {
        r is Err && *e1 == *e0
    } else {
        let lines = span_lines(b, l, count);
        let changed = some_changed(b.model().arena, lines, kind, tw as nat);
        let w1 = Window {
            dot_line: if lines.len() > 1 {
                LineId(lines.last())
            } else {
                w.dot_line
            },
            dot_offset: if lines.len() > 1 {
                LineOffset(0)
            } else {
                w.dot_offset
            },
            flags: WindowFlags(w.flags.0 | WindowFlags::edited().0),
            ..w
        };
        &&& r is Ok
        &&& e1.changed_cur(e0, w1, e1.cur_buf())
        &&& e1.cur() == Some(w1)
        &&& e1.cur_buf().model() == (TextModel {
            ids: b.ids(),
            arena: rewrite_arena(b.model().arena, lines, kind, tw as nat),
        })
        &&& same_meta(e1.cur_buf(), b)
        &&& e1.cur_buf().flags == (if changed {
            BufferFlags(b.flags.0 | BufferFlags::changed().0)
        } else {
            b.flags
        })
        &&& e1.undo_grown(e0, if changed {
            1
        } else {
            0
        })
        &&& changed ==> recorded_with(e1, w1, rewrite_records(b.model().arena, lines, kind, tw as nat))
    }
}

/// Rewrites the bytes of one line.
fn rewrite_bytes(kind: Rewrite, t: &Vec<u8>, tw: usize) -> (r: Vec<u8>)
    ensures
        r@ == rewritten(kind, t@, tw as nat),
{
    match kind {
        Rewrite::Detab => if tw == 0 {
            t.clone()
        } else {
            detab_text(t, tw)
        },
        Rewrite::Entab => if tw == 0 {
            t.clone()
        } else {
            entab_text(t, tw)
        },
        Rewrite::Trim => trim_text(t),
    }
}

/// Whether rewriting `t` measures columns against the tab width; see `divides`.
fn divides_text(kind: Rewrite, t: &Vec<u8>) -> (r: bool)
    ensures
        r == divides(kind, t@),
{
    if kind == Rewrite::Trim {
        return false;
    }
    let mut i: usize = 0;
    while i < t.len()
        invariant
            i <= t@.len(),
            kind != Rewrite::Trim,
            forall|j: int| 0 <= j < i ==> !(t@[j] == 9 || (kind == Rewrite::Entab && t@[j] == 32)),
        decreases t@.len() - i,
    {
        if t[i] == 9 || (kind == Rewrite::Entab && t[i] == 32) {
            return true;
        }
        i += 1;
    }
    false
}

/// A shorter span of lines is the start of a longer one.
proof fn lemma_span_prefix(b: Buffer, l: usize, m: nat, n: nat)
    requires
        1 <= m <= n,
    ensures
        span_lines(b, l, m).len() <= span_lines(b, l, n).len(),
        forall|j: int| 0 <= j < span_lines(b, l, m).len() ==> #[trigger] span_lines(b, l, m)[j] == span_lines(b, l, n)[j],
{
}

/// Whether one of the `count` lines from `l` is one that `divides`.
fn span_divides(b: &Buffer, l: LineId, count: usize, kind: Rewrite) -> (r: bool)
    requires
        b.wf(),
        l.0 < b.lines@.len(),
        count >= 1,
    ensures
        r == some_divides(b.model().arena, span_lines(*b, l.0, count as nat), kind),
{
    let ghost l0 = l.0;
    let mut cur = l;
    let mut i: usize = 0;
    loop
        invariant_except_break
            i < count,
            i == 0 ==> cur == l,
            i > 0 ==> span_lines(*b, l0, (i + 1) as nat) == span_lines(*b, l0, i as nat).push(cur.0),
            cur.0 < b.lines@.len(),
        invariant
            b.wf(),
            l0 == l.0,
            l0 < b.lines@.len(),
            i <= count,
            count >= 1,
            span_lines(*b, l0, i as nat).len() == i,
            !some_divides(b.model().arena, span_lines(*b, l0, i as nat), kind),
        ensures
            span_lines(*b, l0, count as nat) == span_lines(*b, l0, i as nat),
        decreases count - i,
    {
        let ghost s = span_lines(*b, l0, i as nat);
        let ghost s2 = span_lines(*b, l0, (i + 1) as nat);
        proof {
            if i == 0 {
                if l0 == 0 {
                    assert(s2 =~= seq![0usize]);
                } else if b.has_line(l0) {
                    let p = b.pos_of(l0);
                    assert(b.ids()[p] == l0);
                    assert(s2 =~= seq![l0]);
                } else {
                    assert(s2 =~= seq![l0]);
                }
            }
            assert(s2 == s.push(cur.0));
        }
        let d = match b.line(cur) {
            Some(line) => divides_text(kind, &line.text),
            None => false,
        };
        proof {
            assert(b.model().arena[cur.0 as int] == b.lines@[cur.0 as int].text@);
        }
        if d {
            proof {
                assert(s2[i as int] == cur.0);
                lemma_span_prefix(*b, l0, (i + 1) as nat, count as nat);
                let sc = span_lines(*b, l0, count as nat);
                assert(sc[i as int] == cur.0);
                assert(divides(kind, b.model().arena[sc[i as int] as int]));
            }
            return true;
        }
        proof {
            assert(!some_divides(b.model().arena, s2, kind)) by {
                if some_divides(b.model().arena, s2, kind) {
                    let k = choose|k: int| 0 <= k < s2.len() && #[trigger] divides(kind, b.model().arena[s2[k] as int]);
                    if k < i {
                        assert(s2[k] == s[k]);
                    }
                }
            }
        }
        i += 1;
        if i < count {
            proof {
                lemma_span_step(*b, l0, i as nat);
            }
            match b.next_line(cur) {
                Some(x) => {
                    proof {
                        lemma_span_step(*b, l0, (i + 1) as nat);
                        assert(span_lines(*b, l0, (i + 1) as nat)[i as int] == x.0);
                    }
                    cur = x;
                },
                None => {
                    proof {
                        assert(span_lines(*b, l0, count as nat) == span_lines(*b, l0, i as nat));
                    }
                    break;
                },
            }
        } else {
            break;
        }
    }
    false
}

/// The shared body of the line-rewriting commands.
#[verifier::rlimit(60)]
fn rewrite_lines(editor: &mut Editor, n: usize, kind: Rewrite) -> (r: Result<()>)
    requires
        old(editor).wf(),
    ensures
        final(editor).wf(),
        lines_rewritten(&*old(editor), &*final(editor), kind, n, r),
{
    let count: usize = if n == 0 {
        1
    } else {
        n
    };
    let tw = editor.tab_width;
    let w0 = editor.cur_checked()?;
    match editor.buffers.get(w0.buffer_id) {
        Some(b) => {
            if w0.dot_line.0 >= b.lines.len() {
                return Err(Error::Abort);
            }
            if tw == 0 && span_divides(b, w0.dot_line, count, kind) {
                return Err(Error::Abort);
            }
        },
        None => return Err(Error::Abort),
    }
    let ghost e0 = *editor;
    let (w, mut b) = editor.take_cur();
    let ghost b0 = b;
    let ghost l0 = w.dot_line.0;
    let mut actions: Vec<UndoAction> = Vec::new();
    let mut changed = false;
    let mut l = w.dot_line;
    let mut i: usize = 0;
    loop
        invariant_except_break
            i < count,
            i == 0 ==> l == w.dot_line,
            i > 0 ==> span_lines(b0, l0, (i + 1) as nat) == span_lines(b0, l0, i as nat).push(l.0)
                && !span_lines(b0, l0, i as nat).contains(l.0),
            l.0 < b0.lines@.len(),
        invariant
            b0.wf(),
            b.wf(),
            l0 == w.dot_line.0,
            l0 < b0.lines@.len(),
            i <= count,
            count == (if n == 0 {
                1
            } else {
                n
            }),
            tw == e0.tab_width,
            span_lines(b0, l0, i as nat).len() == i,
            b.ids() == b0.ids(),
            b.lines@.len() == b0.lines@.len(),
            b.model().arena == rewrite_arena(b0.model().arena, span_lines(b0, l0, i as nat), kind, tw as nat),
            changed == some_changed(b0.model().arena, span_lines(b0, l0, i as nat), kind, tw as nat),
            actions_view(actions@) == rewrite_records(b0.model().arena, span_lines(b0, l0, i as nat), kind, tw as nat),
            same_meta(b, b0),
            b.flags == b0.flags,
        ensures
            i >= 1,
            span_lines(b0, l0, count as nat) == span_lines(b0, l0, i as nat),
            l.0 == span_lines(b0, l0, i as nat).last(),
        decreases count - i,
    {
        let old_text = match b.line(l) {
            Some(line) => line.text.clone(),
            None => Vec::new(),
        };
        let new_text = rewrite_bytes(kind, &old_text, tw);
        let ghost s = span_lines(b0, l0, i as nat);
        proof {
            assert(!s.contains(l.0));
            assert(b.model().arena[l.0 as int] == b0.model().arena[l.0 as int]);
            assert(old_text@ == b.lines@[l.0 as int].text@);
            assert(old_text@ == b0.model().arena[l.0 as int]);
        }
        let ghost pre = b.model().arena;
        let ghost nt = new_text@;
        let ghost a0 = actions_view(actions@);
        let ghost ot = old_text@;
        if !bytes_equal(&new_text, &old_text) {
            let kept = new_text.clone();
            let ghost bb = b;
            b.set_line_text(l, new_text);
            proof {
                assert(b.model().arena =~= pre.update(l.0 as int, nt)) by {
                    assert forall|k: int| 0 <= k < b.lines@.len() implies #[trigger] b.model().arena[k]
                        == pre.update(l.0 as int, nt)[k] by {
                        if k != l.0 {
                            assert(b.text_of(k as usize) == bb.text_of(k as usize));
                        }
                    }
                }
            }
            actions.push(UndoAction::Delete { line: l, offset: 0, data: old_text });
            actions.push(UndoAction::Insert { line: l, offset: 0, data: kept });
            proof {
                assert(actions_view(actions@) =~= a0 + seq![
                    ActionView::Delete { line: l.0, offset: 0, data: ot },
                    ActionView::Insert { line: l.0, offset: 0, data: nt },
                ]);
            }
            changed = true;
        } else {
            assert(pre.update(l.0 as int, nt) =~= pre);
            assert(actions_view(actions@) =~= a0 + Seq::<ActionView>::empty());
        }
        i += 1;
        proof {
            assert(span_lines(b0, l0, i as nat) == s.push(l.0)) by {
                if i - 1 > 0 {
                } else {
                    if l0 == 0 {
                        assert(span_lines(b0, l0, 1) =~= seq![0usize]);
                    } else if b0.has_line(l0) {
                        let p = b0.pos_of(l0);
                        assert(b0.ids()[p] == l0);
                        assert(span_lines(b0, l0, 1) =~= seq![l0]);
                    }
                }
            }
            let s2 = s.push(l.0);
            assert(s2.drop_last() =~= s);
            assert(s2.last() == l.0);
            assert(b.model().arena =~= rewrite_arena(b0.model().arena, s2, kind, tw as nat)) by {
                assert forall|k: int| 0 <= k < b.lines@.len() implies #[trigger] b.model().arena[k]
                    == rewrite_arena(b0.model().arena, s2, kind, tw as nat)[k] by {
                    if k == l.0 {
                        assert(s2[s.len() as int] == l.0);
                        assert(s2.contains(l.0));
                    } else {
                        assert(s2.contains(k as usize) == s.contains(k as usize)) by {
                            if s.contains(k as usize) {
                                let j = choose|j: int| 0 <= j < s.len() && s[j] == k as usize;
                                assert(s2[j] == k as usize);
                            }
                            if s2.contains(k as usize) {
                                let j = choose|j: int| 0 <= j < s2.len() && s2[j] == k as usize;
                                assert(j < s.len());
                            }
                        }
                    }
                }
            }
            assert(changed == some_changed(b0.model().arena, s2, kind, tw as nat)) by {
                if some_changed(b0.model().arena, s2, kind, tw as nat) {
                    let k = choose|k: int| 0 <= k < s2.len() && #[trigger] rewritten(kind, b0.model().arena[s2[k] as int], tw as nat) != b0.model().arena[s2[k] as int];
                    if k < s.len() {
                        assert(s[k] == s2[k]);
                    }
                }
                if some_changed(b0.model().arena, s, kind, tw as nat) {
                    let k = choose|k: int| 0 <= k < s.len() && #[trigger] rewritten(kind, b0.model().arena[s[k] as int], tw as nat) != b0.model().arena[s[k] as int];
                    assert(s2[k] == s[k]);
                }
                if new_text@ != old_text@ {
                    assert(s2[s.len() as int] == l.0);
                }
            }
        }
        if i < count {
            proof {
                lemma_span_step(b0, l0, i as nat);
            }
            match b.next_line(l) {
                Some(x) => {
                    proof {
                        assert(b0.next_of(l.0) == b.next_of(l.0));
                        lemma_span_step(b0, l0, (i + 1) as nat);
                        assert(span_lines(b0, l0, (i + 1) as nat)[i as int] == x.0);
                    }
                    l = x;
                },
                None => {
                    proof {
                        assert(span_lines(b0, l0, count as nat) == span_lines(b0, l0, i as nat));
                    }
                    break;
                },
            }
        } else {
            break;
        }
    }
    proof {
        lemma_span_step(b0, l0, i as nat);
    }
    if changed {
        b.flags = b.flags.union(BufferFlags::changed());
    }
    let mut w1 = w;
    if i > 1 {
        w1.dot_line = l;
        w1.dot_offset = LineOffset(0);
    }
    w1.set_flag(WindowFlags::edited());
    editor.commit(w1, b, Ghost(e0));
    if changed {
        let ghost before_push = *editor;
        proof {
            assert(e0.cur_win() == w);
        }
        editor.push_undo(actions);
        proof {
            assert(editor.undo_stack@.take(e0.undo_stack@.len() as int) =~= e0.undo_stack@);
        }
    } else {
        assert(editor.undo_stack@.take(e0.undo_stack@.len() as int) =~= e0.undo_stack@);
    }
    Ok(())
}

/// Expands the tabs of `n` lines from the dot line.
pub struct DetabLine;

impl Command for DetabLine {
    fn execute(&self, editor: &mut Editor, f: bool, n: usize) -> (r: Result<()>)
        ensures
            lines_rewritten(&*old(editor), &*final(editor), Rewrite::Detab, n, r),
    {
        rewrite_lines(editor, n, Rewrite::Detab)
    }
}

/// Turns runs of spaces into tabs on `n` lines from the dot line.
pub struct EntabLine;

impl Command for EntabLine {
    fn execute(&self, editor: &mut Editor, f: bool, n: usize) -> (r: Result<()>)
        ensures
            lines_rewritten(&*old(editor), &*final(editor), Rewrite::Entab, n, r),
    {
        rewrite_lines(editor, n, Rewrite::Entab)
    }
}

/// Removes the trailing blanks of `n` lines from the dot line.
pub struct TrimLine;

impl Command for TrimLine {
    fn execute(&self, editor: &mut Editor, f: bool, n: usize) -> (r: Result<()>)
        ensures
            lines_rewritten(&*old(editor), &*final(editor), Rewrite::Trim, n, r),
    {
        rewrite_lines(editor, n, Rewrite::Trim)
    }
}

} // verus!

verus! {

/// Trimming the end of a line twice trims no more than once: a trimmed line ends in no
/// blank.
pub proof fn lemma_trim_idempotent(t: Seq<u8>)
    ensures
        trimmed(trimmed(t)) == trimmed(t),
        trimmed(t).len() == 0 || !blank(trimmed(t).last()),
    decreases t.len(),
{
    if t.len() > 0 && blank(t.last()) {
        lemma_trim_idempotent(t.drop_last());
    }
}

} // verus!

verus! {

/// The column (modulo `tw`) reached by expanding `p` from position `i` at column `c`.
pub open spec fn col_after(p: Seq<u8>, i: int, c: nat, tw: nat) -> nat
    decreases p.len() - i,
{
    if i >= p.len() || tw == 0 {
        c
    } else if p[i] == 9 {
        col_after(p, i + 1, 0, tw)
    } else {
        col_after(p, i + 1, (c + 1) % tw, tw)
    }
}

/// Adding a number to a remainder, then reducing, is adding and reducing.
proof fn lemma_mod_shift(a: int, b: int, m: int)
    requires
        a >= 0,
        b >= 0,
        m > 0,
    ensures
        ((a % m) + b) % m == (a + b) % m,
        (a + (b % m)) % m == (a + b) % m,
{
    vstd::arithmetic::div_mod::lemma_add_mod_noop(a, b, m);
    vstd::arithmetic::div_mod::lemma_add_mod_noop(a % m, b, m);
    vstd::arithmetic::div_mod::lemma_add_mod_noop(a, b % m, m);
    vstd::arithmetic::div_mod::lemma_mod_twice(a, m);
    vstd::arithmetic::div_mod::lemma_mod_twice(b, m);
}

/// Expanding from past the end of `p` in `p + q` is expanding `q`.
proof fn lemma_detab_shift(p: Seq<u8>, q: Seq<u8>, k: int, c: nat, tw: nat)
    requires
        0 <= k <= q.len(),
    ensures
        detab_from(p + q, p.len() + k, c, tw) == detab_from(q, k, c, tw),
    decreases q.len() - k,
{
    if k < q.len() && tw != 0 {
        assert((p + q)[p.len() + k] == q[k]);
        if q[k] == 9 {
            lemma_detab_shift(p, q, k + 1, 0, tw);
        } else {
            lemma_detab_shift(p, q, k + 1, (c + 1) % tw, tw);
        }
    }
}

/// Expanding `p + q` is expanding `p`, then `q` from the column reached.
proof fn lemma_detab_concat(p: Seq<u8>, q: Seq<u8>, i: int, c: nat, tw: nat)
    requires
        0 <= i <= p.len(),
        tw > 0,
    ensures
        detab_from(p + q, i, c, tw) == detab_from(p, i, c, tw) + detab_from(q, 0, col_after(p, i, c, tw), tw),
    decreases p.len() - i,
{
    if i < p.len() {
        assert((p + q)[i] == p[i]);
        if p[i] == 9 {
            lemma_detab_concat(p, q, i + 1, 0, tw);
            assert(spaces((tw - c) as nat) + (detab_from(p, i + 1, 0, tw) + detab_from(q, 0, col_after(p, i + 1, 0, tw), tw))
                =~= (spaces((tw - c) as nat) + detab_from(p, i + 1, 0, tw)) + detab_from(q, 0, col_after(p, i + 1, 0, tw), tw));
        } else {
            lemma_detab_concat(p, q, i + 1, (c + 1) % tw, tw);
            let c1 = (c + 1) % tw;
            assert(seq![p[i]] + (detab_from(p, i + 1, c1, tw) + detab_from(q, 0, col_after(p, i + 1, c1, tw), tw))
                =~= (seq![p[i]] + detab_from(p, i + 1, c1, tw)) + detab_from(q, 0, col_after(p, i + 1, c1, tw), tw));
        }
    } else {
        lemma_detab_shift(p, q, 0, c, tw);
        assert(detab_from(p, i, c, tw) + detab_from(q, 0, c, tw) =~= detab_from(q, 0, c, tw));
    }
}

/// The column after `p + q` is that after `q` from the column after `p`.
proof fn lemma_col_concat(p: Seq<u8>, q: Seq<u8>, i: int, c: nat, tw: nat)
    requires
        0 <= i <= p.len(),
        tw > 0,
    ensures
        col_after(p + q, i, c, tw) == col_after(q, 0, col_after(p, i, c, tw), tw),
    decreases p.len() + q.len() - i,
{
    if i < p.len() {
        assert((p + q)[i] == p[i]);
        if p[i] == 9 {
            lemma_col_concat(p, q, i + 1, 0, tw);
        } else {
            lemma_col_concat(p, q, i + 1, (c + 1) % tw, tw);
        }
    } else {
        lemma_col_shift(p, q, 0, c, tw);
    }
}

/// The column after `p + q` from past the end of `p` is the column after `q`.
proof fn lemma_col_shift(p: Seq<u8>, q: Seq<u8>, k: int, c: nat, tw: nat)
    requires
        0 <= k <= q.len(),
    ensures
        col_after(p + q, p.len() + k, c, tw) == col_after(q, k, c, tw),
    decreases q.len() - k,
{
    if k < q.len() && tw != 0 {
        assert((p + q)[p.len() + k] == q[k]);
        if q[k] == 9 {
            lemma_col_shift(p, q, k + 1, 0, tw);
        } else {
            lemma_col_shift(p, q, k + 1, (c + 1) % tw, tw);
        }
    }
}

/// Spaces expand to themselves, moving the column on by their number.
proof fn lemma_detab_spaces(n: nat, i: int, c: nat, tw: nat)
    requires
        0 <= i <= n,
        tw > 0,
        c < tw,
    ensures
        detab_from(spaces(n), i, c, tw) == spaces((n - i) as nat),
        col_after(spaces(n), i, c, tw) == (c + n - i) % (tw as int),
    decreases n - i,
{
    if i < n {
        let c1 = (c + 1) % tw;
        lemma_detab_spaces(n, i + 1, c1, tw);
        lemma_mod_shift((c + 1) as int, n - i - 1, tw as int);
        assert(seq![32u8] + spaces((n - i - 1) as nat) =~= spaces((n - i) as nat));
    } else {
        vstd::arithmetic::div_mod::lemma_small_mod(c, tw);
        assert(spaces(0) =~= Seq::<u8>::empty());
    }
}

/// A run of spaces from `i` to `j` expands to as many spaces.
proof fn lemma_detab_run(t: Seq<u8>, i: int, j: int, c: nat, tw: nat)
    requires
        0 <= i <= j <= t.len(),
        forall|k: int| i <= k < j ==> t[k] == 32,
        tw > 0,
        c < tw,
    ensures
        detab_from(t, i, c, tw) == spaces((j - i) as nat) + detab_from(t, j, ((c + (j - i)) % (tw as int)) as nat, tw),
    decreases j - i,
{
    if i < j {
        let c1 = (c + 1) % tw;
        lemma_detab_run(t, i + 1, j, c1, tw);
        lemma_mod_shift((c + 1) as int, j - i - 1, tw as int);
        assert(seq![32u8] + (spaces((j - i - 1) as nat) + detab_from(t, j, ((c1 + (j - i - 1)) % (tw as int)) as nat, tw))
            =~= spaces((j - i) as nat) + detab_from(t, j, ((c + (j - i)) % (tw as int)) as nat, tw));
    } else {
        vstd::arithmetic::div_mod::lemma_small_mod(c, tw);
        assert(spaces(0) + detab_from(t, j, c, tw) =~= detab_from(t, j, c, tw));
    }
}

/// What stands for a run of spaces expands back to the run, and is no longer.
proof fn lemma_run_fill(c: nat, rem: nat, tw: nat)
    requires
        tw > 0,
        c < tw,
    ensures
        detab_from(run_fill(c, rem, tw), 0, c, tw) == spaces(rem),
        col_after(run_fill(c, rem, tw), 0, c, tw) == ((c + rem) as int) % (tw as int),
        run_fill(c, rem, tw).len() <= rem,
    decreases rem,
{
    let f = run_fill(c, rem, tw);
    let tab = seq![9u8];
    if rem == 0 || !((c == 0 && rem >= tw && tw > 1) || (c != 0 && (tw - c) < rem && (tw - c) > 1)) {
        lemma_detab_spaces(rem, 0, c, tw);
    } else {
        let step: nat = if c == 0 {
            tw
        } else {
            (tw - c) as nat
        };
        let rest = run_fill(0, (rem - step) as nat, tw);
        assert(f == tab + rest);
        lemma_run_fill(0, (rem - step) as nat, tw);
        lemma_detab_concat(tab, rest, 0, c, tw);
        lemma_col_concat(tab, rest, 0, c, tw);
        assert(detab_from(tab, 1, 0, tw) =~= Seq::<u8>::empty());
        assert(detab_from(tab, 0, c, tw) == spaces(step) + detab_from(tab, 1, 0, tw));
        assert(col_after(tab, 1, 0, tw) == 0);
        assert(col_after(tab, 0, c, tw) == 0);
        assert(spaces(step) + Seq::<u8>::empty() + spaces((rem - step) as nat) =~= spaces(rem));
        vstd::arithmetic::div_mod::lemma_small_mod(c, tw);
        if c == 0 {
            vstd::arithmetic::div_mod::lemma_mod_sub_multiples_vanish(rem as int, tw as int);
        } else {
            assert(0 + (rem - step) == (c + rem) - tw);
            vstd::arithmetic::div_mod::lemma_mod_sub_multiples_vanish((c + rem) as int, tw as int);
        }
    }
}

/// Entabbing from position `i` at column `c` keeps the expansion of the text and makes it
/// no longer.
proof fn lemma_entab_from(t: Seq<u8>, i: int, c: nat, tw: nat)
    requires
        0 <= i <= t.len(),
        tw > 0,
        c < tw,
    ensures
        detab_from(entab_from(t, i, c, tw), 0, c, tw) == detab_from(t, i, c, tw),
        entab_from(t, i, c, tw).len() <= t.len() - i,
    decreases t.len() - i,
{
    if i < t.len() {
        if t[i] == 32 {
            let j = run_end(t, i + 1);
            lemma_run_end(t, i + 1);
            let c2 = ((c + (j - i) % (tw as int)) % (tw as int)) as nat;
            lemma_mod_shift(c as int, j - i, tw as int);
            lemma_entab_from(t, j, c2, tw);
            let fill = run_fill(c, (j - i) as nat, tw);
            lemma_run_fill(c, (j - i) as nat, tw);
            lemma_detab_concat(fill, entab_from(t, j, c2, tw), 0, c, tw);
            lemma_detab_run(t, i, j, c, tw);
            assert(c2 == ((c + (j - i)) % (tw as int)) as nat);
            assert(entab_from(t, i, c, tw) == fill + entab_from(t, j, c2, tw));
        } else if t[i] == 9 {
            lemma_entab_from(t, i + 1, 0, tw);
            let tab = seq![9u8];
            lemma_detab_concat(tab, entab_from(t, i + 1, 0, tw), 0, c, tw);
            assert(detab_from(tab, 1, 0, tw) =~= Seq::<u8>::empty());
            assert(col_after(tab, 1, 0, tw) == 0);
            assert(col_after(tab, 0, c, tw) == 0);
            assert(spaces((tw - c) as nat) + Seq::<u8>::empty() =~= spaces((tw - c) as nat));
        } else {
            let c1 = (c + 1) % tw;
            lemma_entab_from(t, i + 1, c1, tw);
            let one = seq![t[i]];
            lemma_detab_concat(one, entab_from(t, i + 1, c1, tw), 0, c, tw);
            assert(detab_from(one, 1, c1, tw) =~= Seq::<u8>::empty());
            assert(col_after(one, 1, c1, tw) == c1);
            assert(col_after(one, 0, c, tw) == c1);
            assert(one + Seq::<u8>::empty() =~= one);
        }
    }
}

/// Entabbing a line keeps its tab expansion (what detabbing gives) and never makes it longer.
pub proof fn lemma_entab_keeps_expansion(t: Seq<u8>, tw: nat)
    requires
        tw > 0,
    ensures
        detabbed(entabbed(t, tw), tw) == detabbed(t, tw),
        entabbed(t, tw).len() <= t.len(),
{
    lemma_entab_from(t, 0, 0, tw);
}

} // verus!
