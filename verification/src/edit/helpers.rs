use crate::buffer::Buffer;
use crate::edit::Editor;
use crate::types::{Error, LineId, LineOffset, Result};
use crate::window::Window;
use vstd::prelude::*;

verus! {

/// An ASCII letter, or any byte of a non-ASCII character.
pub open spec fn letter(b: u8) -> bool {
    (65 <= b <= 90) || (97 <= b <= 122) || b >= 0x80
}

/// An ASCII digit.
pub open spec fn digit(b: u8) -> bool {
    48 <= b <= 57
}

/// A byte that can be part of a word.
pub open spec fn word_byte(b: u8) -> bool {
    letter(b) || digit(b)
}

/// A space or a tab.
pub open spec fn blank(b: u8) -> bool {
    b == 32 || b == 9
}

pub fn is_letter(b: u8) -> (r: bool)
    ensures
        r == letter(b),
{
    (b >= 65 && b <= 90) || (b >= 97 && b <= 122) || b >= 0x80
}

pub fn is_digit(b: u8) -> (r: bool)
    ensures
        r == digit(b),
{
    b >= 48 && b <= 57
}

pub fn is_word_char(b: u8) -> (r: bool)
    ensures
        r == word_byte(b),
{
    is_letter(b) || is_digit(b)
}

/// The same as `is_word_char`, under the name the tests use.
pub fn is_word_char_for_test(b: u8) -> (r: bool)
    ensures
        r == word_byte(b),
{
    is_word_char(b)
}

/// A line that starts a paragraph boundary: missing, empty, or starting with a non-letter.
pub fn is_para_boundary(buf: &Buffer, line: LineId) -> (r: bool)
    ensures
        r == !(line.0 < buf.lines@.len() && buf.text_of(line.0).len() > 0 && letter(
            buf.text_of(line.0)[0],
        )),
{
    match buf.line(line) {
        Some(l) => {
            if l.text.len() > 0 {
                !is_letter(l.text[0])
            } else {
                true
            }
        },
        None => true,
    }
}

/// Whether the byte at `offset` of `line` is a letter.
pub fn in_word(buf: &Buffer, line: LineId, offset: usize) -> (r: bool)
    ensures
        r == (line.0 < buf.lines@.len() && offset < buf.text_of(line.0).len() && letter(
            buf.text_of(line.0)[offset as int],
        )),
{
    match buf.line(line) {
        Some(l) => offset < l.text.len() && is_letter(l.text[offset]),
        None => false,
    }
}

/// A missing line, or one made only of spaces and tabs.
pub fn is_blank_line(buf: &Buffer, line: LineId) -> (r: bool)
    ensures
        r == (line.0 >= buf.lines@.len() || forall|i: int|
            0 <= i < buf.text_of(line.0).len() ==> blank(#[trigger] buf.text_of(line.0)[i])),
{
    match buf.line(line) {
        Some(l) => {
            let mut i: usize = 0;
            while i < l.text.len()
                invariant
                    i <= l.text@.len(),
                    line.0 < buf.lines@.len(),
                    *l == buf.lines@[line.0 as int],
                    forall|j: int| 0 <= j < i ==> blank(#[trigger] l.text@[j]),
                decreases l.text@.len() - i,
            {
                let b = l.text[i];
                if !(b == 32 || b == 9) {
                    assert(!blank(buf.text_of(line.0)[i as int]));
                    return false;
                }
                i += 1;
            }
            true
        },
        None => true,
    }
}

/// The byte under the dot of the current window, when there is a line and the dot is inside it.
pub open spec fn byte_at_dot(e: &Editor) -> Option<u8> {
    let w = e.cur_win();
    let b = e.cur_buf();
    let t = b.text_of(w.dot_line.0);
    if w.dot_offset.0 < t.len() {
        Some(t[w.dot_offset.0 as int])
    } else {
        None
    }
}

/// There is a current window, its buffer and the line of its dot.
pub open spec fn dot_line_ok(e: &Editor) -> bool {
    e.has_cur() && e.cur_win().dot_line.0 < e.cur_buf().lines@.len()
}

/// Whether the byte under the dot can be part of a word (false at the end of the line).
pub fn char_at_dot_is_word_char(editor: &Editor) -> (r: Result<bool>)
    requires
        editor.wf(),
    ensures
        dot_line_ok(editor) ==> r == Ok::<bool, Error>(
            byte_at_dot(editor) matches Some(b) && word_byte(b),
        ),
        !dot_line_ok(editor) ==> r is Err,
{
    match word_byte_at_dot(editor)? {
        Some(_) => Ok(true),
        None => {
            let w = editor.cur_checked()?;
            let b = match editor.buffers.get(w.buffer_id) {
                Some(b) => b,
                None => return Err(Error::Abort),
            };
            let line = match b.line(w.dot_line) {
                Some(l) => l,
                None => return Err(Error::Abort),
            };
            Ok(w.dot_offset.0 < line.text.len() && is_word_char(line.text[w.dot_offset.0]))
        },
    }
}

/// Whether the dot is at (or past) the end of its line.
pub fn at_eol(editor: &Editor) -> (r: Result<bool>)
    requires
        editor.wf(),
    ensures
        dot_line_ok(editor) ==> r == Ok::<bool, Error>(byte_at_dot(editor) is None),
        !dot_line_ok(editor) ==> r is Err,
{
    let w = editor.cur_checked()?;
    let b = match editor.buffers.get(w.buffer_id) {
        Some(b) => b,
        None => return Err(Error::Abort),
    };
    let len = match b.line_len(w.dot_line) {
        Some(l) => l,
        None => return Err(Error::Abort),
    };
    Ok(w.dot_offset.0 >= len)
}

/// The byte under the dot when it can be part of a word.
pub fn word_byte_at_dot(editor: &Editor) -> (r: Result<Option<u8>>)
    requires
        editor.wf(),
    ensures
        dot_line_ok(editor) ==> r == Ok::<Option<u8>, Error>(
            match byte_at_dot(editor) {
                Some(b) => if word_byte(b) {
                    Some(b)
                } else {
                    None
                },
                None => None,
            },
        ),
        !dot_line_ok(editor) ==> r is Err,
{
    let w = editor.cur_checked()?;
    let b = match editor.buffers.get(w.buffer_id) {
        Some(b) => b,
        None => return Err(Error::Abort),
    };
    let line = match b.line(w.dot_line) {
        Some(l) => l,
        None => return Err(Error::Abort),
    };
    let off = w.dot_offset.0;
    if off >= line.text.len() {
        Ok(None)
    } else {
        let c = line.text[off];
        if is_word_char(c) {
            Ok(Some(c))
        } else {
            Ok(None)
        }
    }
}

/// Overwrites the byte under the dot.
pub fn put_byte_at_dot(editor: &mut Editor, byte: u8) -> (r: Result<()>)
    requires
        old(editor).wf(),
        dot_line_ok(&*old(editor)) ==> byte_at_dot(&*old(editor)) is Some,
    ensures
        final(editor).wf(),
        dot_line_ok(&*old(editor)) ==> r is Ok && final(editor).edited_now(
            &*old(editor),
            old(editor).cur_win(),
            final(editor).cur_buf(),
        ) && final(editor).cur_buf().edited_from(
            &old(editor).cur_buf(),
            old(editor).cur_win().dot_line.0,
            old(editor).cur_buf().text_of(old(editor).cur_win().dot_line.0).update(
                old(editor).cur_win().dot_offset.0 as int,
                byte,
            ),
        ),
        !dot_line_ok(&*old(editor)) ==> r is Err && *final(editor) == *old(editor),
{
    let w0 = editor.cur_checked()?;
    match editor.buffers.get(w0.buffer_id) {
        Some(b) => {
            if w0.dot_line.0 >= b.lines.len() {
                return Err(Error::Abort);
            }
        },
        None => return Err(Error::Abort),
    }
    let ghost before = *editor;
    let (w, mut b) = editor.take_cur();
    b.put_byte_at(w.dot_line, w.dot_offset.0, byte);
    editor.commit(w, b, Ghost(before));
    Ok(())
}

/// The screen column of character `k` of `t`, with tab stops every `tw` columns.
pub open spec fn column_of(t: Seq<u8>, k: int, tw: nat) -> nat
    decreases k,
{
    if k <= 0 {
        0
    } else {
        let c = column_of(t, k - 1, tw);
        if t[k - 1] == 9 {
            c + (tw - c % tw) as nat
        } else {
            c + 1
        }
    }
}

/// Columns never go back.
pub proof fn lemma_column_mono(t: Seq<u8>, j: int, k: int, tw: nat)
    requires
        0 <= j <= k,
        tw > 0,
    ensures
        column_of(t, j, tw) <= column_of(t, k, tw),
    decreases k - j,
{
    if j < k {
        lemma_column_mono(t, j, k - 1, tw);
        let c = column_of(t, k - 1, tw);
        assert(c % tw < tw) by (nonlinear_arith)
            requires
                tw > 0,
        ;
    }
}

/// Where the dot's column is measured up to: the dot offset, or the end of the line when
/// the dot lies past it.
pub open spec fn dot_end(e: &Editor) -> int {
    let t = e.cur_buf().text_of(e.cur_win().dot_line.0);
    let o = e.cur_win().dot_offset.0;
    if o < t.len() {
        o as int
    } else {
        t.len() as int
    }
}

/// The column of the first `end` bytes of `t` can be measured: no tab among them when the
/// tab width is zero, and a column that fits in a `usize` otherwise.
pub open spec fn column_ok(t: Seq<u8>, end: int, tw: nat) -> bool {
    &&& tw > 0 ==> column_of(t, end, tw) <= usize::MAX
    &&& tw == 0 ==> forall|i: int| 0 <= i < end ==> #[trigger] t[i] != 9
}

/// Without tabs, the column is the number of bytes.
proof fn lemma_column_no_tabs(t: Seq<u8>, k: int, tw: nat)
    requires
        0 <= k <= t.len(),
        forall|i: int| 0 <= i < k ==> #[trigger] t[i] != 9,
    ensures
        column_of(t, k, tw) == k,
    decreases k,
{
    if k > 0 {
        lemma_column_no_tabs(t, k - 1, tw);
    }
}

/// The screen column of the first `end` bytes of `t`, or `None` when it cannot be
/// measured (see `column_ok`).
fn measure_column(t: &Vec<u8>, end: usize, tw: usize) -> (r: Option<usize>)
    requires
        end <= t@.len(),
    ensures
        column_ok(t@, end as int, tw as nat) ==> (r matches Some(c) && c == column_of(t@, end as int, tw as nat)),
        !column_ok(t@, end as int, tw as nat) ==> r is None,
{
    let mut col: usize = 0;
    let mut i: usize = 0;
    while i < end
        invariant
            end <= t@.len(),
            i <= end,
            col == column_of(t@, i as int, tw as nat),
            tw == 0 ==> forall|j: int| 0 <= j < i ==> #[trigger] t@[j] != 9,
        decreases end - i,
    {
        if t[i] == 9 {
            if tw == 0 {
                return None;
            }
            let step = tw - col % tw;
            if col > usize::MAX - step {
                proof {
                    lemma_column_mono(t@, i + 1, end as int, tw as nat);
                }
                return None;
            }
            col = col + step;
        } else {
            proof {
                if tw > 0 {
                    lemma_column_mono(t@, i + 1, end as int, tw as nat);
                }
            }
            if col == usize::MAX {
                proof {
                    if tw == 0 {
                        lemma_column_no_tabs(t@, i as int, 0);
                    } else {
                        lemma_column_mono(t@, i + 1, end as int, tw as nat);
                    }
                }
                return None;
            }
            col = col + 1;
        }
        i += 1;
    }
    Some(col)
}

/// The screen column of the dot: tabs advance to the next multiple of the tab width.
pub fn cursor_column(editor: &Editor) -> (r: Option<usize>)
    requires
        editor.wf(),
        dot_line_ok(editor) ==> column_ok(
            editor.cur_buf().text_of(editor.cur_win().dot_line.0),
            dot_end(editor),
            editor.tab_width as nat,
        ),
    ensures
        dot_line_ok(editor) ==> r == Some(
            column_of(
                editor.cur_buf().text_of(editor.cur_win().dot_line.0),
                dot_end(editor),
                editor.tab_width as nat,
            ) as usize,
        ),
        !dot_line_ok(editor) ==> r is None,
{
    let w = match editor.cur_checked() {
        Ok(w) => w,
        Err(_) => return None,
    };
    let b = match editor.buffers.get(w.buffer_id) {
        Some(b) => b,
        None => return None,
    };
    let line = match b.line(w.dot_line) {
        Some(l) => l,
        None => return None,
    };
    let t = &line.text;
    let end = if w.dot_offset.0 < t.len() {
        w.dot_offset.0
    } else {
        t.len()
    };
    measure_column(t, end, editor.tab_width)
}

/// The screen column of the dot: 0 without a line under the dot, `None` when it cannot be
/// measured (see `column_ok`).
pub fn dot_column_checked(editor: &Editor) -> (r: Option<usize>)
    requires
        editor.wf(),
    ensures
        !dot_line_ok(editor) ==> r == Some(0usize),
        dot_line_ok(editor) ==> {
            let t = editor.cur_buf().text_of(editor.cur_win().dot_line.0);
            if column_ok(t, dot_end(editor), editor.tab_width as nat) {
                (r matches Some(c) && c == column_of(t, dot_end(editor), editor.tab_width as nat))
            } else {
                r is None
            }
        },
{
    let w = match editor.cur_checked() {
        Ok(w) => w,
        Err(_) => return Some(0),
    };
    let b = match editor.buffers.get(w.buffer_id) {
        Some(b) => b,
        None => return Some(0),
    };
    let line = match b.line(w.dot_line) {
        Some(l) => l,
        None => return Some(0),
    };
    let t = &line.text;
    let end = if w.dot_offset.0 < t.len() {
        w.dot_offset.0
    } else {
        t.len()
    };
    measure_column(t, end, editor.tab_width)
}

/// Moves the dot of the current window to the start of the next line; false when there is
/// no window, no buffer or no next line (then nothing changes).
pub fn advance_dot_one_line(editor: &mut Editor) -> (r: bool)
    requires
        old(editor).wf(),
    ensures
        final(editor).wf(),
        r == (old(editor).has_cur() && old(editor).cur_buf().next_of(
            old(editor).cur_win().dot_line.0,
        ) is Some),
        r ==> final(editor).only_cur_window_now(
            &*old(editor),
            Window {
                dot_line: LineId(
                    old(editor).cur_buf().next_of(old(editor).cur_win().dot_line.0).unwrap(),
                ),
                dot_offset: LineOffset(0),
                ..old(editor).cur_win()
            },
        ),
        !r ==> *final(editor) == *old(editor),
{
    let w = match editor.cur_checked() {
        Ok(w) => w,
        Err(_) => return false,
    };
    let next = match editor.buffers.get(w.buffer_id) {
        Some(b) => b.next_line(w.dot_line),
        None => return false,
    };
    match next {
        Some(nl) => {
            editor.set_cur_window(Window { dot_line: nl, dot_offset: LineOffset(0), ..w });
            true
        },
        None => false,
    }
}

/// `p` is a prefix of `s`.
pub open spec fn is_prefix(p: Seq<char>, s: Seq<char>) -> bool {
    p.len() <= s.len() && s.take(p.len() as int) == p
}

/// The longest prefix shared by all the strings (empty for no strings).
pub fn find_common_prefix(strings: &[String]) -> (r: String)
    ensures
        strings@.len() == 0 ==> r@ == Seq::<char>::empty(),
        strings@.len() > 0 ==> {
            &&& forall|i: int| 0 <= i < strings@.len() ==> is_prefix(r@, #[trigger] strings@[i]@)
            &&& r@.len() < strings@[0]@.len() ==> exists|i: int|
                0 <= i < strings@.len() && (#[trigger] strings@[i]@.len() == r@.len()
                    || strings@[i]@[r@.len() as int] != strings@[0]@[r@.len() as int])
        },
{
    if strings.len() == 0 {
        return String::new();
    }
    let first = strings[0].as_str();
    let flen = first.unicode_len();
    let mut m: usize = flen;
    let mut witness: Ghost<int> = Ghost(0);
    let mut i: usize = 1;
    while i < strings.len()
        invariant
            1 <= i <= strings@.len(),
            first@ == strings@[0]@,
            flen == first@.len(),
            m <= flen,
            forall|j: int| 0 <= j < i ==> is_prefix(first@.take(m as int), #[trigger] strings@[j]@),
            m < flen ==> 0 <= witness@ < i && (strings@[witness@]@.len() == m
                || strings@[witness@]@[m as int] != first@[m as int]),
        decreases strings@.len() - i,
    {
        let s = strings[i].as_str();
        let slen = s.unicode_len();
        let mut c: usize = 0;
        while c < m && c < slen && first.get_char(c) == s.get_char(c)
            invariant
                c <= m,
                c <= slen,
                m <= flen,
                flen == first@.len(),
                slen == s@.len(),
                forall|q: int| 0 <= q < c ==> #[trigger] first@[q] == s@[q],
            decreases m - c,
        {
            c += 1;
        }
        if c < m {
            proof {
                witness@ = i as int;
            }
        }
        proof {
            assert forall|j: int| 0 <= j <= i implies is_prefix(first@.take(c as int), #[trigger] strings@[j]@) by {
                if j < i {
                    assert(first@.take(c as int) =~= first@.take(m as int).take(c as int));
                    assert(strings@[j]@.take(c as int) =~= strings@[j]@.take(m as int).take(c as int));
                } else {
                    assert(strings@[j]@.take(c as int) =~= first@.take(c as int));
                }
            }
        }
        m = c;
        i += 1;
    }
    let r = first.substring_char(0, m);
    proof {
        assert(strings@[0]@.take(m as int) =~= first@.take(m as int));
    }
    r.to_string()
}

} // verus!
