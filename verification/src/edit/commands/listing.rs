use crate::buffer::{Buffer, TextModel};
use crate::edit::commands::fill::fresh_run;
use crate::edit::{Command, Editor};
use crate::line::Line;
use crate::text::{decimal_chars, decimal_string, push_char};
use crate::types::{BufferFlags, BufferId, Error, LineId, LineOffset, Result, WindowFlags};
use crate::window::Window;
use vstd::prelude::*;
use vstd::utf8::encode_utf8;

verus! {

/// `s` right-aligned in `w` columns.
pub open spec fn pad_left(s: Seq<char>, w: nat) -> Seq<char> {
    if s.len() < w {
        Seq::new((w - s.len()) as nat, |i: int| ' ') + s
    } else {
        s
    }
}

/// `s` left-aligned in `w` columns.
pub open spec fn pad_right(s: Seq<char>, w: nat) -> Seq<char> {
    if s.len() < w {
        s + Seq::new((w - s.len()) as nat, |i: int| ' ')
    } else {
        s
    }
}

/// The row of the buffer list for `b`: a `*` when it changed, its number of lines, its
/// name and its file name.
pub open spec fn list_row(b: Buffer) -> Seq<char> {
    seq![' '] + pad_left(
        seq![
            if b.flags.0 & BufferFlags::changed().0 != 0 {
                '*'
            } else {
                ' '
            },
        ],
        2,
    ) + seq![' '] + pad_left(decimal_chars(b.ids().len()), 5) + seq![' ', ' '] + pad_right(b.name@, 14) + seq![' ']
        + b.filename@
}

/// The rows of the visible buffers of `bs`, leaving out buffer `skip`, as bytes.
pub open spec fn list_rows(bs: Seq<Buffer>, skip: int) -> Seq<Seq<u8>>
    decreases bs.len(),
{
    if bs.len() == 0 {
        Seq::empty()
    } else {
        list_rows(bs.drop_last(), skip) + (if bs.len() - 1 != skip && bs.last().flags.0 & BufferFlags::invisible().0
            == 0 {
            seq![encode_utf8(list_row(bs.last()))]
        } else {
            Seq::empty()
        })
    }
}

/// The two heading rows of the buffer list.
pub open spec fn list_heading() -> Seq<Seq<u8>> {
    seq![encode_utf8(" MR Size  Name          File"@), encode_utf8(" -- ----  ----          ----"@)]
}

/// Appends `t` to `s`.
fn push_all(s: &mut String, t: &str)
    ensures
        final(s)@ == old(s)@ + t@,
{
    crate::util::push_str(s, t);
}

/// Appends `n` spaces to `s`.
fn push_spaces(s: &mut String, n: usize)
    ensures
        final(s)@ == old(s)@ + Seq::new(n as nat, |i: int| ' '),
{
    let mut i: usize = 0;
    while i < n
        invariant
            i <= n,
            s@ == old(s)@ + Seq::new(i as nat, |k: int| ' '),
        decreases n - i,
    {
        push_char(s, ' ');
        i += 1;
        assert(s@ =~= old(s)@ + Seq::new(i as nat, |k: int| ' '));
    }
}

/// The row of the buffer list for `b`; see `list_row`.
fn row_of(b: &Buffer) -> (r: Vec<u8>)
    requires
        b.wf(),
    ensures
        r@ == encode_utf8(list_row(*b)),
{
    let mut s = String::new();
    push_char(&mut s, ' ');
    push_char(&mut s, ' ');
    let m = if b.flags.intersects(BufferFlags::changed()) {
        '*'
    } else {
        ' '
    };
    push_char(&mut s, m);
    push_char(&mut s, ' ');
    let size = decimal_string(b.line_count() as u64);
    let sl = size.as_str().unicode_len();
    if sl < 5 {
        push_spaces(&mut s, 5 - sl);
    }
    push_all(&mut s, size.as_str());
    push_char(&mut s, ' ');
    push_char(&mut s, ' ');
    push_all(&mut s, b.name.as_str());
    let nl = b.name.as_str().unicode_len();
    if nl < 14 {
        push_spaces(&mut s, 14 - nl);
    }
    push_char(&mut s, ' ');
    push_all(&mut s, b.filename.as_str());
    proof {
        let mc = if b.flags.0 & BufferFlags::changed().0 != 0 {
            '*'
        } else {
            ' '
        };
        assert(pad_left(seq![mc], 2) =~= seq![' ', mc]);
        assert(s@ =~= list_row(*b));
    }
    vstd::slice::slice_to_vec(s.as_str().as_bytes())
}

/// Lists the buffers in a buffer of their own, `*List*`, and shows it in the current
/// window.
pub struct ListBuffers;

/// `*List*`.
pub open spec fn list_name() -> Seq<char> {
    "*List*"@
}

/// What `ListBuffers` does.  The first buffer called `*List*` (a new one at the end when
/// there is none) is emptied of its lines and file name, made invisible and unchanged, and
/// filled with the heading and a row for each other visible buffer (see `list_row`), in
/// order; the current window then shows it, from its first line, marked for a full
/// redraw.  Without a current window the list is made all the same, and an error given.
/// Where the rows would not fit in the buffer's line store the buffer is left emptied and
/// an error given.
pub open spec fn buffers_listed(e0: &Editor, e1: &Editor, r: Result<()>) -> bool {
    exists|lid: usize| #[trigger] listed_at(e0, e1, r, lid)
}

/// `buffers_listed`, with the list buffer at `lid`.
pub open spec fn listed_at(e0: &Editor, e1: &Editor, r: Result<()>, lid: usize) -> bool {
    let bs0 = e0.buffers.seq();
        {
            let a0 = if lid < bs0.len() {
                bs0[lid as int].model().arena
            } else {
                seq![Seq::<u8>::empty()]
            };
            let old_mode = if lid < bs0.len() {
                bs0[lid as int].mode
            } else {
                crate::types::Mode(0)
            };
            let old_flags: u32 = if lid < bs0.len() {
                bs0[lid as int].flags.0
            } else {
                0
            };
            let rows = list_heading() + list_rows(bs0, lid as int);
            let fits = a0.len() + rows.len() < usize::MAX;
            let lb = e1.buffers.seq()[lid as int];
            &&& lid <= bs0.len()
            &&& lid < bs0.len() ==> bs0[lid as int].name@ == list_name()
            &&& forall|j: int| 0 <= j < lid && j < bs0.len() ==> (#[trigger] bs0[j]).name@ != list_name()
            &&& e1.buffers.seq().len() == (if lid < bs0.len() {
                bs0.len()
            } else {
                bs0.len() + 1
            })
            &&& forall|j: int| 0 <= j < bs0.len() && j != lid ==> #[trigger] e1.buffers.seq()[j] == bs0[j]
            &&& lb.model() == (if fits {
                TextModel { ids: fresh_run(a0.len(), rows.len()), arena: a0 + rows }
            } else {
                TextModel { ids: Seq::empty(), arena: a0 }
            })
            &&& lb.id == BufferId(lid)
            &&& lb.name@ == list_name()
            &&& lb.filename@.len() == 0
            &&& lb.mode == old_mode
            &&& lb.flags.0 == (old_flags | BufferFlags::invisible().0) & !BufferFlags::changed().0
            &&& !fits ==> r is Err && e1.windows == e0.windows
            &&& fits ==> match e0.cur() {
                Some(w) => r is Ok && e1.windows_with_cur(
                    e0,
                    Window {
                        buffer_id: BufferId(lid),
                        dot_line: LineId(a0.len() as usize),
                        dot_offset: LineOffset(0),
                        flags: WindowFlags(w.flags.0 | WindowFlags::hard().0 | WindowFlags::mode_line().0),
                        ..w
                    },
                ),
                None => r is Err && e1.windows == e0.windows,
            }
            &&& *e1 == (Editor { buffers: e1.buffers, windows: e1.windows, ..*e0 })
        }
}

proof fn lemma_list_flags(f: u32)
    ensures
        ((f | 1u32) & !2u32) & 1u32 != 0,
{
    assert(((f | 1u32) & !2u32) & 1u32 != 0) by (bit_vector);
}

/// Empties `b` of its text lines.
fn drop_lines(b: &mut Buffer)
    requires
        old(b).wf(),
    ensures
        final(b).wf(),
        final(b).ids() == Seq::<usize>::empty(),
        final(b).model().arena == old(b).model().arena,
        final(b).id == old(b).id,
        final(b).name@ == old(b).name@,
        final(b).filename@ == old(b).filename@,
        final(b).flags == old(b).flags,
        final(b).mode == old(b).mode,
{
    let ghost a0 = b.model().arena;
    let ghost ids0 = b.ids();
    let mut k: usize = 0;
    while b.line_count() > 0
        invariant
            b.wf(),
            b.model().arena == a0,
            b.ids().len() <= ids0.len(),
            b.id == old(b).id,
            b.name@ == old(b).name@,
            b.filename@ == old(b).filename@,
            b.flags == old(b).flags,
            b.mode == old(b).mode,
        decreases b.ids().len(),
    {
        let first = match b.next_line(LineId(0)) {
            Some(x) => x,
            None => LineId(0),
        };
        let ghost bb = *b;
        proof {
            assert(bb.ids()[0] == first.0);
        }
        b.remove(first);
        proof {
            assert(b.model().arena =~= bb.model().arena) by {
                assert forall|i: int| 0 <= i < b.lines@.len() implies #[trigger] b.model().arena[i]
                    == bb.model().arena[i] by {
                    assert(b.text_of(i as usize) == bb.text_of(i as usize));
                }
            }
        }
    }
    proof {
        assert(b.ids() =~= Seq::<usize>::empty());
    }
}

/// Puts `rows` into `b`, which has no text lines, as its lines.
fn fill_lines(b: &mut Buffer, rows: &Vec<Vec<u8>>)
    requires
        old(b).wf(),
        old(b).ids() == Seq::<usize>::empty(),
        old(b).lines@.len() + rows@.len() < usize::MAX,
    ensures
        final(b).wf(),
        final(b).model() == (TextModel {
            ids: fresh_run(old(b).lines@.len() as nat, rows@.len()),
            arena: old(b).model().arena + rows@.map_values(|v: Vec<u8>| v@),
        }),
        final(b).id == old(b).id,
        final(b).name@ == old(b).name@,
        final(b).filename@ == old(b).filename@,
        final(b).flags == old(b).flags,
        final(b).mode == old(b).mode,
{
    let ghost a0 = b.model().arena;
    let ghost base = b.lines@.len() as nat;
    let ghost rv = rows@.map_values(|v: Vec<u8>| v@);
    let mut after = LineId(0);
    let mut k: usize = 0;
    proof {
        assert(fresh_run(base, 0) =~= Seq::<usize>::empty());
        assert(a0 + rv.take(0) =~= a0);
    }
    while k < rows.len()
        invariant
            b.wf(),
            k <= rows@.len(),
            base == old(b).lines@.len(),
            a0 == old(b).model().arena,
            rv == rows@.map_values(|v: Vec<u8>| v@),
            base + rows@.len() < usize::MAX,
            b.lines@.len() == base + k,
            b.ids() == fresh_run(base, k as nat),
            b.model().arena == a0 + rv.take(k as int),
            k == 0 ==> after.0 == 0,
            k > 0 ==> after.0 == base + k - 1,
            b.id == old(b).id,
            b.name@ == old(b).name@,
            b.filename@ == old(b).filename@,
            b.flags == old(b).flags,
            b.mode == old(b).mode,
        decreases rows@.len() - k,
    {
        let mut line = Line::new();
        line.text = rows[k].clone();
        let ghost bb = *b;
        proof {
            if k > 0 {
                assert(bb.ids()[k - 1] == after.0);
            }
        }
        let id = b.insert_after(after, line);
        proof {
            assert(b.ids() =~= fresh_run(base, (k + 1) as nat));
            assert(b.model().arena =~= a0 + rv.take(k + 1)) by {
                assert forall|i: int| 0 <= i < b.lines@.len() implies #[trigger] b.model().arena[i]
                    == (a0 + rv.take(k + 1))[i] by {
                    if i < bb.lines@.len() {
                        assert(b.text_of(i as usize) == bb.text_of(i as usize));
                        assert(bb.model().arena[i] == (a0 + rv.take(k as int))[i]);
                    } else {
                        assert(i == id.0);
                        assert(rv[k as int] == rows@[k as int]@);
                    }
                }
            }
        }
        after = id;
        k += 1;
    }
    proof {
        assert(rv.take(rows@.len() as int) =~= rv);
    }
}

/// The rows of the buffer list for `bs` (the list buffer being invisible there).
fn rows_of(bs: &[Buffer]) -> (rows: Vec<Vec<u8>>)
    requires
        forall|j: int| 0 <= j < bs@.len() ==> (#[trigger] bs@[j]).wf(),
    ensures
        rows@.map_values(|v: Vec<u8>| v@) == list_heading() + list_rows(bs@, -1),
{
    let mut rows: Vec<Vec<u8>> = Vec::new();
    let h1 = " MR Size  Name          File";
    let h2 = " -- ----  ----          ----";
    rows.push(vstd::slice::slice_to_vec(h1.as_bytes()));
    rows.push(vstd::slice::slice_to_vec(h2.as_bytes()));
    proof {
        assert(rows@.map_values(|v: Vec<u8>| v@) =~= list_heading());
        assert(bs@.take(0) =~= Seq::<Buffer>::empty());
        assert(list_heading() + Seq::<Seq<u8>>::empty() =~= list_heading());
    }
    let mut j: usize = 0;
    while j < bs.len()
        invariant
            j <= bs@.len(),
            forall|q: int| 0 <= q < bs@.len() ==> (#[trigger] bs@[q]).wf(),
            rows@.map_values(|v: Vec<u8>| v@) == list_heading() + list_rows(bs@.take(j as int), -1),
        decreases bs@.len() - j,
    {
        let ghost r0 = rows@.map_values(|v: Vec<u8>| v@);
        assert(bs@.take(j + 1).drop_last() =~= bs@.take(j as int));
        if !bs[j].flags.intersects(BufferFlags::invisible()) {
            let row = row_of(&bs[j]);
            let ghost rw = row@;
            rows.push(row);
            assert(rows@.map_values(|v: Vec<u8>| v@) =~= r0 + seq![rw]);
            assert(list_heading() + list_rows(bs@.take(j + 1), -1) =~= r0 + seq![rw]);
        } else {
            assert(list_heading() + list_rows(bs@.take(j + 1), -1) =~= r0 + Seq::<Seq<u8>>::empty());
        }
        j += 1;
    }
    assert(bs@.take(bs@.len() as int) =~= bs@);
    rows
}

/// The rows over buffers where the list buffer `lid` is invisible are those over the old
/// buffers leaving it out.
proof fn lemma_rows_skip(bs1: Seq<Buffer>, bs0: Seq<Buffer>, lid: int)
    requires
        0 <= lid < bs1.len(),
        bs1[lid].flags.0 & BufferFlags::invisible().0 != 0,
        lid <= bs0.len(),
        lid < bs0.len() ==> bs1.len() == bs0.len(),
        lid == bs0.len() ==> bs1.len() == bs0.len() + 1,
        forall|j: int| 0 <= j < bs0.len() && j != lid ==> #[trigger] bs1[j] == bs0[j],
    ensures
        list_rows(bs1, -1) == list_rows(bs0, lid),
    decreases bs1.len(),
{
    if bs1.len() == bs0.len() + 1 {
        assert(lid == bs0.len());
        lemma_rows_prefix(bs1.drop_last(), bs0, lid);
        assert(bs1.drop_last() =~= bs0) by {
            assert forall|j: int| 0 <= j < bs0.len() implies bs1.drop_last()[j] == bs0[j] by {}
        }
    } else {
        lemma_rows_prefix(bs1, bs0, lid);
    }
}

/// Rows over buffers equal but at `lid`, which is invisible in the first.
proof fn lemma_rows_prefix(bs1: Seq<Buffer>, bs0: Seq<Buffer>, lid: int)
    requires
        bs1.len() == bs0.len(),
        0 <= lid,
        lid < bs1.len() ==> bs1[lid].flags.0 & BufferFlags::invisible().0 != 0,
        forall|j: int| 0 <= j < bs0.len() && j != lid ==> #[trigger] bs1[j] == bs0[j],
    ensures
        list_rows(bs1, -1) == list_rows(bs0, lid),
    decreases bs1.len(),
{
    if bs1.len() > 0 {
        lemma_rows_prefix(bs1.drop_last(), bs0.drop_last(), lid);
    }
}

impl Command for ListBuffers {
    #[verifier::rlimit(60)]
    fn execute(&self, editor: &mut Editor, f: bool, n: usize) -> (r: Result<()>)
        ensures
            buffers_listed(&*old(editor), &*final(editor), r),
    {
        let ghost e0 = *editor;
        let ghost bs0 = e0.buffers.seq();
        let name = "*List*";
        let lid = match editor.buffers.find(name) {
            Some(id) => id,
            None => editor.buffers.create(name),
        };
        let ghost e_c = *editor;
        proof {
            assert(name@ == list_name());
            if lid.0 < bs0.len() {
                assert(e_c.buffers.seq() == bs0);
            } else {
                assert(lid.0 == bs0.len());
                assert forall|j: int| 0 <= j < bs0.len() implies #[trigger] e_c.buffers.seq()[j]
                    == bs0[j] by {
                    assert(e_c.buffers.seq().drop_last()[j] == e_c.buffers.seq()[j]);
                }
            }
        }
        let mut b = editor.buffers.take(lid);
        let ghost a0 = b.model().arena;
        let ghost old_flags = b.flags.0;
        let ghost old_mode = b.mode;
        b.flags = b.flags.union(BufferFlags::invisible()).without(BufferFlags::changed());
        b.filename = String::new();
        drop_lines(&mut b);
        let ghost b_empty = b;
        editor.buffers.put(lid, b);
        proof {
            lemma_list_flags(old_flags);
            assert(editor.buffers.seq() =~= e_c.buffers.seq().update(lid.0 as int, b_empty));
            assert forall|j: int| 0 <= j < bs0.len() && j != lid.0 implies #[trigger] editor.buffers.seq()[j]
                == bs0[j] by {
                assert(e_c.buffers.seq()[j] == bs0[j]);
            }
            lemma_rows_skip(editor.buffers.seq(), bs0, lid.0 as int);
        }
        let rows = rows_of(editor.buffers.as_slice());
        let ghost e_r = *editor;
        let mut b = editor.buffers.take(lid);
        proof {
            assert(b == b_empty);
            assert(a0.len() == b.lines@.len());
        }
        if b.lines.len() >= usize::MAX - rows.len() {
            editor.buffers.put(lid, b);
            proof {
                assert(editor.buffers.seq() =~= e_r.buffers.seq());
                assert(b.model() == (TextModel { ids: Seq::empty(), arena: a0 }));
            }
            assert(listed_at(&e0, &*editor, Err(Error::Abort), lid.0));
            return Err(Error::Abort);
        }
        let first = LineId(b.lines.len());
        fill_lines(&mut b, &rows);
        editor.buffers.put(lid, b);
        let ghost e_f = *editor;
        proof {
            assert(editor.buffers.seq() =~= e_r.buffers.seq().update(lid.0 as int, b));
            assert forall|j: int| 0 <= j < bs0.len() && j != lid.0 implies #[trigger] editor.buffers.seq()[j]
                == bs0[j] by {
                assert(e_r.buffers.seq()[j] == bs0[j]);
            }
            assert(editor.windows == e0.windows);
        }
        let r = match editor.cur_window() {
            Ok(w) => {
                editor.set_cur_window(Window {
                    buffer_id: lid,
                    dot_line: first,
                    dot_offset: LineOffset(0),
                    flags: w.flags.union(WindowFlags::hard()).union(WindowFlags::mode_line()),
                    ..w
                });
                Ok(())
            },
            Err(e) => Err(e),
        };
        assert(editor.buffers == e_f.buffers);
        assert(listed_at(&e0, &*editor, r, lid.0));
        r
    }
}

} // verus!
