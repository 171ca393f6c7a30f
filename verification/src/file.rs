use crate::buffer::Buffer;
use crate::line::Line;
use crate::types::{BufferFlags, LineId};
use vstd::prelude::*;

verus! {

/// `content` cut at every newline byte: the pieces between newlines, the last piece
/// being what follows the last newline (empty when `content` ends with one).
pub open spec fn split_newlines(content: Seq<u8>) -> Seq<Seq<u8>>
    decreases content.len(),
{
    if content.len() == 0 {
        seq![Seq::<u8>::empty()]
    } else {
        let s = split_newlines(content.drop_last());
        if content.last() == 10u8 {
            s.push(Seq::<u8>::empty())
        } else {
            s.drop_last().push(s.last().push(content.last()))
        }
    }
}

/// The lines of a file's content: the newline-separated pieces, without the empty piece
/// that follows a final newline.
pub open spec fn file_lines(content: Seq<u8>) -> Seq<Seq<u8>> {
    let s = split_newlines(content);
    if content.len() > 0 && content.last() == 10u8 {
        s.drop_last()
    } else {
        s
    }
}

proof fn lemma_split_newlines_nonempty(content: Seq<u8>)
    ensures
        split_newlines(content).len() >= 1,
        split_newlines(content).len() <= content.len() + 1,
    decreases content.len(),
{
    if content.len() > 0 {
        lemma_split_newlines_nonempty(content.drop_last());
    }
}

/// Cutting `c` followed by bytes without a newline adds those bytes to the last piece.
proof fn lemma_split_append(c: Seq<u8>, t: Seq<u8>)
    requires
        forall|i: int| 0 <= i < t.len() ==> t[i] != 10u8,
    ensures
        split_newlines(c + t) == split_newlines(c).drop_last().push(split_newlines(c).last() + t),
    decreases t.len(),
{
    lemma_split_newlines_nonempty(c);
    let s = split_newlines(c);
    if t.len() == 0 {
        assert(c + t =~= c);
        assert(s.last() + t =~= s.last());
        assert(s.drop_last().push(s.last()) =~= s);
    } else {
        let t1 = t.drop_last();
        lemma_split_append(c, t1);
        assert((c + t).drop_last() =~= c + t1);
        assert((c + t).last() == t.last());
        let s1 = split_newlines(c + t1);
        assert(s1.drop_last() =~= s.drop_last());
        assert(s1.last() == s.last() + t1);
        assert(s1.last().push(t.last()) =~= s.last() + t);
        assert(s1.drop_last().push(s1.last().push(t.last())) =~= s.drop_last().push(s.last() + t));
    }
}

/// Cutting lines joined with a newline after each gives them back, then an empty piece.
proof fn lemma_split_joined(ls: Seq<Seq<u8>>)
    requires
        forall|k: int, i: int| 0 <= k < ls.len() && 0 <= i < ls[k].len() ==> #[trigger] ls[k][i] != 10u8,
    ensures
        split_newlines(crate::flat::nl_joined(ls)) == ls.push(Seq::<u8>::empty()),
    decreases ls.len(),
{
    if ls.len() == 0 {
        assert(crate::flat::nl_joined(ls) =~= Seq::<u8>::empty());
        assert(ls.push(Seq::<u8>::empty()) =~= seq![Seq::<u8>::empty()]);
    } else {
        let init = ls.drop_last();
        let c = crate::flat::nl_joined(init);
        let x = c + ls.last();
        lemma_split_joined(init);
        assert forall|i: int| 0 <= i < ls.last().len() implies ls.last()[i] != 10u8 by {
            assert(ls[ls.len() - 1][i] != 10u8);
        }
        lemma_split_append(c, ls.last());
        let whole = crate::flat::nl_joined(ls);
        assert(whole == x + seq![10u8]);
        assert(whole.drop_last() =~= x);
        assert(split_newlines(x) =~= ls);
    }
}

/// Writing lines (each followed by a newline) and reading the file back gives the same
/// lines, when no line holds a newline; no lines give an empty file.
pub proof fn lemma_write_read_round_trip(ls: Seq<Seq<u8>>)
    requires
        forall|k: int, i: int| 0 <= k < ls.len() && 0 <= i < ls[k].len() ==> #[trigger] ls[k][i] != 10u8,
    ensures
        (crate::flat::nl_joined(ls).len() == 0) == (ls.len() == 0),
        ls.len() > 0 ==> file_lines(crate::flat::nl_joined(ls)) == ls,
{
    lemma_split_joined(ls);
    if ls.len() > 0 {
        let whole = crate::flat::nl_joined(ls);
        assert(whole == crate::flat::nl_joined(ls.drop_last()) + ls.last() + seq![10u8]);
        assert(whole.last() == 10u8);
        assert(ls.push(Seq::<u8>::empty()).drop_last() =~= ls);
    } else {
        assert(crate::flat::nl_joined(ls) =~= Seq::<u8>::empty());
    }
}

/// What loading `content` from the file `filename` into `b0` gives, `b1` with `count` lines
/// added: the file name set, the invisible, changed and truncated marks dropped, and the
/// lines of the content (see `file_lines`) put before the lines already there, in new
/// lines; nothing added for empty content.
pub open spec fn loaded(b0: Buffer, b1: Buffer, filename: Seq<char>, content: Seq<u8>, count: usize) -> bool {
    &&& b1.filename@ == filename
    &&& b1.flags.0 == b0.flags.0 & !7u32
    &&& content.len() == 0 ==> count == 0 && b1.ids() == b0.ids()
    &&& content.len() > 0 ==> count == file_lines(content).len() && b1.ids() == fresh_ids(
        b0.lines@.len(),
        count as nat,
    ) + b0.ids() && forall|i: int|
        0 <= i < count ==> #[trigger] b1.text_of((b0.lines@.len() + i) as usize) == file_lines(content)[i]
}

/// Writing the lines of `b1` (each followed by a newline, as `buffer_bytes` gives them) and
/// loading that text into `b0` gives back `b1`'s lines, first in `b`, when none holds a
/// newline (into a cleared `b0`, exactly `b1`'s lines); an empty buffer gives nothing to
/// load.
pub proof fn lemma_saved_text_reloads(b1: Buffer, b0: Buffer, b: Buffer, filename: Seq<char>, count: usize)
    requires
        forall|k: int, i: int|
            0 <= k < b1.texts().len() && 0 <= i < b1.texts()[k].len() ==> #[trigger] b1.texts()[k][i] != 10u8,
        loaded(b0, b, filename, crate::search::buffer_bytes(&b1), count),
    ensures
        count == b1.texts().len(),
        b.ids().len() == b1.texts().len() + b0.ids().len(),
        forall|k: int| 0 <= k < count ==> #[trigger] b.text_of(b.ids()[k]) == b1.texts()[k],
        b0.ids().len() == 0 ==> b.texts() == b1.texts(),
{
    let ls = b1.texts();
    lemma_write_read_round_trip(ls);
    if ls.len() > 0 {
        assert forall|k: int| 0 <= k < count implies #[trigger] b.text_of(b.ids()[k]) == b1.texts()[k] by {
            assert(b.ids()[k] == (b0.lines@.len() + k) as usize);
        }
    }
    if b0.ids().len() == 0 {
        assert forall|k: int| 0 <= k < b.texts().len() implies #[trigger] b.texts()[k] == b1.texts()[k] by {
            assert(b.text_of(b.ids()[k]) == b1.texts()[k]);
        }
        assert(b.texts() =~= b1.texts());
    }
}

/// The arena indices `base`, `base + 1`, ... of the first `count` lines added.
pub open spec fn fresh_ids(base: nat, count: nat) -> Seq<usize> {
    Seq::new(count, |i: int| (base + i) as usize)
}

/// Adds a line with `text` after the `count` lines already added at the top.
fn add_after_added(
    buf: &mut Buffer,
    last: LineId,
    text: Vec<u8>,
    Ghost(base): Ghost<nat>,
    Ghost(count): Ghost<nat>,
    Ghost(old_ids): Ghost<Seq<usize>>,
) -> (id: LineId)
    requires
        old(buf).wf(),
        old(buf).ids() == fresh_ids(base, count) + old_ids,
        old(buf).lines@.len() == base + count,
        old(buf).lines@.len() + 1 < usize::MAX,
        last.0 == (if count == 0 {
            0
        } else {
            base + count - 1
        }),
    ensures
        final(buf).wf(),
        final(buf).ids() == fresh_ids(base, count + 1) + old_ids,
        final(buf).lines@.len() == base + count + 1,
        id.0 == base + count,
        final(buf).text_of(id.0) == text@,
        forall|j: int|
            0 <= j < base + count ==> #[trigger] final(buf).text_of(j as usize) == old(buf).text_of(
                j as usize,
            ),
        final(buf).id == old(buf).id,
        final(buf).name@ == old(buf).name@,
        final(buf).filename@ == old(buf).filename@,
        final(buf).flags == old(buf).flags,
        final(buf).mode == old(buf).mode,
{
    let ghost ids_before = buf.ids();
    proof {
        if count > 0 {
            assert(ids_before[count - 1] == base + count - 1);
            assert(buf.has_line(last.0));
        }
    }
    let mut line = Line::new();
    line.text = text;
    let id = buf.insert_after(last, line);
    proof {
        if count > 0 {
            assert(ids_before[count - 1] == last.0);
            assert(buf.ids() == ids_before.insert(count as int, id.0));
        } else {
            assert(buf.ids() == ids_before.insert(0, id.0));
        }
        assert(buf.ids() =~= fresh_ids(base, count + 1) + old_ids);
        assert forall|j: int| 0 <= j < base + count implies #[trigger] buf.text_of(j as usize)
            == old(buf).text_of(j as usize) by {}
    }
    id
}

/// Puts the lines of `content` at the top of the buffer, in order, and returns how many
/// there are.
pub fn populate_buffer(buf: &mut Buffer, content: &[u8]) -> (count: usize)
    requires
        old(buf).wf(),
        old(buf).lines@.len() + content@.len() + 1 < usize::MAX,
    ensures
        final(buf).wf(),
        count == file_lines(content@).len(),
        final(buf).lines@.len() == old(buf).lines@.len() + count,
        final(buf).ids() == fresh_ids(old(buf).lines@.len(), count as nat) + old(buf).ids(),
        forall|i: int|
            0 <= i < count ==> #[trigger] final(buf).text_of((old(buf).lines@.len() + i) as usize)
                == file_lines(content@)[i],
        forall|i: int|
            0 <= i < old(buf).lines@.len() ==> #[trigger] final(buf).text_of(i as usize) == old(
                buf,
            ).text_of(i as usize),
        final(buf).id == old(buf).id,
        final(buf).name@ == old(buf).name@,
        final(buf).filename@ == old(buf).filename@,
        final(buf).flags == old(buf).flags,
        final(buf).mode == old(buf).mode,
{
    let ghost base = old(buf).lines@.len();
    let ghost old_ids = old(buf).ids();
    let ghost c = content@;
    let mut last = LineId(0);
    let mut count: usize = 0;
    let mut current: Vec<u8> = Vec::new();
    let mut i: usize = 0;
    proof {
        assert(c.take(0) =~= Seq::<u8>::empty());
        assert(fresh_ids(base, 0) + old_ids =~= old_ids);
    }
    while i < content.len()
        invariant
            buf.wf(),
            c == content@,
            0 <= i <= c.len(),
            base + c.len() + 1 < usize::MAX,
            split_newlines(c.take(i as int)).len() == count + 1,
            current@ == split_newlines(c.take(i as int)).last(),
            buf.lines@.len() == base + count,
            last.0 == (if count == 0 {
                0
            } else {
                base + count - 1
            }),
            count <= i,
            buf.ids() == fresh_ids(base, count as nat) + old_ids,
            forall|j: int|
                0 <= j < count ==> #[trigger] buf.text_of((base + j) as usize) == split_newlines(
                    c.take(i as int),
                )[j],
            forall|j: int|
                0 <= j < base ==> #[trigger] buf.text_of(j as usize) == old(buf).text_of(
                    j as usize,
                ),
            buf.id == old(buf).id,
            buf.name@ == old(buf).name@,
            buf.filename@ == old(buf).filename@,
            buf.flags == old(buf).flags,
            buf.mode == old(buf).mode,
        decreases c.len() - i,
    {
        let b = content[i];
        let ghost prev = c.take(i as int);
        assert(c.take(i + 1).drop_last() =~= prev);
        assert(c.take(i + 1).last() == b);
        if b == 10 {
            let mut text: Vec<u8> = Vec::new();
            std::mem::swap(&mut text, &mut current);
            let id = add_after_added(
                buf,
                last,
                text,
                Ghost(base),
                Ghost(count as nat),
                Ghost(old_ids),
            );
            proof {
                assert forall|j: int| 0 <= j < count + 1 implies #[trigger] buf.text_of(
                    (base + j) as usize,
                ) == split_newlines(c.take(i + 1))[j] by {
                    if j < count {
                        assert(buf.text_of((base + j) as usize) == split_newlines(prev)[j]);
                    }
                }
                assert forall|j: int| 0 <= j < base implies #[trigger] buf.text_of(j as usize)
                    == old(buf).text_of(j as usize) by {}
            }
            last = id;
            count = count + 1;
        } else {
            current.push(b);
            proof {
                assert forall|j: int| 0 <= j < count implies #[trigger] buf.text_of(
                    (base + j) as usize,
                ) == split_newlines(c.take(i + 1))[j] by {
                    assert(split_newlines(c.take(i + 1))[j] == split_newlines(prev)[j]);
                }
            }
        }
        i = i + 1;
    }
    assert(c.take(c.len() as int) =~= c);
    if content.len() == 0 || content[content.len() - 1] != 10 {
        let id = add_after_added(buf, last, current, Ghost(base), Ghost(count as nat), Ghost(old_ids));
        proof {
            assert forall|j: int| 0 <= j < count + 1 implies #[trigger] buf.text_of(
                (base + j) as usize,
            ) == file_lines(c)[j] by {
                if j < count {
                    assert(buf.text_of((base + j) as usize) == split_newlines(c)[j]);
                }
            }
            assert forall|j: int| 0 <= j < base implies #[trigger] buf.text_of(j as usize)
                == old(buf).text_of(j as usize) by {}
        }
        count = count + 1;
    } else {
        proof {
            assert forall|j: int| 0 <= j < count implies #[trigger] buf.text_of((base + j) as usize)
                == file_lines(c)[j] by {}
        }
    }
    count
}

/// Fills a cleared buffer with the content read from `filename`: records the name,
/// drops the invisible, changed and truncated marks, and adds the lines unless the
/// content is empty.  Returns the number of lines.
pub fn load_content(buf: &mut Buffer, filename: &str, content: &[u8]) -> (count: usize)
    requires
        old(buf).wf(),
        old(buf).lines@.len() + content@.len() + 1 < usize::MAX,
    ensures
        final(buf).wf(),
        loaded(*old(buf), *final(buf), filename@, content@, count),
{
    buf.filename = String::from_str(filename);
    buf.flags = buf.flags.without(BufferFlags(7));
    if content.len() == 0 {
        return 0;
    }
    populate_buffer(buf, content)
}

} // verus!
