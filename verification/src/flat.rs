use crate::buffer::Buffer;
use vstd::prelude::*;

verus! {

/// Lines joined by newline bytes, with no newline after the last one.
pub open spec fn joined(ls: Seq<Seq<u8>>) -> Seq<u8>
    decreases ls.len(),
{
    if ls.len() == 0 {
        Seq::empty()
    } else if ls.len() == 1 {
        ls[0]
    } else {
        joined(ls.drop_last()) + seq![10u8] + ls.last()
    }
}

/// Where line `k` starts in `joined(ls)`.
pub open spec fn line_start(ls: Seq<Seq<u8>>, k: int) -> int
    decreases k,
{
    if k <= 0 {
        0
    } else {
        line_start(ls, k - 1) + ls[k - 1].len() + 1
    }
}

/// The header line followed by the text lines: the order in which the cursor moves forward.
pub open spec fn ring_ids(buf: &Buffer) -> Seq<usize> {
    seq![0usize] + buf.ids()
}

/// The bytes of `ring_ids(buf)`, line by line.
pub open spec fn ring_texts(buf: &Buffer) -> Seq<Seq<u8>> {
    Seq::new(ring_ids(buf).len(), |k: int| buf.text_of(ring_ids(buf)[k]))
}

/// The whole buffer as one byte sequence, header line first, lines joined by newlines.
pub open spec fn flat(buf: &Buffer) -> Seq<u8> {
    joined(ring_texts(buf))
}

/// Where position (`k`-th line of the ring, `off`) lies in `flat(buf)`.
pub open spec fn flat_index(buf: &Buffer, k: int, off: int) -> int {
    line_start(ring_texts(buf), k) + off
}

pub proof fn lemma_line_start_prefix(ls: Seq<Seq<u8>>, k: int)
    requires
        0 <= k < ls.len(),
    ensures
        line_start(ls.drop_last(), k) == line_start(ls, k),
    decreases k,
{
    if k > 0 {
        lemma_line_start_prefix(ls, k - 1);
    }
}

pub proof fn lemma_line_start_nonneg(ls: Seq<Seq<u8>>, k: int)
    ensures
        line_start(ls, k) >= 0,
        k >= 0 ==> line_start(ls, k) >= k,
    decreases k,
{
    if k > 0 {
        lemma_line_start_nonneg(ls, k - 1);
    }
}

pub proof fn lemma_joined_len(ls: Seq<Seq<u8>>)
    requires
        ls.len() >= 1,
    ensures
        joined(ls).len() == line_start(ls, ls.len() - 1) + ls[ls.len() - 1].len(),
    decreases ls.len(),
{
    if ls.len() > 1 {
        let init = ls.drop_last();
        lemma_joined_len(init);
        lemma_line_start_prefix(ls, ls.len() - 2);
    }
}

/// Byte `off` of line `k` sits at `line_start(ls, k) + off` of the joined text.
pub proof fn lemma_joined_byte(ls: Seq<Seq<u8>>, k: int, off: int)
    requires
        0 <= k < ls.len(),
        0 <= off < ls[k].len(),
    ensures
        line_start(ls, k) + off < joined(ls).len(),
        joined(ls)[line_start(ls, k) + off] == ls[k][off],
    decreases ls.len(),
{
    lemma_joined_len(ls);
    lemma_line_start_nonneg(ls, k);
    if ls.len() > 1 {
        let init = ls.drop_last();
        lemma_joined_len(init);
        lemma_line_start_prefix(ls, ls.len() - 2);
        if k < ls.len() - 1 {
            lemma_joined_byte(init, k, off);
            lemma_line_start_prefix(ls, k);
            lemma_line_end_bound(ls, k);
        }
    }
}

/// Line `k` ends no later than the joined text, and exactly there when it is the last line.
pub proof fn lemma_line_end_bound(ls: Seq<Seq<u8>>, k: int)
    requires
        0 <= k < ls.len(),
    ensures
        line_start(ls, k) + ls[k].len() <= joined(ls).len(),
        k < ls.len() - 1 ==> line_start(ls, k) + ls[k].len() < joined(ls).len(),
        k == ls.len() - 1 ==> line_start(ls, k) + ls[k].len() == joined(ls).len(),
    decreases ls.len() - k,
{
    lemma_joined_len(ls);
    if k < ls.len() - 1 {
        lemma_line_end_bound(ls, k + 1);
    }
}

/// A newline separates line `k` from line `k + 1`.
pub proof fn lemma_joined_newline(ls: Seq<Seq<u8>>, k: int)
    requires
        0 <= k < ls.len() - 1,
    ensures
        joined(ls)[line_start(ls, k) + ls[k].len()] == 10u8,
        line_start(ls, k + 1) == line_start(ls, k) + ls[k].len() + 1,
    decreases ls.len(),
{
    let init = ls.drop_last();
    lemma_joined_len(init);
    lemma_line_start_prefix(ls, ls.len() - 2);
    lemma_line_start_prefix(ls, k);
    assert(joined(ls) == joined(init) + seq![10u8] + ls.last());
    assert(init[k] == ls[k]);
    lemma_line_start_nonneg(ls, k);
    let idx = line_start(ls, k) + ls[k].len();
    if k < ls.len() - 2 {
        lemma_joined_newline(init, k);
        lemma_line_end_bound(init, k);
        assert(idx < joined(init).len());
        assert(joined(init)[idx] == 10u8);
        assert((joined(init) + seq![10u8] + ls.last())[idx] == joined(init)[idx]);
    } else {
        assert(idx == joined(init).len());
        assert((joined(init) + seq![10u8] + ls.last())[idx] == 10u8);
    }
}

/// Positions before line `k` come before its start, positions after it after its end.
pub proof fn lemma_line_start_mono(ls: Seq<Seq<u8>>, j: int, k: int)
    requires
        0 <= j < k <= ls.len(),
    ensures
        line_start(ls, j) + ls[j].len() < line_start(ls, k),
    decreases k - j,
{
    if j < k - 1 {
        lemma_line_start_mono(ls, j, k - 1);
    }
}

/// Lines each followed by a newline byte.
pub open spec fn nl_joined(ls: Seq<Seq<u8>>) -> Seq<u8>
    decreases ls.len(),
{
    if ls.len() == 0 {
        Seq::empty()
    } else {
        nl_joined(ls.drop_last()) + ls.last() + seq![10u8]
    }
}

/// With at least one line, a newline after every line is the joined text plus one newline.
pub proof fn lemma_nl_joined(ls: Seq<Seq<u8>>)
    requires
        ls.len() >= 1,
    ensures
        nl_joined(ls) == joined(ls) + seq![10u8],
    decreases ls.len(),
{
    if ls.len() > 1 {
        lemma_nl_joined(ls.drop_last());
        assert(nl_joined(ls) =~= joined(ls) + seq![10u8]);
    } else {
        assert(ls.drop_last() =~= Seq::<Seq<u8>>::empty());
        assert(nl_joined(ls.drop_last()) =~= Seq::<u8>::empty());
        assert(ls.last() == ls[0]);
        assert(nl_joined(ls) =~= joined(ls) + seq![10u8]);
    }
}

/// The length of the text with a newline after every line.
pub proof fn lemma_nl_joined_len(ls: Seq<Seq<u8>>)
    ensures
        nl_joined(ls).len() == line_start(ls, ls.len() as int),
    decreases ls.len(),
{
    if ls.len() > 0 {
        let init = ls.drop_last();
        lemma_nl_joined_len(init);
        lemma_line_start_prefix_all(ls, ls.len() - 1);
    }
}

/// `line_start` up to `k` only looks at the lines before `k`.
pub proof fn lemma_line_start_prefix_all(ls: Seq<Seq<u8>>, k: int)
    requires
        0 <= k < ls.len(),
    ensures
        line_start(ls.drop_last(), k) == line_start(ls, k),
    decreases k,
{
    if k > 0 {
        lemma_line_start_prefix_all(ls, k - 1);
    }
}

/// The joined text between two offsets of one line holds that line's bytes between them.
pub proof fn lemma_joined_within(ls: Seq<Seq<u8>>, i: int, a: int, c: int)
    requires
        0 <= i < ls.len(),
        0 <= a <= c <= ls[i].len(),
    ensures
        line_start(ls, i) + c <= joined(ls).len(),
        joined(ls).subrange(line_start(ls, i) + a, line_start(ls, i) + c) == ls[i].subrange(a, c),
{
    lemma_line_end_bound(ls, i);
    lemma_line_start_nonneg(ls, i);
    assert forall|x: int| 0 <= x < c - a implies #[trigger] joined(ls).subrange(
        line_start(ls, i) + a,
        line_start(ls, i) + c,
    )[x] == ls[i].subrange(a, c)[x] by {
        lemma_joined_byte(ls, i, a + x);
    }
    assert(joined(ls).subrange(line_start(ls, i) + a, line_start(ls, i) + c) =~= ls[i].subrange(a, c));
}

/// The joined text from offset `a` of line `i` to offset `c` of a later line `j` is the
/// text up to the end of line `j - 1`, the newline after it, and the first `c` bytes of
/// line `j`.
pub proof fn lemma_joined_across(ls: Seq<Seq<u8>>, i: int, a: int, j: int, c: int)
    requires
        0 <= i < j < ls.len(),
        0 <= a <= ls[i].len(),
        0 <= c <= ls[j].len(),
    ensures
        line_start(ls, i) + a <= line_start(ls, j - 1) + ls[j - 1].len(),
        line_start(ls, j) + c <= joined(ls).len(),
        joined(ls).subrange(line_start(ls, i) + a, line_start(ls, j) + c) == joined(ls).subrange(
            line_start(ls, i) + a,
            line_start(ls, j - 1) + ls[j - 1].len(),
        ) + seq![10u8] + ls[j].subrange(0, c),
{
    lemma_joined_newline(ls, j - 1);
    lemma_joined_within(ls, j, 0, c);
    lemma_line_start_nonneg(ls, i);
    if i < j - 1 {
        lemma_line_start_mono(ls, i, j - 1);
    }
    let t = joined(ls);
    let x = line_start(ls, i) + a;
    let y = line_start(ls, j - 1) + ls[j - 1].len();
    let z = line_start(ls, j) + c;
    assert(t.subrange(x, z) =~= t.subrange(x, y) + t.subrange(y, y + 1) + t.subrange(y + 1, z));
    assert(t.subrange(y, y + 1) =~= seq![10u8]);
}

/// Joining two non-empty runs of lines: the first joined, a newline, the second joined.
pub proof fn lemma_joined_append(a: Seq<Seq<u8>>, b: Seq<Seq<u8>>)
    requires
        a.len() > 0,
        b.len() > 0,
    ensures
        joined(a + b) == joined(a) + seq![10u8] + joined(b),
    decreases b.len(),
{
    if b.len() == 1 {
        assert((a + b).drop_last() =~= a);
        assert(joined(b) == b[0]);
    } else {
        lemma_joined_append(a, b.drop_last());
        assert((a + b).drop_last() =~= a + b.drop_last());
        assert(joined(a) + seq![10u8] + joined(b.drop_last()) + seq![10u8] + b.last() =~= joined(a) + seq![10u8] + (
        joined(b.drop_last()) + seq![10u8] + b.last()));
    }
}

/// `line_start` only looks at the lines before its own.
pub proof fn lemma_line_start_agree(a: Seq<Seq<u8>>, b: Seq<Seq<u8>>, k: int)
    requires
        0 <= k,
        k <= a.len(),
        k <= b.len(),
        forall|j: int| 0 <= j < k ==> #[trigger] a[j] == b[j],
    ensures
        line_start(a, k) == line_start(b, k),
    decreases k,
{
    if k > 0 {
        lemma_line_start_agree(a, b, k - 1);
    }
}

/// The text before line `p` in the joined text: the lines before it joined, and a newline
/// when there are any.
pub open spec fn joined_before(ls: Seq<Seq<u8>>, p: int) -> Seq<u8> {
    if p == 0 {
        Seq::empty()
    } else {
        joined(ls.take(p)) + seq![10u8]
    }
}

/// The text after line `p` in the joined text: a newline and the lines after it joined,
/// when there are any.
pub open spec fn joined_after(ls: Seq<Seq<u8>>, p: int) -> Seq<u8> {
    if p == ls.len() - 1 {
        Seq::empty()
    } else {
        seq![10u8] + joined(ls.skip(p + 1))
    }
}

/// The joined text around line `p`: what comes before it (as long as where it starts),
/// the line, and what comes after it.
pub proof fn lemma_joined_around(ls: Seq<Seq<u8>>, p: int)
    requires
        0 <= p < ls.len(),
    ensures
        joined(ls) == joined_before(ls, p) + ls[p] + joined_after(ls, p),
        joined_before(ls, p).len() == line_start(ls, p),
{
    let a = ls.take(p);
    let c = ls.skip(p + 1);
    let m = seq![ls[p]];
    assert(joined(m) == ls[p]);
    if p == 0 {
        if ls.len() == 1 {
            assert(ls =~= m);
        } else {
            assert(ls =~= m + c);
            lemma_joined_append(m, c);
        }
    } else {
        lemma_joined_len(a);
        lemma_line_start_agree(a, ls, p - 1);
        assert(a[p - 1] == ls[p - 1]);
        if p == ls.len() - 1 {
            assert(ls =~= a + m);
            lemma_joined_append(a, m);
        } else {
            assert(ls =~= a + m + c);
            lemma_joined_append(a, m);
            lemma_joined_append(a + m, c);
            assert(joined(a) + seq![10u8] + ls[p] + seq![10u8] + joined(c) =~= joined(a) + seq![10u8] + ls[p] + (seq![10u8] + joined(c)));
        }
    }
}

/// Taking byte `o` out of line `p` takes the byte at `line_start(ls, p) + o` out of the
/// joined text.
pub proof fn lemma_joined_remove_byte(ls: Seq<Seq<u8>>, p: int, o: int)
    requires
        0 <= p < ls.len(),
        0 <= o < ls[p].len(),
    ensures
        joined(ls.update(p, ls[p].remove(o))) == joined(ls).remove(line_start(ls, p) + o),
{
    let ls2 = ls.update(p, ls[p].remove(o));
    lemma_joined_around(ls, p);
    lemma_joined_around(ls2, p);
    assert(ls2.take(p) =~= ls.take(p));
    assert(ls2.skip(p + 1) =~= ls.skip(p + 1));
    let pre = joined_before(ls, p);
    let post = joined_after(ls, p);
    assert(pre + ls[p].remove(o) + post =~= (pre + ls[p] + post).remove(pre.len() + o));
}

/// Joining line `p + 1` onto line `p` takes the newline between them out of the joined
/// text.
pub proof fn lemma_joined_merge(ls: Seq<Seq<u8>>, p: int)
    requires
        0 <= p,
        p + 1 < ls.len(),
    ensures
        joined(ls.update(p, ls[p] + ls[p + 1]).remove(p + 1)) == joined(ls).remove(line_start(ls, p) + ls[p].len()),
{
    let ls2 = ls.update(p, ls[p] + ls[p + 1]).remove(p + 1);
    lemma_joined_around(ls, p + 1);
    lemma_joined_around(ls2, p);
    let a = ls.take(p + 1);
    lemma_joined_around(a, p);
    assert(a.take(p) =~= ls.take(p));
    assert(ls2.take(p) =~= ls.take(p));
    assert(ls2.skip(p + 1) =~= ls.skip(p + 2));
    assert(joined_after(a, p) =~= Seq::<u8>::empty());
    let pre = joined_before(ls, p);
    let post = joined_after(ls, p + 1);
    assert(joined_after(ls2, p) == post);
    assert(joined_before(ls, p + 1) =~= pre + ls[p] + seq![10u8]);
    assert(pre + (ls[p] + ls[p + 1]) + post =~= (pre + ls[p] + seq![10u8] + ls[p + 1] + post).remove(pre.len() + ls[p].len() as int));
    assert(joined_before(ls, p) == pre);
    lemma_joined_around(ls, p);
}

} // verus!
