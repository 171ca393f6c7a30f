use crate::types::{Error, LineId};
use vstd::prelude::*;

verus! {

/// The bytes of `text` with `bytes` put in at `offset`.
pub open spec fn spliced_in(text: Seq<u8>, offset: int, bytes: Seq<u8>) -> Seq<u8> {
    text.take(offset) + bytes + text.skip(offset)
}

/// The bytes of `text` with up to `count` bytes taken out from `offset`,
/// both bounds clamped to the end of `text`.
pub open spec fn cut_out(text: Seq<u8>, offset: int, count: int) -> Seq<u8> {
    let start = if offset < text.len() { offset } else { text.len() as int };
    let end = if start + count < text.len() { start + count } else { text.len() as int };
    text.take(start) + text.skip(end)
}

/// Removing what was just put in gives back the original bytes.
pub proof fn lemma_cut_out_undoes_spliced_in(text: Seq<u8>, offset: int, bytes: Seq<u8>)
    requires
        0 <= offset <= text.len(),
    ensures
        cut_out(spliced_in(text, offset, bytes), offset, bytes.len() as int) == text,
{
    let s = spliced_in(text, offset, bytes);
    assert(s.take(offset) =~= text.take(offset));
    assert(s.skip(offset + bytes.len()) =~= text.skip(offset));
    assert(text.take(offset) + text.skip(offset) =~= text);
}

#[verifier::external_body]
fn vec_capacity(v: &Vec<u8>) -> (r: usize)
    ensures
        r >= v.len(),
{
    v.capacity()
}

/// One line of text, linked to its neighbours by arena index.
pub struct Line {
    pub next: LineId,
    pub prev: LineId,
    pub text: Vec<u8>,
}

impl Line {
    /// An empty, unlinked line.
    pub fn new() -> (l: Self)
        ensures
            l.text@ == Seq::<u8>::empty(),
            l.next == LineId(0),
            l.prev == LineId(0),
    {
        Line { next: LineId(0), prev: LineId(0), text: Vec::new() }
    }

    /// An empty, unlinked line whose storage is reserved for `cap` bytes.
    pub fn with_capacity(cap: usize) -> (l: Self)
        ensures
            l.text@ == Seq::<u8>::empty(),
            l.next == LineId(0),
            l.prev == LineId(0),
    {
        Line { next: LineId(0), prev: LineId(0), text: Vec::with_capacity(cap) }
    }

    pub fn len(&self) -> (r: usize)
        ensures
            r == self.text@.len(),
    {
        self.text.len()
    }

    pub fn is_empty(&self) -> (r: bool)
        ensures
            r == (self.text@.len() == 0),
    {
        self.text.len() == 0
    }

    /// How many bytes the line can hold before its storage grows.
    pub fn capacity(&self) -> (r: usize)
        ensures
            r >= self.text@.len(),
    {
        vec_capacity(&self.text)
    }

    pub fn get_byte(&self, offset: usize) -> (r: Option<u8>)
        ensures
            r == (if offset < self.text@.len() {
                Some(self.text@[offset as int])
            } else {
                None::<u8>
            }),
    {
        if offset < self.text.len() {
            Some(self.text[offset])
        } else {
            None
        }
    }

    /// Overwrites the byte at `offset`; an offset past the end changes nothing.
    pub fn put_byte(&mut self, offset: usize, byte: u8)
        ensures
            final(self).next == old(self).next,
            final(self).prev == old(self).prev,
            final(self).text@ == (if offset < old(self).text@.len() {
                old(self).text@.update(offset as int, byte)
            } else {
                old(self).text@
            }),
    {
        if offset < self.text.len() {
            self.text.set(offset, byte);
        }
    }

    /// Puts `bytes` in at `offset`; fails, changing nothing, when `offset` is past the end.
    pub fn insert_bytes(&mut self, offset: usize, bytes: &[u8]) -> (r: Result<(), Error>)
        ensures
            final(self).next == old(self).next,
            final(self).prev == old(self).prev,
            offset <= old(self).text@.len() ==> r == Ok::<(), Error>(()) && final(self).text@
                == spliced_in(old(self).text@, offset as int, bytes@),
            offset > old(self).text@.len() ==> r == Err::<(), Error>(Error::Abort)
                && final(self).text@ == old(self).text@,
    {
        if offset > self.text.len() {
            return Err(Error::Abort);
        }
        let mut out: Vec<u8> = Vec::new();
        let mut i: usize = 0;
        while i < offset
            invariant
                offset <= self.text@.len(),
                i <= offset,
                out@ == self.text@.take(i as int),
            decreases offset - i,
        {
            out.push(self.text[i]);
            i = i + 1;
            assert(out@ =~= self.text@.take(i as int));
        }
        let mut j: usize = 0;
        while j < bytes.len()
            invariant
                offset <= self.text@.len(),
                j <= bytes@.len(),
                out@ == self.text@.take(offset as int) + bytes@.take(j as int),
            decreases bytes@.len() - j,
        {
            out.push(bytes[j]);
            j = j + 1;
            assert(out@ =~= self.text@.take(offset as int) + bytes@.take(j as int));
        }
        assert(bytes@.take(bytes@.len() as int) =~= bytes@);
        let mut k: usize = offset;
        while k < self.text.len()
            invariant
                offset <= k <= self.text@.len(),
                out@ == self.text@.take(offset as int) + bytes@ + self.text@.subrange(
                    offset as int,
                    k as int,
                ),
            decreases self.text@.len() - k,
        {
            out.push(self.text[k]);
            k = k + 1;
            assert(out@ =~= self.text@.take(offset as int) + bytes@ + self.text@.subrange(
                offset as int,
                k as int,
            ));
        }
        assert(self.text@.subrange(offset as int, self.text@.len() as int) =~= self.text@.skip(
            offset as int,
        ));
        self.text = out;
        Ok(())
    }

    /// Takes out up to `len` bytes from `offset`; bounds past the end are clamped.
    pub fn delete_bytes(&mut self, offset: usize, len: usize)
        ensures
            final(self).next == old(self).next,
            final(self).prev == old(self).prev,
            final(self).text@ == cut_out(old(self).text@, offset as int, len as int),
    {
        let n = self.text.len();
        let start = if offset < n {
            offset
        } else {
            n
        };
        let end = if len < n - start {
            start + len
        } else {
            n
        };
        let mut out: Vec<u8> = Vec::new();
        let mut i: usize = 0;
        while i < start
            invariant
                start <= n == self.text@.len(),
                i <= start,
                out@ == self.text@.take(i as int),
            decreases start - i,
        {
            out.push(self.text[i]);
            i = i + 1;
            assert(out@ =~= self.text@.take(i as int));
        }
        let mut k: usize = end;
        while k < n
            invariant
                start <= end <= n == self.text@.len(),
                end <= k <= n,
                out@ == self.text@.take(start as int) + self.text@.subrange(end as int, k as int),
            decreases n - k,
        {
            out.push(self.text[k]);
            k = k + 1;
            assert(out@ =~= self.text@.take(start as int) + self.text@.subrange(
                end as int,
                k as int,
            ));
        }
        assert(self.text@.subrange(end as int, n as int) =~= self.text@.skip(end as int));
        self.text = out;
    }

    /// Cuts the line at `offset`: this line keeps the head, the returned unlinked line the tail.
    pub fn split_off(&mut self, offset: usize) -> (tail: Self)
        requires
            offset <= old(self).text@.len(),
        ensures
            final(self).next == old(self).next,
            final(self).prev == old(self).prev,
            final(self).text@ == old(self).text@.take(offset as int),
            tail.text@ == old(self).text@.skip(offset as int),
            tail.next == LineId(0),
            tail.prev == LineId(0),
    {
        let t = self.text.split_off(offset);
        assert(self.text@ =~= old(self).text@.take(offset as int));
        assert(t@ =~= old(self).text@.skip(offset as int));
        Line { next: LineId(0), prev: LineId(0), text: t }
    }

    /// Moves all bytes of `other` onto the end of this line.
    pub fn append_line(&mut self, other: &mut Self)
        ensures
            final(self).text@ == old(self).text@ + old(other).text@,
            final(self).next == old(self).next,
            final(self).prev == old(self).prev,
            final(other).text@ == Seq::<u8>::empty(),
            final(other).next == old(other).next,
            final(other).prev == old(other).prev,
    {
        self.text.append(&mut other.text);
    }

    pub fn next(&self) -> (r: LineId)
        ensures
            r == self.next,
    {
        self.next
    }

    pub fn prev(&self) -> (r: LineId)
        ensures
            r == self.prev,
    {
        self.prev
    }

    pub fn set_next(&mut self, id: LineId)
        ensures
            final(self).next == id,
            final(self).prev == old(self).prev,
            final(self).text@ == old(self).text@,
    {
        self.next = id;
    }

    pub fn set_prev(&mut self, id: LineId)
        ensures
            final(self).prev == id,
            final(self).next == old(self).next,
            final(self).text@ == old(self).text@,
    {
        self.prev = id;
    }

    /// Whether either link points somewhere other than the header line.
    pub fn is_linked(&self) -> (r: bool)
        ensures
            r == (self.next.0 != 0 || self.prev.0 != 0),
    {
        self.next.0 != 0 || self.prev.0 != 0
    }

    /// Points both links at the header line.
    pub fn unlink(&mut self)
        ensures
            final(self).next == LineId(0),
            final(self).prev == LineId(0),
            final(self).text@ == old(self).text@,
    {
        self.next = LineId(0);
        self.prev = LineId(0);
    }
}

} // verus!
