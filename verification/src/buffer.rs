use crate::line::Line;
use crate::types::{BufferFlags, BufferId, LineId, Mode};
use vstd::prelude::*;

verus! {

/// A text buffer: a ring of lines threaded through an arena.
///
/// `lines[0]` is the header line.  The text lines, in order, are the arena
/// indices listed in `order`; each links to its neighbours, and the first and
/// last link back to the header.  Lines taken out of the ring stay in the arena
/// with both links pointing at the header.
pub struct Buffer {
    pub id: BufferId,
    pub name: String,
    pub filename: String,
    pub flags: BufferFlags,
    pub mode: Mode,
    pub head: LineId,
    pub lines: Vec<Line>,
    pub order: Ghost<Seq<usize>>,
}

/// The arena index that follows position `k` of `order` in the ring.
pub open spec fn succ_of(order: Seq<usize>, k: int) -> usize {
    if k + 1 < order.len() {
        order[k + 1]
    } else {
        0
    }
}

/// The arena index that precedes position `k` of `order` in the ring.
pub open spec fn pred_of(order: Seq<usize>, k: int) -> usize {
    if k > 0 {
        order[k - 1]
    } else {
        0
    }
}

/// What a buffer's text is: the arena indices of its text lines, in order, and the bytes
/// of every arena line (index 0 is the header).
pub struct TextModel {
    pub ids: Seq<usize>,
    pub arena: Seq<Seq<u8>>,
}

/// In `ids`, the line after `l`: after the header (0) the first one, after the last none.
pub open spec fn next_in(ids: Seq<usize>, l: usize) -> Option<usize> {
    if l == 0 {
        if ids.len() > 0 {
            Some(ids[0])
        } else {
            None
        }
    } else if ids.contains(l) && ids.index_of(l) + 1 < ids.len() {
        Some(ids[ids.index_of(l) + 1])
    } else {
        None
    }
}

/// In `ids`, the line before `l`: before the header (0) the last one, before the first none.
pub open spec fn prev_in(ids: Seq<usize>, l: usize) -> Option<usize> {
    if l == 0 {
        if ids.len() > 0 {
            Some(ids.last())
        } else {
            None
        }
    } else if ids.contains(l) && ids.index_of(l) > 0 {
        Some(ids[ids.index_of(l) - 1])
    } else {
        None
    }
}

/// An arena index as a line identifier.
pub open spec fn line_opt(o: Option<usize>) -> Option<LineId> {
    match o {
        Some(x) => Some(LineId(x)),
        None => None,
    }
}

impl Buffer {
    /// The arena indices of the text lines, first to last.
    pub open spec fn ids(&self) -> Seq<usize> {
        self.order@
    }

    /// Whether arena index `id` is one of the text lines.
    pub open spec fn has_line(&self, id: usize) -> bool {
        self.order@.contains(id)
    }

    /// The bytes of arena line `id`.
    pub open spec fn text_of(&self, id: usize) -> Seq<u8> {
        self.lines@[id as int].text@
    }

    /// The text lines, first to last.
    pub open spec fn texts(&self) -> Seq<Seq<u8>> {
        Seq::new(self.order@.len(), |k: int| self.lines@[self.order@[k] as int].text@)
    }

    /// The position of text line `l` among the text lines (meaningful when `has_line(l)`).
    pub open spec fn pos_of(&self, l: usize) -> int {
        self.ids().index_of(l)
    }

    /// The text line after `l`: after the header the first one, after the last none.
    pub open spec fn next_of(&self, l: usize) -> Option<usize> {
        next_in(self.ids(), l)
    }

    /// The text line before `l`: before the header the last one, before the first none.
    pub open spec fn prev_of(&self, l: usize) -> Option<usize> {
        prev_in(self.ids(), l)
    }

    /// The text lines and the bytes of every arena line.
    pub open spec fn model(&self) -> TextModel {
        TextModel {
            ids: self.ids(),
            arena: Seq::new(self.lines@.len(), |i: int| self.lines@[i].text@),
        }
    }

    /// The header followed by the text lines.
    pub open spec fn ring(&self) -> Seq<usize> {
        seq![0usize] + self.ids()
    }

    /// Whether `l` is the header or a text line.
    pub open spec fn in_ring(&self, l: usize) -> bool {
        l == 0 || self.has_line(l)
    }

    /// Where `l` stands in `ring()`.
    pub open spec fn ring_pos(&self, l: usize) -> int {
        if l == 0 {
            0
        } else {
            self.pos_of(l) + 1
        }
    }

    /// The position in the ring of the header or a text line is where it stands.
    pub proof fn lemma_ring_pos(&self, l: usize)
        requires
            self.wf(),
            self.in_ring(l),
        ensures
            0 <= self.ring_pos(l) < self.ring().len(),
            self.ring()[self.ring_pos(l)] == l,
            l < self.lines@.len(),
    {
        if l != 0 {
            let k = self.pos_of(l);
            assert(self.ids()[k] == l);
            self.lemma_pos_of(k);
        }
    }

    /// Every entry of the ring is in the ring, at its own position.
    pub proof fn lemma_ring_entry(&self, j: int)
        requires
            self.wf(),
            0 <= j < self.ring().len(),
        ensures
            self.in_ring(self.ring()[j]),
            self.ring_pos(self.ring()[j]) == j,
            self.ring()[j] < self.lines@.len(),
    {
        if j > 0 {
            self.lemma_pos_of(j - 1);
        }
    }

    /// The position of a text line is where it stands.
    pub proof fn lemma_pos_of(&self, j: int)
        requires
            self.wf(),
            0 <= j < self.ids().len(),
        ensures
            self.pos_of(self.ids()[j]) == j,
            self.has_line(self.ids()[j]),
            0 < self.ids()[j] < self.lines@.len(),
    {
        let ids = self.ids();
        assert(ids.contains(ids[j]));
        let k = ids.index_of(ids[j]);
        assert(ids[k] == ids[j]);
    }

    /// The links of the arena agree with `order`.
    pub open spec fn wf(&self) -> bool {
        let order = self.order@;
        let n = order.len();
        &&& self.head == LineId(0)
        &&& 0 < self.lines@.len() <= usize::MAX
        &&& order.no_duplicates()
        &&& n < self.lines@.len()
        &&& forall|k: int| 0 <= k < n ==> 0 < #[trigger] order[k] < self.lines@.len()
        &&& self.lines@[0].next.0 == (if n > 0 {
            order[0]
        } else {
            0
        })
        &&& self.lines@[0].prev.0 == (if n > 0 {
            order[n - 1]
        } else {
            0
        })
        &&& forall|k: int|
            0 <= k < n ==> (#[trigger] self.lines@[order[k] as int]).next.0 == succ_of(order, k)
                && self.lines@[order[k] as int].prev.0 == pred_of(order, k)
        &&& forall|i: int|
            0 < i < self.lines@.len() && !order.contains(i as usize) ==> (
            #[trigger] self.lines@[i]).next.0 == 0 && self.lines@[i].prev.0 == 0
    }

    /// Everything but the bytes of the lines is as in `other`, and only the
    /// lines outside `changed` keep their bytes.
    pub open spec fn same_links(&self, other: &Buffer) -> bool {
        &&& self.id == other.id
        &&& self.name@ == other.name@
        &&& self.filename@ == other.filename@
        &&& self.flags == other.flags
        &&& self.mode == other.mode
        &&& self.head == other.head
        &&& self.order@ == other.order@
        &&& self.lines@.len() == other.lines@.len()
        &&& forall|i: int|
            0 <= i < self.lines@.len() ==> (#[trigger] self.lines@[i]).next == other.lines@[i].next
                && self.lines@[i].prev == other.lines@[i].prev
    }

    /// A buffer with no text lines.
    pub fn new(id: BufferId, name: &str) -> (b: Buffer)
        ensures
            b.wf(),
            b.id == id,
            b.name@ == name@,
            b.filename@ == Seq::<char>::empty(),
            b.flags == BufferFlags(0),
            b.mode == Mode(0),
            b.ids() == Seq::<usize>::empty(),
            b.lines@.len() == 1,
            b.text_of(0) == Seq::<u8>::empty(),
    {
        let mut lines: Vec<Line> = Vec::new();
        lines.push(Line::new());
        Buffer {
            id,
            name: String::from_str(name),
            filename: String::new(),
            flags: BufferFlags(0),
            mode: Mode(0),
            head: LineId(0),
            lines,
            order: Ghost(Seq::empty()),
        }
    }

    /// The header line.
    pub fn head_line(&self) -> (l: &Line)
        requires
            self.wf(),
        ensures
            *l == self.lines@[0],
    {
        &self.lines[0]
    }

    /// The line stored at `id`, if the arena has one.
    pub fn line(&self, id: LineId) -> (r: Option<&Line>)
        ensures
            id.0 < self.lines@.len() ==> r == Some(&self.lines@[id.0 as int]),
            id.0 >= self.lines@.len() ==> r == None::<&Line>,
    {
        if id.0 < self.lines.len() {
            Some(&self.lines[id.0])
        } else {
            None
        }
    }

    /// The line stored at `id`, for changing in place, if the arena has one.
    pub fn line_mut(&mut self, id: LineId) -> (r: Option<&mut Line>)
        ensures
            id.0 < old(self).lines@.len() ==> {
                &&& r is Some
                &&& *r->0 == old(self).lines@[id.0 as int]
                &&& final(self).lines@ == old(self).lines@.update(id.0 as int, *final(r->0))
            },
            id.0 >= old(self).lines@.len() ==> r is None && final(self).lines@ == old(self).lines@,
            final(self).id == old(self).id,
            final(self).name == old(self).name,
            final(self).filename == old(self).filename,
            final(self).flags == old(self).flags,
            final(self).mode == old(self).mode,
            final(self).head == old(self).head,
            final(self).order == old(self).order,
    {
        if id.0 < self.lines.len() {
            Some(&mut self.lines[id.0])
        } else {
            None
        }
    }

    /// The length of the line stored at `id`, if the arena has one.
    pub fn line_len(&self, id: LineId) -> (r: Option<usize>)
        ensures
            id.0 < self.lines@.len() ==> r is Some && r->0 == self.lines@[id.0 as int].text@.len(),
            id.0 >= self.lines@.len() ==> r == None::<usize>,
    {
        if id.0 < self.lines.len() {
            Some(self.lines[id.0].text.len())
        } else {
            None
        }
    }
    /// The line after `id`: the first text line after the header, `None` after the last one
    /// and for lines outside the ring.
    pub fn next_line(&self, id: LineId) -> (r: Option<LineId>)
        requires
            self.wf(),
        ensures
            id.0 == 0 ==> r == (if self.ids().len() > 0 {
                Some(LineId(self.ids()[0]))
            } else {
                None::<LineId>
            }),
            forall|k: int|
                0 <= k < self.ids().len() && #[trigger] self.ids()[k] == id.0 ==> r == (if k + 1
                    < self.ids().len() {
                    Some(LineId(self.ids()[k + 1]))
                } else {
                    None::<LineId>
                }),
            id.0 != 0 && !self.has_line(id.0) ==> r == None::<LineId>,
            r == line_opt(self.next_of(id.0)),
    {
        proof {
            if id.0 != 0 && self.has_line(id.0) {
                let k = self.pos_of(id.0);
                assert(self.ids()[k] == id.0);
            }
        }
        if id.0 < self.lines.len() {
            let n = self.lines[id.0].next;
            if n.0 == 0 {
                None
            } else {
                Some(n)
            }
        } else {
            None
        }
    }

    /// The line before `id`: the last text line before the header, `None` before the first
    /// one and for lines outside the ring.
    pub fn prev_line(&self, id: LineId) -> (r: Option<LineId>)
        requires
            self.wf(),
        ensures
            id.0 == 0 ==> r == (if self.ids().len() > 0 {
                Some(LineId(self.ids()[self.ids().len() - 1]))
            } else {
                None::<LineId>
            }),
            forall|k: int|
                0 <= k < self.ids().len() && #[trigger] self.ids()[k] == id.0 ==> r == (if k > 0 {
                    Some(LineId(self.ids()[k - 1]))
                } else {
                    None::<LineId>
                }),
            id.0 != 0 && !self.has_line(id.0) ==> r == None::<LineId>,
            r == line_opt(self.prev_of(id.0)),
    {
        proof {
            if id.0 != 0 && self.has_line(id.0) {
                let k = self.pos_of(id.0);
                assert(self.ids()[k] == id.0);
            }
        }
        if id.0 < self.lines.len() {
            let p = self.lines[id.0].prev;
            if p.0 == 0 {
                None
            } else {
                Some(p)
            }
        } else {
            None
        }
    }

    /// Whether `id` is one of the text lines.
    pub fn is_text_line(&self, id: LineId) -> (r: bool)
        requires
            self.wf(),
        ensures
            r == self.has_line(id.0),
    {
        if id.0 == 0 || id.0 >= self.lines.len() {
            return false;
        }
        let p = self.lines[id.0].prev;
        if p.0 >= self.lines.len() {
            return false;
        }
        let r = self.lines[p.0].next.0 == id.0;
        proof {
            let order = self.order@;
            if self.has_line(id.0) {
                let k = choose|k: int| 0 <= k < order.len() && order[k] == id.0;
                assert(self.lines@[order[k] as int].prev.0 == pred_of(order, k));
                if k > 0 {
                    assert(self.lines@[order[k - 1] as int].next.0 == succ_of(order, k - 1));
                }
            } else {
                assert(self.lines@[id.0 as int].prev.0 == 0);
                if order.len() > 0 {
                    assert(order[0] != id.0);
                }
            }
        }
        r
    }
    /// Puts `line` into the ring right after `after` (the header puts it first) and returns
    /// its arena index, which is the first unused one.
    #[verifier::rlimit(40)]
    pub fn insert_after(&mut self, after: LineId, line: Line) -> (id: LineId)
        requires
            old(self).wf(),
            after.0 == 0 || old(self).has_line(after.0),
            old(self).lines@.len() < usize::MAX,
        ensures
            final(self).wf(),
            id.0 == old(self).lines@.len(),
            final(self).lines@.len() == old(self).lines@.len() + 1,
            final(self).text_of(id.0) == line.text@,
            forall|i: int|
                0 <= i < old(self).lines@.len() ==> #[trigger] final(self).text_of(i as usize)
                    == old(self).text_of(i as usize),
            after.0 == 0 ==> final(self).ids() == old(self).ids().insert(0, id.0),
            forall|k: int|
                0 <= k < old(self).ids().len() && #[trigger] old(self).ids()[k] == after.0
                    ==> final(self).ids() == old(self).ids().insert(k + 1, id.0),
            final(self).id == old(self).id,
            final(self).name@ == old(self).name@,
            final(self).filename@ == old(self).filename@,
            final(self).flags == old(self).flags,
            final(self).mode == old(self).mode,
    {
        let ghost order = self.order@;
        let ghost pos: int = if after.0 == 0 {
            0
        } else {
            order.index_of(after.0) + 1
        };
        proof {
            if after.0 != 0 {
                assert(order.contains(after.0));
                assert(0 <= order.index_of(after.0) < order.len());
            }
            assert(forall|k: int| 0 <= k < order.len() && order[k] == after.0 ==> k + 1 == pos);
        }
        let nid = self.lines.len();
        let nxt = self.lines[after.0].next;
        let Line { text, .. } = line;
        self.lines.push(Line { next: nxt, prev: after, text });
        self.lines[after.0].next = LineId(nid);
        self.lines[nxt.0].prev = LineId(nid);
        let ghost new_order = order.insert(pos, nid);
        self.order = Ghost(new_order);
        proof {
            order.insert_ensures(pos, nid);
            assert(nxt.0 == (if pos < order.len() { order[pos] } else { 0 }));
            assert forall|k: int| 0 <= k < new_order.len() implies 0 < #[trigger] new_order[k]
                < self.lines@.len() by {
                if k < pos {
                } else if k > pos {
                    assert(new_order[k] == order[k - 1]);
                }
            }
            assert forall|a: int, b: int|
                0 <= a < new_order.len() && 0 <= b < new_order.len() && a != b implies new_order[a]
                != new_order[b] by {
                if a != pos && b != pos {
                    let oa = if a < pos { a } else { a - 1 };
                    let ob = if b < pos { b } else { b - 1 };
                    assert(new_order[a] == order[oa]);
                    assert(new_order[b] == order[ob]);
                } else if a == pos {
                    let ob = if b < pos { b } else { b - 1 };
                    assert(new_order[b] == order[ob]);
                } else {
                    let oa = if a < pos { a } else { a - 1 };
                    assert(new_order[a] == order[oa]);
                }
            }
            assert forall|k: int| 0 <= k < new_order.len() implies (
            #[trigger] self.lines@[new_order[k] as int]).next.0 == succ_of(new_order, k)
                && self.lines@[new_order[k] as int].prev.0 == pred_of(new_order, k) by {
                if k < pos {
                    assert(new_order[k] == order[k]);
                    assert(self.lines@[order[k] as int] == old(self).lines@[order[k] as int]
                        || order[k] == after.0 || order[k] == nxt.0);
                    if k + 1 < pos {
                        assert(new_order[k + 1] == order[k + 1]);
                    }
                    if k > 0 {
                        assert(new_order[k - 1] == order[k - 1]);
                    }
                } else if k > pos {
                    assert(new_order[k] == order[k - 1]);
                    if k + 1 < new_order.len() {
                        assert(new_order[k + 1] == order[k]);
                    }
                    if k - 1 > pos {
                        assert(new_order[k - 1] == order[k - 2]);
                    }
                } else {
                    if k + 1 < new_order.len() {
                        assert(new_order[k + 1] == order[k]);
                    }
                    if k > 0 {
                        assert(new_order[k - 1] == order[k - 1]);
                    }
                }
            }
            assert forall|i: int|
                0 < i < self.lines@.len() && !new_order.contains(i as usize) implies (
            #[trigger] self.lines@[i]).next.0 == 0 && self.lines@[i].prev.0 == 0 by {
                assert(i != nid);
                if order.contains(i as usize) {
                    let k = choose|k: int| 0 <= k < order.len() && order[k] == i as usize;
                    let nk = if k < pos { k } else { k + 1 };
                    assert(new_order[nk] == i as usize);
                }
                assert(i != after.0);
                assert(i != nxt.0);
            }
            assert forall|i: int| 0 <= i < old(self).lines@.len() implies #[trigger] self.text_of(
                i as usize,
            ) == old(self).text_of(i as usize) by {}
            assert forall|k: int|
                0 <= k < order.len() && #[trigger] order[k] == after.0 implies new_order
                == order.insert(k + 1, nid) by {}
        }
        LineId(nid)
    }
    /// Takes text line `id` out of the ring; its bytes stay in the arena and both its links
    /// point at the header afterwards.  Anything that is not a text line is left alone.
    #[verifier::rlimit(40)]
    pub fn remove(&mut self, id: LineId)
        requires
            old(self).wf(),
        ensures
            final(self).wf(),
            final(self).lines@.len() == old(self).lines@.len(),
            forall|i: int|
                0 <= i < old(self).lines@.len() ==> #[trigger] final(self).text_of(i as usize)
                    == old(self).text_of(i as usize),
            forall|k: int|
                0 <= k < old(self).ids().len() && #[trigger] old(self).ids()[k] == id.0
                    ==> final(self).ids() == old(self).ids().remove(k),
            !old(self).has_line(id.0) ==> final(self).ids() == old(self).ids(),
            final(self).id == old(self).id,
            final(self).name@ == old(self).name@,
            final(self).filename@ == old(self).filename@,
            final(self).flags == old(self).flags,
            final(self).mode == old(self).mode,
    {
        if !self.is_text_line(id) {
            return;
        }
        let ghost order = self.order@;
        let ghost k = order.index_of(id.0);
        assert(order.contains(id.0));
        assert(order[k] == id.0);
        let p = self.lines[id.0].prev;
        let n = self.lines[id.0].next;
        self.lines[p.0].next = n;
        self.lines[n.0].prev = p;
        self.lines[id.0].next = LineId(0);
        self.lines[id.0].prev = LineId(0);
        let ghost new_order = order.remove(k);
        self.order = Ghost(new_order);
        proof {
            order.remove_ensures(k);
            assert(p.0 == pred_of(order, k));
            assert(n.0 == succ_of(order, k));
            assert forall|a: int| 0 <= a < new_order.len() implies 0 < #[trigger] new_order[a]
                < self.lines@.len() by {
                if a >= k {
                    assert(new_order[a] == order[a + 1]);
                }
            }
            assert forall|a: int, b: int|
                0 <= a < new_order.len() && 0 <= b < new_order.len() && a != b implies new_order[a]
                != new_order[b] by {
                let oa = if a < k { a } else { a + 1 };
                let ob = if b < k { b } else { b + 1 };
                assert(new_order[a] == order[oa]);
                assert(new_order[b] == order[ob]);
            }
            assert forall|a: int| 0 <= a < new_order.len() implies (
            #[trigger] self.lines@[new_order[a] as int]).next.0 == succ_of(new_order, a)
                && self.lines@[new_order[a] as int].prev.0 == pred_of(new_order, a) by {
                let oa = if a < k { a } else { a + 1 };
                assert(new_order[a] == order[oa]);
                assert(order[oa] != id.0);
                if a + 1 < new_order.len() {
                    let ob = if a + 1 < k { a + 1 } else { a + 2 };
                    assert(new_order[a + 1] == order[ob]);
                }
                if a > 0 {
                    let ob = if a - 1 < k { a - 1 } else { a };
                    assert(new_order[a - 1] == order[ob]);
                }
            }
            assert forall|i: int|
                0 < i < self.lines@.len() && !new_order.contains(i as usize) implies (
            #[trigger] self.lines@[i]).next.0 == 0 && self.lines@[i].prev.0 == 0 by {
                if i != id.0 {
                    if order.contains(i as usize) {
                        let j = choose|j: int| 0 <= j < order.len() && order[j] == i as usize;
                        assert(order[j] != order[k]);
                        let nj = if j < k { j } else { j - 1 };
                        assert(new_order[nj] == i as usize);
                    }
                    assert(i != p.0 || p.0 == 0);
                    assert(i != n.0 || n.0 == 0);
                }
            }
            if new_order.len() > 0 {
                if k == 0 {
                    assert(new_order[0] == order[1]);
                }
                if k == order.len() - 1 {
                    assert(new_order[new_order.len() - 1] == order[order.len() - 2]);
                } else {
                    assert(new_order[new_order.len() - 1] == order[order.len() - 1]);
                }
            }
            assert forall|j: int|
                0 <= j < order.len() && #[trigger] order[j] == id.0 implies new_order == order.remove(
                j,
            ) by {}
        }
    }

    /// Whether the buffer has no text lines.
    pub fn is_empty(&self) -> (r: bool)
        requires
            self.wf(),
        ensures
            r == (self.ids().len() == 0),
    {
        self.lines[0].next.0 == 0
    }

    /// The number of text lines.
    pub fn line_count(&self) -> (r: usize)
        requires
            self.wf(),
        ensures
            r == self.ids().len(),
    {
        let ghost order = self.order@;
        let total = self.lines.len();
        let mut count: usize = 0;
        let mut cur = self.lines[0].next;
        while cur.0 != 0
            invariant
                self.wf(),
                order == self.order@,
                total == self.lines@.len(),
                count <= order.len(),
                cur.0 == (if count < order.len() {
                    order[count as int]
                } else {
                    0
                }),
            decreases order.len() - count,
        {
            assert(self.lines@[order[count as int] as int].next.0 == succ_of(order, count as int));
            cur = self.lines[cur.0].next;
            count = count + 1;
        }
        count
    }

    /// The `n`-th text line, counting from zero.
    pub fn nth_line(&self, n: usize) -> (r: Option<LineId>)
        requires
            self.wf(),
        ensures
            n < self.ids().len() ==> r == Some(LineId(self.ids()[n as int])),
            n >= self.ids().len() ==> r == None::<LineId>,
    {
        let ghost order = self.order@;
        let mut count: usize = 0;
        let mut cur = self.lines[0].next;
        while cur.0 != 0
            invariant
                self.wf(),
                order == self.order@,
                count <= order.len(),
                count <= n,
                cur.0 == (if count < order.len() {
                    order[count as int]
                } else {
                    0
                }),
            decreases order.len() - count,
        {
            if count == n {
                return Some(cur);
            }
            assert(self.lines@[order[count as int] as int].next.0 == succ_of(order, count as int));
            cur = self.lines[cur.0].next;
            count = count + 1;
        }
        None
    }

    /// Marks the buffer as unchanged, once its text is written out.
    pub fn mark_unchanged(&mut self)
        ensures
            *final(self) == (Buffer { flags: BufferFlags(old(self).flags.0 & !BufferFlags::changed().0), ..*old(self) }),
    {
        self.flags = self.flags.without(BufferFlags::changed());
    }

    /// Drops every line; the header line is left empty.
    pub fn clear(&mut self)
        ensures
            final(self).wf(),
            final(self).ids() == Seq::<usize>::empty(),
            final(self).lines@.len() == 1,
            final(self).text_of(0) == Seq::<u8>::empty(),
            final(self).id == old(self).id,
            final(self).name@ == old(self).name@,
            final(self).filename@ == old(self).filename@,
            final(self).flags == old(self).flags,
            final(self).mode == old(self).mode,
    {
        let mut lines: Vec<Line> = Vec::new();
        lines.push(Line::new());
        self.lines = lines;
        self.head = LineId(0);
        self.order = Ghost(Seq::empty());
    }
    /// This buffer differs from `before` at most in the bytes of arena line `id`,
    /// which are now `t` (nothing changes when `id` is outside the arena).
    pub open spec fn edited_from(&self, before: &Buffer, id: usize, t: Seq<u8>) -> bool {
        &&& self.same_links(before)
        &&& id < before.lines@.len() ==> self.text_of(id) == t
        &&& forall|i: int|
            0 <= i < self.lines@.len() && i != id ==> #[trigger] self.text_of(i as usize)
                == before.text_of(i as usize)
        &&& id >= before.lines@.len() ==> self.lines@ == before.lines@
    }

    /// Changing only bytes keeps the links well formed.
    pub proof fn lemma_same_links_wf(&self, before: &Buffer)
        requires
            before.wf(),
            self.same_links(before),
        ensures
            self.wf(),
    {
        let order = self.order@;
        assert forall|k: int| 0 <= k < order.len() implies (#[trigger] self.lines@[order[k] as int]).next.0
            == succ_of(order, k) && self.lines@[order[k] as int].prev.0 == pred_of(order, k) by {
            assert(before.lines@[order[k] as int].next.0 == succ_of(order, k));
        }
        assert forall|i: int| 0 < i < self.lines@.len() && !order.contains(i as usize) implies (
        #[trigger] self.lines@[i]).next.0 == 0 && self.lines@[i].prev.0 == 0 by {
            assert(before.lines@[i].next.0 == 0);
        }
        assert(self.lines@[0].next == before.lines@[0].next);
    }

    /// Replaces the bytes of arena line `id`.
    pub fn set_line_text(&mut self, id: LineId, text: Vec<u8>)
        requires
            old(self).wf(),
        ensures
            final(self).wf(),
            final(self).edited_from(&*old(self), id.0, text@),
    {
        if id.0 < self.lines.len() {
            self.lines[id.0].text = text;
        }
        proof {
            self.lemma_same_links_wf(&*old(self));
        }
    }

    /// Puts `bytes` into arena line `id` at `offset`; fails when there is no such line or
    /// the offset is past its end.
    pub fn insert_bytes_at(&mut self, id: LineId, offset: usize, bytes: &[u8]) -> (r: crate::types::Result<()>)
        requires
            old(self).wf(),
        ensures
            final(self).wf(),
            id.0 < old(self).lines@.len() && offset <= old(self).text_of(id.0).len() ==> r is Ok
                && final(self).edited_from(
                &*old(self),
                id.0,
                crate::line::spliced_in(old(self).text_of(id.0), offset as int, bytes@),
            ),
            !(id.0 < old(self).lines@.len() && offset <= old(self).text_of(id.0).len()) ==> r
                is Err && *final(self) == *old(self),
    {
        if id.0 >= self.lines.len() || offset > self.lines[id.0].text.len() {
            return Err(crate::types::Error::Abort);
        }
        let r = self.lines[id.0].insert_bytes(offset, bytes);
        proof {
            self.lemma_same_links_wf(&*old(self));
        }
        r
    }

    /// Takes up to `count` bytes out of arena line `id` from `offset`, clamped to its end.
    pub fn delete_bytes_at(&mut self, id: LineId, offset: usize, count: usize)
        requires
            old(self).wf(),
        ensures
            final(self).wf(),
            final(self).edited_from(
                &*old(self),
                id.0,
                crate::line::cut_out(old(self).text_of(id.0), offset as int, count as int),
            ),
    {
        if id.0 < self.lines.len() {
            self.lines[id.0].delete_bytes(offset, count);
        }
        proof {
            self.lemma_same_links_wf(&*old(self));
        }
    }

    /// Overwrites one byte of arena line `id`; an offset past the end changes nothing.
    pub fn put_byte_at(&mut self, id: LineId, offset: usize, byte: u8)
        requires
            old(self).wf(),
        ensures
            final(self).wf(),
            final(self).edited_from(
                &*old(self),
                id.0,
                if offset < old(self).text_of(id.0).len() {
                    old(self).text_of(id.0).update(offset as int, byte)
                } else {
                    old(self).text_of(id.0)
                },
            ),
    {
        if id.0 < self.lines.len() {
            self.lines[id.0].put_byte(offset, byte);
        }
        proof {
            self.lemma_same_links_wf(&*old(self));
        }
    }

    /// Adds `bytes` to the end of arena line `id`.
    pub fn append_to_line(&mut self, id: LineId, bytes: &[u8])
        requires
            old(self).wf(),
        ensures
            final(self).wf(),
            final(self).edited_from(&*old(self), id.0, old(self).text_of(id.0) + bytes@),
    {
        if id.0 < self.lines.len() {
            let end = self.lines[id.0].text.len();
            let _ = self.lines[id.0].insert_bytes(end, bytes);
            assert(old(self).text_of(id.0).skip(end as int) =~= Seq::<u8>::empty());
            assert(old(self).text_of(id.0).take(end as int) =~= old(self).text_of(id.0));
            assert(self.text_of(id.0) =~= old(self).text_of(id.0) + bytes@);
        }
        proof {
            self.lemma_same_links_wf(&*old(self));
        }
    }

    /// Cuts the text line (or header) `line` at `offset`; the tail becomes a new line right
    /// after it, whose arena index is returned.
    pub fn split_line(&mut self, line: LineId, offset: usize) -> (id: LineId)
        requires
            old(self).wf(),
            line.0 == 0 || old(self).has_line(line.0),
            offset <= old(self).text_of(line.0).len(),
            old(self).lines@.len() < usize::MAX,
        ensures
            final(self).wf(),
            id.0 == old(self).lines@.len(),
            final(self).lines@.len() == old(self).lines@.len() + 1,
            final(self).text_of(line.0) == old(self).text_of(line.0).take(offset as int),
            final(self).text_of(id.0) == old(self).text_of(line.0).skip(offset as int),
            forall|i: int|
                0 <= i < old(self).lines@.len() && i != line.0 ==> #[trigger] final(self).text_of(
                    i as usize,
                ) == old(self).text_of(i as usize),
            line.0 == 0 ==> final(self).ids() == old(self).ids().insert(0, id.0),
            forall|k: int|
                0 <= k < old(self).ids().len() && #[trigger] old(self).ids()[k] == line.0
                    ==> final(self).ids() == old(self).ids().insert(k + 1, id.0),
            final(self).id == old(self).id,
            final(self).name@ == old(self).name@,
            final(self).filename@ == old(self).filename@,
            final(self).flags == old(self).flags,
            final(self).mode == old(self).mode,
    {
        let tail = self.lines[line.0].split_off(offset);
        proof {
            self.lemma_same_links_wf(&*old(self));
        }
        let ghost head_part = self.text_of(line.0);
        let ghost mid_ids = self.ids();
        let id = self.insert_after(line, tail);
        assert(self.text_of((line.0 as int) as usize) == head_part);
        assert forall|k: int|
            0 <= k < old(self).ids().len() && #[trigger] old(self).ids()[k] == line.0 implies self.ids()
            == old(self).ids().insert(k + 1, id.0) by {
            assert(mid_ids[k] == line.0);
        }
        id
    }
}

} // verus!
