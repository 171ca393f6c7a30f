use crate::types::{BufferId, LineId, LineOffset, WindowFlags, WindowId};
use vstd::prelude::*;

verus! {

/// A view onto a buffer: which lines are on screen, where the cursor (dot) and the
/// mark are, and what needs redrawing.
#[derive(Clone, Copy, PartialEq, Eq, Debug, Structural)]
pub struct Window {
    pub id: WindowId,
    pub buffer_id: BufferId,
    pub top_line: LineId,
    pub dot_line: LineId,
    pub dot_offset: LineOffset,
    pub mark_line: Option<LineId>,
    pub mark_offset: LineOffset,
    pub top_row: usize,
    pub n_rows: usize,
    pub force: i8,
    pub flags: WindowFlags,
}

/// A fresh window on `buffer_id` showing `top_line` first, with the dot there and no mark.
pub open spec fn fresh_window(id: WindowId, buffer_id: BufferId, top_line: LineId) -> Window {
    Window {
        id,
        buffer_id,
        top_line,
        dot_line: top_line,
        dot_offset: LineOffset(0),
        mark_line: None,
        mark_offset: LineOffset(0),
        top_row: 0,
        n_rows: 0,
        force: 0,
        flags: WindowFlags(0),
    }
}

impl Window {
    pub fn new(id: WindowId, buffer_id: BufferId, top_line: LineId) -> (w: Self)
        ensures
            w == fresh_window(id, buffer_id, top_line),
    {
        Window {
            id,
            buffer_id,
            top_line,
            dot_line: top_line,
            dot_offset: LineOffset(0),
            mark_line: None,
            mark_offset: LineOffset(0),
            top_row: 0,
            n_rows: 0,
            force: 0,
            flags: WindowFlags(0),
        }
    }

    pub fn dot(&self) -> (r: (LineId, LineOffset))
        ensures
            r == (self.dot_line, self.dot_offset),
    {
        (self.dot_line, self.dot_offset)
    }

    pub fn set_dot(&mut self, line: LineId, offset: LineOffset)
        ensures
            *final(self) == (Window { dot_line: line, dot_offset: offset, ..*old(self) }),
    {
        self.dot_line = line;
        self.dot_offset = offset;
    }

    pub fn mark(&self) -> (r: Option<(LineId, LineOffset)>)
        ensures
            r == (match self.mark_line {
                Some(l) => Some((l, self.mark_offset)),
                None => None::<(LineId, LineOffset)>,
            }),
    {
        match self.mark_line {
            Some(l) => Some((l, self.mark_offset)),
            None => None,
        }
    }

    pub fn set_mark(&mut self, line: LineId, offset: LineOffset)
        ensures
            *final(self) == (Window { mark_line: Some(line), mark_offset: offset, ..*old(self) }),
    {
        self.mark_line = Some(line);
        self.mark_offset = offset;
    }

    pub fn clear_mark(&mut self)
        ensures
            *final(self) == (Window {
                mark_line: None::<LineId>,
                mark_offset: LineOffset(0),
                ..*old(self)
            }),
    {
        self.mark_line = None;
        self.mark_offset = LineOffset(0);
    }

    pub fn set_flag(&mut self, flag: WindowFlags)
        ensures
            *final(self) == (Window { flags: WindowFlags(old(self).flags.0 | flag.0), ..*old(self) }),
    {
        self.flags = self.flags.union(flag);
    }

    pub fn clear_flag(&mut self, flag: WindowFlags)
        ensures
            *final(self) == (Window {
                flags: WindowFlags(old(self).flags.0 & !flag.0),
                ..*old(self)
            }),
    {
        self.flags = self.flags.without(flag);
    }

    pub fn has_flag(&self, flag: WindowFlags) -> (r: bool)
        ensures
            r == (self.flags.0 & flag.0 != 0),
    {
        self.flags.intersects(flag)
    }

    pub fn clear_flags(&mut self)
        ensures
            *final(self) == (Window { flags: WindowFlags(0), ..*old(self) }),
    {
        self.flags = WindowFlags(0);
    }
}

/// The windows on screen, top to bottom, and which one is current.
pub struct Windows {
    items: Vec<Window>,
    next_id: usize,
    current: Option<WindowId>,
}

impl Windows {
    /// The windows, top to bottom.
    pub closed spec fn seq(&self) -> Seq<Window> {
        self.items@
    }

    /// The identifier the next created window gets.
    pub closed spec fn next_id_spec(&self) -> usize {
        self.next_id
    }

    /// The identifier of the current window, if any.
    pub closed spec fn current_id(&self) -> Option<WindowId> {
        self.current
    }

    /// Identifiers grow strictly from top to bottom and stay below `next_id`; the current
    /// window exists exactly when there is a window at all.
    pub closed spec fn wf(&self) -> bool {
        let items = self.items@;
        &&& forall|i: int, j: int|
            0 <= i < j < items.len() ==> (#[trigger] items[i]).id.0 < (#[trigger] items[j]).id.0
        &&& forall|i: int| 0 <= i < items.len() ==> (#[trigger] items[i]).id.0 < self.next_id
        &&& (self.current is Some <==> items.len() > 0)
        &&& self.current matches Some(c) ==> exists|i: int|
            0 <= i < items.len() && (#[trigger] items[i]).id == c
    }

    /// The position of the window with identifier `id`.
    pub open spec fn index_of(&self, id: WindowId) -> Option<int> {
        if exists|i: int| 0 <= i < self.seq().len() && (#[trigger] self.seq()[i]).id == id {
            Some(choose|i: int| 0 <= i < self.seq().len() && (#[trigger] self.seq()[i]).id == id)
        } else {
            None
        }
    }

    /// The position of the current window.
    pub open spec fn cur_index(&self) -> Option<int> {
        match self.current_id() {
            Some(c) => self.index_of(c),
            None => None,
        }
    }

    /// There is a current window exactly when there are windows, and it is one of them.
    pub proof fn lemma_current_exists(&self)
        requires
            self.wf(),
        ensures
            self.cur_index() is Some <==> self.seq().len() > 0,
            self.cur_index() matches Some(i) ==> 0 <= i < self.seq().len() && self.seq()[i].id
                == self.current_id().unwrap(),
    {
        if let Some(c) = self.current {
            let i = choose|i: int| 0 <= i < self.items@.len() && (#[trigger] self.items@[i]).id == c;
            assert(self.seq()[i].id == c);
        }
    }

    /// Every window's identifier is below the one the next window gets.
    pub proof fn lemma_next_id_fresh(&self)
        requires
            self.wf(),
        ensures
            forall|j: int| 0 <= j < self.seq().len() ==> (#[trigger] self.seq()[j]).id.0 < self.next_id_spec(),
    {
    }

    /// Two positions holding the same identifier are the same position.
    pub proof fn lemma_unique_ids(&self, i: int, j: int)
        requires
            self.wf(),
            0 <= i < self.seq().len(),
            0 <= j < self.seq().len(),
            self.seq()[i].id == self.seq()[j].id,
        ensures
            i == j,
    {
        if i < j {
            assert(self.items@[i].id.0 < self.items@[j].id.0);
        } else if j < i {
            assert(self.items@[j].id.0 < self.items@[i].id.0);
        }
    }

    /// `index_of` finds exactly the position holding the identifier.
    pub proof fn lemma_index_of(&self, i: int)
        requires
            self.wf(),
            0 <= i < self.seq().len(),
        ensures
            self.index_of(self.seq()[i].id) == Some(i),
    {
        let id = self.seq()[i].id;
        let j = choose|j: int| 0 <= j < self.seq().len() && (#[trigger] self.seq()[j]).id == id;
        self.lemma_unique_ids(i, j);
    }

    pub fn new() -> (ws: Self)
        ensures
            ws.wf(),
            ws.seq() == Seq::<Window>::empty(),
            ws.next_id_spec() == 0,
            ws.current_id() == None::<WindowId>,
    {
        Windows { items: Vec::new(), next_id: 0, current: None }
    }

    fn find(&self, id: WindowId) -> (r: Option<usize>)
        requires
            self.wf(),
        ensures
            r matches Some(i) ==> i < self.seq().len() && self.seq()[i as int].id == id
                && self.index_of(id) == Some(i as int),
            r is None ==> self.index_of(id) is None,
    {
        let mut i: usize = 0;
        while i < self.items.len()
            invariant
                self.wf(),
                i <= self.items@.len(),
                forall|j: int| 0 <= j < i ==> (#[trigger] self.items@[j]).id != id,
            decreases self.items@.len() - i,
        {
            if self.items[i].id == id {
                proof {
                    self.lemma_index_of(i as int);
                }
                return Some(i);
            }
            i = i + 1;
        }
        None
    }

    /// Adds a window below the others and returns a copy of it; it becomes current only
    /// when there was none.
    pub fn create(&mut self, buffer_id: BufferId, top_line: LineId) -> (w: Window)
        requires
            old(self).wf(),
            old(self).next_id_spec() < usize::MAX,
        ensures
            w == fresh_window(WindowId(old(self).next_id_spec()), buffer_id, top_line),
            final(self).wf(),
            final(self).seq() == old(self).seq().push(w),
            final(self).next_id_spec() == old(self).next_id_spec() + 1,
            final(self).current_id() == (match old(self).current_id() {
                Some(c) => Some(c),
                None => Some(WindowId(old(self).next_id_spec())),
            }),
    {
        let id = WindowId(self.next_id);
        self.next_id = self.next_id + 1;
        self.items.push(Window::new(id, buffer_id, top_line));
        if self.current.is_none() {
            self.current = Some(id);
        }
        proof {
            let items = self.items@;
            let olds = old(self).items@;
            assert(items[items.len() - 1].id == id);
            assert forall|a: int| 0 <= a < olds.len() implies items[a] == olds[a] by {}
            assert forall|a: int, b: int| 0 <= a < b < items.len() implies (
            #[trigger] items[a]).id.0 < (#[trigger] items[b]).id.0 by {
                if b < olds.len() {
                    assert(olds[a].id.0 < olds[b].id.0);
                } else {
                    assert(olds[a].id.0 < old(self).next_id);
                }
            }
            assert forall|a: int| 0 <= a < items.len() implies (#[trigger] items[a]).id.0
                < self.next_id by {
                if a < olds.len() {
                    assert(olds[a].id.0 < old(self).next_id);
                }
            }
            if let Some(c) = old(self).current {
                let i = choose|i: int| 0 <= i < old(self).items@.len() && (#[trigger] old(
                    self,
                ).items@[i]).id == c;
                assert(items[i] == old(self).items@[i]);
            }
        }
        let last = self.items.len() - 1;
        self.items[last]
    }

    pub fn current(&self) -> (r: Option<&Window>)
        requires
            self.wf(),
        ensures
            r == (match self.cur_index() {
                Some(i) => Some(&self.seq()[i]),
                None => None::<&Window>,
            }),
    {
        match self.current {
            Some(id) => self.get(id),
            None => None,
        }
    }

    pub fn current_mut(&mut self) -> (r: Option<&mut Window>)
        requires
            old(self).wf(),
        ensures
            match old(self).cur_index() {
                Some(i) => r is Some && *r->0 == old(self).seq()[i] && final(self).seq() == old(
                    self,
                ).seq().update(i, *final(r->0)) && final(self).current_id() == old(self).current_id()
                    && final(self).next_id_spec() == old(self).next_id_spec(),
                None => r is None && final(self).seq() == old(self).seq() && final(self).current_id()
                    == old(self).current_id() && final(self).next_id_spec() == old(
                    self,
                ).next_id_spec(),
            },
    {
        match self.current {
            Some(id) => self.get_mut(id),
            None => None,
        }
    }

    /// Makes window `id` current; fails, changing nothing, when there is no such window.
    pub fn set_current(&mut self, id: WindowId) -> (r: bool)
        requires
            old(self).wf(),
        ensures
            final(self).wf(),
            r == (old(self).index_of(id) is Some),
            final(self).seq() == old(self).seq(),
            final(self).next_id_spec() == old(self).next_id_spec(),
            final(self).current_id() == (if r {
                Some(id)
            } else {
                old(self).current_id()
            }),
    {
        if self.find(id).is_some() {
            self.current = Some(id);
            true
        } else {
            false
        }
    }

    pub fn get(&self, id: WindowId) -> (r: Option<&Window>)
        requires
            self.wf(),
        ensures
            r == (match self.index_of(id) {
                Some(i) => Some(&self.seq()[i]),
                None => None::<&Window>,
            }),
    {
        match self.find(id) {
            Some(i) => Some(&self.items[i]),
            None => None,
        }
    }

    pub fn get_mut(&mut self, id: WindowId) -> (r: Option<&mut Window>)
        requires
            old(self).wf(),
        ensures
            match old(self).index_of(id) {
                Some(i) => r is Some && *r->0 == old(self).seq()[i] && final(self).seq() == old(
                    self,
                ).seq().update(i, *final(r->0)) && final(self).current_id() == old(self).current_id()
                    && final(self).next_id_spec() == old(self).next_id_spec(),
                None => r is None && final(self).seq() == old(self).seq() && final(self).current_id()
                    == old(self).current_id() && final(self).next_id_spec() == old(
                    self,
                ).next_id_spec(),
            },
    {
        match self.find(id) {
            Some(i) => Some(&mut self.items[i]),
            None => None,
        }
    }

    /// The topmost window showing `buffer_id`.
    pub fn find_by_buffer(&self, buffer_id: BufferId) -> (r: Option<&Window>)
        ensures
            match r {
                Some(w) => exists|i: int|
                    0 <= i < self.seq().len() && *w == self.seq()[i] && w.buffer_id == buffer_id
                        && forall|j: int|
                        0 <= j < i ==> (#[trigger] self.seq()[j]).buffer_id != buffer_id,
                None => forall|j: int|
                    0 <= j < self.seq().len() ==> (#[trigger] self.seq()[j]).buffer_id != buffer_id,
            },
    {
        let mut i: usize = 0;
        while i < self.items.len()
            invariant
                i <= self.items@.len(),
                forall|j: int| 0 <= j < i ==> (#[trigger] self.items@[j]).buffer_id != buffer_id,
            decreases self.items@.len() - i,
        {
            if self.items[i].buffer_id == buffer_id {
                return Some(&self.items[i]);
            }
            i = i + 1;
        }
        None
    }

    /// The windows, top to bottom.
    pub fn as_slice(&self) -> (r: &[Window])
        ensures
            r@ == self.seq(),
    {
        self.items.as_slice()
    }

    /// Replaces the window at position `i`, keeping its identifier.
    pub fn set_at(&mut self, i: usize, w: Window)
        requires
            old(self).wf(),
            i < old(self).seq().len(),
            w.id == old(self).seq()[i as int].id,
        ensures
            final(self).wf(),
            final(self).seq() == old(self).seq().update(i as int, w),
            final(self).current_id() == old(self).current_id(),
            final(self).next_id_spec() == old(self).next_id_spec(),
    {
        self.items.set(i, w);
        proof {
            let items = self.items@;
            assert forall|a: int, b: int| 0 <= a < b < items.len() implies (
            #[trigger] items[a]).id.0 < (#[trigger] items[b]).id.0 by {
                assert(old(self).items@[a].id.0 < old(self).items@[b].id.0);
            }
            assert forall|a: int| 0 <= a < items.len() implies (#[trigger] items[a]).id.0
                < self.next_id by {
                assert(old(self).items@[a].id.0 < self.next_id);
            }
            if let Some(c) = self.current {
                let j = choose|j: int| 0 <= j < old(self).items@.len() && (#[trigger] old(
                    self,
                ).items@[j]).id == c;
                assert(items[j].id == c);
            }
        }
    }

    /// The identifier the next created window gets.
    pub fn next_id(&self) -> (r: usize)
        ensures
            r == self.next_id_spec(),
    {
        self.next_id
    }

    /// Keeps only the window at position `i`, which becomes current.
    pub fn keep_only(&mut self, i: usize)
        requires
            old(self).wf(),
            i < old(self).seq().len(),
        ensures
            final(self).wf(),
            final(self).seq() == seq![old(self).seq()[i as int]],
            final(self).current_id() == Some(old(self).seq()[i as int].id),
            final(self).next_id_spec() == old(self).next_id_spec(),
    {
        let w = self.items[i];
        let mut items: Vec<Window> = Vec::new();
        items.push(w);
        self.items = items;
        self.current = Some(w.id);
        proof {
            assert(self.items@[0] == w);
        }
    }

    /// Adds the bits of `flag` to every window.
    pub fn flag_all(&mut self, flag: WindowFlags)
        requires
            old(self).wf(),
        ensures
            final(self).wf(),
            final(self).seq().len() == old(self).seq().len(),
            forall|k: int|
                0 <= k < old(self).seq().len() ==> #[trigger] final(self).seq()[k] == (Window {
                    flags: WindowFlags(old(self).seq()[k].flags.0 | flag.0),
                    ..old(self).seq()[k]
                }),
            final(self).current_id() == old(self).current_id(),
            final(self).next_id_spec() == old(self).next_id_spec(),
    {
        let mut k: usize = 0;
        while k < self.items.len()
            invariant
                self.wf(),
                k <= self.items@.len(),
                self.items@.len() == old(self).items@.len(),
                self.current == old(self).current,
                self.next_id == old(self).next_id,
                forall|j: int|
                    0 <= j < k ==> #[trigger] self.items@[j] == (Window {
                        flags: WindowFlags(old(self).items@[j].flags.0 | flag.0),
                        ..old(self).items@[j]
                    }),
                forall|j: int| k <= j < self.items@.len() ==> #[trigger] self.items@[j] == old(self).items@[j],
            decreases self.items@.len() - k,
        {
            let mut w = self.items[k];
            w.set_flag(flag);
            self.set_at(k, w);
            k += 1;
        }
    }

    /// Adds the bits of `flag` to every window that shows buffer `buffer_id`.
    pub fn flag_showing(&mut self, buffer_id: BufferId, flag: WindowFlags)
        requires
            old(self).wf(),
        ensures
            final(self).wf(),
            final(self).seq().len() == old(self).seq().len(),
            forall|k: int|
                0 <= k < old(self).seq().len() ==> #[trigger] final(self).seq()[k] == (if old(
                    self,
                ).seq()[k].buffer_id == buffer_id {
                    Window { flags: WindowFlags(old(self).seq()[k].flags.0 | flag.0), ..old(self).seq()[k] }
                } else {
                    old(self).seq()[k]
                }),
            final(self).current_id() == old(self).current_id(),
            final(self).next_id_spec() == old(self).next_id_spec(),
    {
        let mut k: usize = 0;
        while k < self.items.len()
            invariant
                self.wf(),
                k <= self.items@.len(),
                self.items@.len() == old(self).items@.len(),
                self.current == old(self).current,
                self.next_id == old(self).next_id,
                forall|j: int|
                    0 <= j < k ==> #[trigger] self.items@[j] == (if old(self).items@[j].buffer_id
                        == buffer_id {
                        Window { flags: WindowFlags(old(self).items@[j].flags.0 | flag.0), ..old(self).items@[j] }
                    } else {
                        old(self).items@[j]
                    }),
                forall|j: int| k <= j < self.items@.len() ==> #[trigger] self.items@[j] == old(self).items@[j],
            decreases self.items@.len() - k,
        {
            let mut w = self.items[k];
            if w.buffer_id == buffer_id {
                w.set_flag(flag);
                self.set_at(k, w);
            }
            k += 1;
        }
    }

    /// Takes window `id` off the screen and returns it.  When it was current, the topmost
    /// remaining window becomes current.
    pub fn remove(&mut self, id: WindowId) -> (r: Option<Window>)
        requires
            old(self).wf(),
        ensures
            final(self).wf(),
            final(self).next_id_spec() == old(self).next_id_spec(),
            match old(self).index_of(id) {
                Some(i) => r == Some(old(self).seq()[i]) && final(self).seq() == old(
                    self,
                ).seq().remove(i) && final(self).current_id() == (if old(self).current_id()
                    == Some(id) {
                    if final(self).seq().len() > 0 {
                        Some(final(self).seq()[0].id)
                    } else {
                        None::<WindowId>
                    }
                } else {
                    old(self).current_id()
                }),
                None => r == None::<Window> && final(self).seq() == old(self).seq()
                    && final(self).current_id() == old(self).current_id(),
            },
    {
        let idx = match self.find(id) {
            Some(i) => i,
            None => return None,
        };
        let removed = self.items.remove(idx);
        if self.current == Some(id) {
            if self.items.len() > 0 {
                self.current = Some(self.items[0].id);
            } else {
                self.current = None;
            }
        }
        proof {
            let items = self.items@;
            let olds = old(self).items@;
            assert(items == olds.remove(idx as int));
            assert forall|a: int, b: int| 0 <= a < b < items.len() implies (
            #[trigger] items[a]).id.0 < (#[trigger] items[b]).id.0 by {
                let oa = if a < idx { a } else { a + 1 };
                let ob = if b < idx { b } else { b + 1 };
                assert(items[a] == olds[oa]);
                assert(items[b] == olds[ob]);
                assert(olds[oa].id.0 < olds[ob].id.0);
            }
            assert forall|a: int| 0 <= a < items.len() implies (#[trigger] items[a]).id.0
                < self.next_id by {
                let oa = if a < idx { a } else { a + 1 };
                assert(items[a] == olds[oa]);
            }
            if let Some(c) = self.current {
                if c != id {
                    let j = choose|j: int| 0 <= j < olds.len() && (#[trigger] olds[j]).id == c;
                    assert(j != idx);
                    let nj = if j < idx { j } else { j - 1 };
                    assert(items[nj] == olds[j]);
                } else {
                    assert(items[0].id == c);
                }
            }
        }
        Some(removed)
    }

    /// The position of the window with identifier `id`, which must exist.
    pub fn position_of(&self, id: WindowId) -> (r: usize)
        requires
            self.wf(),
            self.index_of(id) is Some,
        ensures
            self.index_of(id) == Some(r as int),
            r < self.seq().len(),
            self.seq()[r as int].id == id,
    {
        match self.find(id) {
            Some(i) => i,
            None => 0,
        }
    }

    pub fn len(&self) -> (r: usize)
        ensures
            r == self.seq().len(),
    {
        self.items.len()
    }

    pub fn is_empty(&self) -> (r: bool)
        ensures
            r == (self.seq().len() == 0),
    {
        self.items.len() == 0
    }
}

} // verus!
