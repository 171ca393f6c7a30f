use crate::buffer::Buffer;
use crate::types::BufferId;
use vstd::prelude::*;

verus! {

/// All buffers of the editor; buffer `i` has identifier `BufferId(i)`.
pub struct Buffers {
    items: Vec<Buffer>,
}

impl Buffers {
    pub closed spec fn seq(&self) -> Seq<Buffer> {
        self.items@
    }

    /// Every buffer is well formed and knows its own position.
    pub open spec fn wf(&self) -> bool {
        forall|i: int|
            0 <= i < self.seq().len() ==> (#[trigger] self.seq()[i]).wf() && self.seq()[i].id
                == BufferId(i as usize)
    }

    pub fn new() -> (b: Self)
        ensures
            b.wf(),
            b.seq() == Seq::<Buffer>::empty(),
    {
        Buffers { items: Vec::new() }
    }

    pub fn len(&self) -> (r: usize)
        ensures
            r == self.seq().len(),
    {
        self.items.len()
    }

    /// Adds an empty buffer called `name` and returns its identifier.
    pub fn create(&mut self, name: &str) -> (id: BufferId)
        requires
            old(self).wf(),
        ensures
            final(self).wf(),
            id.0 == old(self).seq().len(),
            final(self).seq().len() == old(self).seq().len() + 1,
            final(self).seq().drop_last() == old(self).seq(),
            final(self).seq().last().name@ == name@,
            final(self).seq().last().ids() == Seq::<usize>::empty(),
            final(self).seq().last().lines@.len() == 1,
            final(self).seq().last().model().arena == seq![Seq::<u8>::empty()],
            final(self).seq().last().filename@ == Seq::<char>::empty(),
            final(self).seq().last().flags == crate::types::BufferFlags(0),
            final(self).seq().last().mode == crate::types::Mode(0),
    {
        let id = BufferId(self.items.len());
        self.items.push(Buffer::new(id, name));
        assert(self.items@.drop_last() =~= old(self).items@);
        assert(self.items.len() == self.items@.len());
        assert(self.seq().last().model().arena =~= seq![Seq::<u8>::empty()]);
        assert forall|i: int| 0 <= i < self.seq().len() implies (#[trigger] self.seq()[i]).wf()
            && self.seq()[i].id == BufferId(i as usize) by {
            if i < old(self).items@.len() {
                assert(self.seq()[i] == old(self).seq()[i]);
            } else {
                assert(i == old(self).items@.len());
            }
        }
        id
    }

    pub fn get(&self, id: BufferId) -> (r: Option<&Buffer>)
        ensures
            id.0 < self.seq().len() ==> r == Some(&self.seq()[id.0 as int]),
            id.0 >= self.seq().len() ==> r is None,
    {
        if id.0 < self.items.len() {
            Some(&self.items[id.0])
        } else {
            None
        }
    }

    pub fn get_mut(&mut self, id: BufferId) -> (r: Option<&mut Buffer>)
        ensures
            id.0 < old(self).seq().len() ==> r is Some && *r->0 == old(self).seq()[id.0 as int]
                && final(self).seq() == old(self).seq().update(id.0 as int, *final(r->0)),
            id.0 >= old(self).seq().len() ==> r is None && final(self).seq() == old(self).seq(),
    {
        if id.0 < self.items.len() {
            Some(&mut self.items[id.0])
        } else {
            None
        }
    }

    /// Takes buffer `id` out, leaving an empty buffer with the same identifier in its place.
    pub fn take(&mut self, id: BufferId) -> (b: Buffer)
        requires
            old(self).wf(),
            id.0 < old(self).seq().len(),
        ensures
            final(self).wf(),
            b == old(self).seq()[id.0 as int],
            final(self).seq().len() == old(self).seq().len(),
            forall|i: int|
                0 <= i < old(self).seq().len() && i != id.0 ==> #[trigger] final(self).seq()[i]
                    == old(self).seq()[i],
    {
        let mut b = Buffer::new(id, "");
        std::mem::swap(&mut b, &mut self.items[id.0]);
        b
    }

    /// Puts `b` back as buffer `id`.
    pub fn put(&mut self, id: BufferId, b: Buffer)
        requires
            old(self).wf(),
            id.0 < old(self).seq().len(),
            b.wf(),
            b.id == id,
        ensures
            final(self).wf(),
            final(self).seq() == old(self).seq().update(id.0 as int, b),
    {
        self.items.set(id.0, b);
    }

    /// The first buffer called `name`.
    pub fn find(&self, name: &str) -> (r: Option<BufferId>)
        ensures
            match r {
                Some(id) => id.0 < self.seq().len() && self.seq()[id.0 as int].name@ == name@
                    && forall|j: int| 0 <= j < id.0 ==> (#[trigger] self.seq()[j]).name@ != name@,
                None => forall|j: int|
                    0 <= j < self.seq().len() ==> (#[trigger] self.seq()[j]).name@ != name@,
            },
    {
        let target = String::from_str(name);
        let mut i: usize = 0;
        while i < self.items.len()
            invariant
                i <= self.items@.len(),
                target@ == name@,
                forall|j: int| 0 <= j < i ==> (#[trigger] self.items@[j]).name@ != name@,
            decreases self.items@.len() - i,
        {
            if self.items[i].name == target {
                return Some(BufferId(i));
            }
            i = i + 1;
        }
        None
    }

    /// The first buffer called `name`, created empty when there is none.
    pub fn find_or_create(&mut self, name: &str) -> (id: BufferId)
        requires
            old(self).wf(),
        ensures
            final(self).wf(),
            id.0 < final(self).seq().len(),
            final(self).seq()[id.0 as int].name@ == name@,
            old(self).seq().len() <= final(self).seq().len() <= old(self).seq().len() + 1,
            forall|j: int|
                0 <= j < old(self).seq().len() ==> #[trigger] final(self).seq()[j] == old(
                    self,
                ).seq()[j],
    {
        match self.find(name) {
            Some(id) => id,
            None => {
                let id = self.create(name);
                assert(self.seq()[id.0 as int] == self.seq().last());
                assert forall|j: int| 0 <= j < old(self).seq().len() implies #[trigger] self.seq()[j]
                    == old(self).seq()[j] by {
                    assert(self.seq().drop_last()[j] == self.seq()[j]);
                }
                id
            },
        }
    }

    /// The buffers, in order of creation.
    pub fn as_slice(&self) -> (r: &[Buffer])
        ensures
            r@ == self.seq(),
    {
        self.items.as_slice()
    }
}

} // verus!
