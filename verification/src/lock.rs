use vstd::prelude::*;

verus! {

/// The names of the files this editor holds lock files for.
pub struct LockManager {
    pub locked_files: Vec<String>,
}

impl LockManager {
    /// A manager holding no locks.
    pub fn new() -> (m: Self)
        ensures
            m.locked_files@.len() == 0,
    {
        LockManager { locked_files: Vec::new() }
    }

    /// Whether a lock on `fname` is already held.
    pub fn holds(&self, fname: &str) -> (r: bool)
        ensures
            r == exists|i: int|
                0 <= i < self.locked_files@.len() && (#[trigger] self.locked_files@[i])@ == fname@,
    {
        let target = String::from_str(fname);
        let mut i: usize = 0;
        while i < self.locked_files.len()
            invariant
                i <= self.locked_files@.len(),
                target@ == fname@,
                forall|j: int| 0 <= j < i ==> (#[trigger] self.locked_files@[j])@ != fname@,
            decreases self.locked_files@.len() - i,
        {
            if self.locked_files[i] == target {
                return true;
            }
            i = i + 1;
        }
        false
    }

    /// Records that a lock on `fname` was taken.
    pub fn note_locked(&mut self, fname: &str)
        ensures
            final(self).locked_files@.len() == old(self).locked_files@.len() + 1,
            final(self).locked_files@.drop_last() == old(self).locked_files@,
            final(self).locked_files@.last()@ == fname@,
    {
        self.locked_files.push(String::from_str(fname));
        assert(self.locked_files@.drop_last() =~= old(self).locked_files@);
    }

    /// Forgets every lock and hands back the names, in the order they were taken.
    pub fn take_locked(&mut self) -> (names: Vec<String>)
        ensures
            names@ == old(self).locked_files@,
            final(self).locked_files@.len() == 0,
    {
        let mut names: Vec<String> = Vec::new();
        std::mem::swap(&mut names, &mut self.locked_files);
        names
    }
}

} // verus!
